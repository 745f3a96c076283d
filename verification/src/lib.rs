//! Integer core of a tiny character-level GPT trainer: the random number
//! generator and its shuffle, the exact model of the generator's
//! float-scaled indices, the topological order used by back-propagation,
//! and the character tokenizer.

pub mod rounding;
pub mod rng;
pub mod graph;
pub mod text;
