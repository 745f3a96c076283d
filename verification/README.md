# microgpt

A tiny character-level GPT trainer. The verified library (`src/`) holds the
parts that are integer logic:

- `rng`: the 64-bit linear congruential generator and the Fisher-Yates
  shuffle it drives, specified exactly, with proofs that the shuffle only
  permutes and never indexes out of range.
- `rounding`: an exact integer model of double-precision rounding, used to
  turn a 53-bit random fraction times a length into an index exactly as the
  floating-point expression does.
- `graph`: the shape of the autograd expression graph (`Tape`) and the
  depth-first post-order that back-propagation walks, with proofs that it
  lists every reachable node once, children before parents.
- `text`: splitting the training text into trimmed documents, the sorted
  character vocabulary, and token encoding.

`app/main.rs` holds the floating-point model (values, gradients, attention,
Adam, sampling) and the file I/O, and calls the library for the rest.
