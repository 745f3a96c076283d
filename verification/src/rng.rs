//! The 64-bit linear congruential generator and the Fisher-Yates shuffle
//! driven by it.

use vstd::prelude::*;
use crate::rounding::{float_index, scaled_index, two53};

verus! {

/// Multiplier of the generator.
pub const LCG_MULTIPLIER: u64 = 6364136223846793005;

/// One step of the generator: `state * 6364136223846793005 + 1 (mod 2^64)`.
pub open spec fn lcg_step(state: u64) -> u64 {
    ((state as nat * LCG_MULTIPLIER as nat + 1) % 0x1_0000_0000_0000_0000) as u64
}

/// The state after `k` steps from `state`.
pub open spec fn lcg_iter(state: u64, k: nat) -> u64
    decreases k,
{
    if k == 0 {
        state
    } else {
        lcg_iter(lcg_step(state), (k - 1) as nat)
    }
}

/// The top 53 bits of a generator output: the numerator of the fraction in
/// `[0, 1)` that the output stands for.
pub open spec fn fraction_bits(x: u64) -> nat {
    (x as nat) / 2048
}

/// `s` with the items at `i` and `j` exchanged.
pub open spec fn swap_seq<E>(s: Seq<E>, i: int, j: int) -> Seq<E> {
    s.update(i, s[j]).update(j, s[i])
}

/// Shuffle steps for positions `i, i - 1, ..., 1`: each draws one output and
/// exchanges position `i` with the index that output scales to in `0..=i`.
/// Gives the final generator state and sequence.
pub open spec fn shuffle_steps<E>(state: u64, s: Seq<E>, i: nat) -> (u64, Seq<E>)
    decreases i,
{
    if i == 0 {
        (state, s)
    } else {
        let next = lcg_step(state);
        let j = float_index(fraction_bits(next), i + 1);
        shuffle_steps(next, swap_seq(s, i as int, j as int), (i - 1) as nat)
    }
}

/// Generator state and sequence after shuffling `s` from `state`.
pub open spec fn shuffle_outcome<E>(state: u64, s: Seq<E>) -> (u64, Seq<E>) {
    if s.len() == 0 {
        (state, s)
    } else {
        shuffle_steps(state, s, (s.len() - 1) as nat)
    }
}

/// Exchanging two positions keeps the multiset of items.
pub proof fn lemma_swap_multiset<E>(s: Seq<E>, i: int, j: int)
    requires
        0 <= i < s.len(),
        0 <= j < s.len(),
    ensures
        swap_seq(s, i, j).to_multiset() =~= s.to_multiset(),
{
    let a = s[i];
    let b = s[j];
    lemma_update_multiset(s, i, b);
    lemma_update_multiset(s.update(i, b), j, a);
    if i == j {
        assert(swap_seq(s, i, j) =~= s);
    } else {
        assert(s.update(i, b)[j] == b);
        assert(s.to_multiset().count(a) > 0) by {
            s.to_multiset_ensures();
            assert(s.contains(a));
        }
    }
}

/// Writing `x` at `i` removes one copy of the old item and adds `x`.
pub proof fn lemma_update_multiset<E>(s: Seq<E>, i: int, x: E)
    requires
        0 <= i < s.len(),
    ensures
        s.update(i, x).to_multiset() =~= s.to_multiset().remove(s[i]).insert(x),
{
    let t = s.update(i, x);
    s.to_multiset_ensures();
    t.to_multiset_ensures();
    assert(t.remove(i) =~= s.remove(i));
    assert(t.contains(x)) by {
        assert(t[i] == x);
    }
    let m = t.to_multiset();
    assert(t.remove(i).to_multiset() =~= m.remove(t[i]));
    assert(s.remove(i).to_multiset() =~= s.to_multiset().remove(s[i]));
    assert(m.remove(x) =~= s.to_multiset().remove(s[i]));
    assert(m =~= m.remove(x).insert(x));
}

/// The shuffle only permutes: every item keeps its number of copies.
pub proof fn lemma_shuffle_steps_permutes<E>(state: u64, s: Seq<E>, i: nat)
    requires
        i < s.len(),
    ensures
        shuffle_steps(state, s, i).1.to_multiset() =~= s.to_multiset(),
        shuffle_steps(state, s, i).1.len() == s.len(),
        shuffle_steps(state, s, i).0 == lcg_iter(state, i),
    decreases i,
{
    if i > 0 {
        let next = lcg_step(state);
        let j = float_index(fraction_bits(next), i + 1);
        lemma_fraction_bits(next);
        crate::rounding::lemma_float_index_below(fraction_bits(next), i + 1);
        lemma_swap_multiset(s, i as int, j as int);
        lemma_shuffle_steps_permutes(next, swap_seq(s, i as int, j as int), (i - 1) as nat);
    }
}

/// Shuffling yields a permutation of the input and advances the generator
/// by one step for every position after the first.
pub proof fn lemma_shuffle_permutes<E>(state: u64, s: Seq<E>)
    ensures
        shuffle_outcome(state, s).1.to_multiset() =~= s.to_multiset(),
        shuffle_outcome(state, s).1.len() == s.len(),
        shuffle_outcome(state, s).0 == lcg_iter(state, if s.len() == 0 { 0 } else { (s.len() - 1) as nat }),
{
    if s.len() > 0 {
        lemma_shuffle_steps_permutes(state, s, (s.len() - 1) as nat);
    }
}

/// The fraction numerator of an output has 53 bits.
pub proof fn lemma_fraction_bits(x: u64)
    ensures
        fraction_bits(x) < two53(),
{
}

/// The generator's whole state.
pub struct Rng {
    state: u64,
}

impl View for Rng {
    type V = u64;

    closed spec fn view(&self) -> u64 {
        self.state
    }
}

impl Rng {
    /// A generator whose state is `seed`.
    pub fn new(seed: u64) -> (r: Rng)
        ensures
            r@ == seed,
    {
        Rng { state: seed }
    }

    /// Advances the state one step and returns the new state.
    pub fn next_u64(&mut self) -> (x: u64)
        ensures
            x == lcg_step(old(self)@),
            final(self)@ == x,
    {
        let next: u64 = self.state.wrapping_mul(LCG_MULTIPLIER).wrapping_add(1);
        proof {
            let p = self.state as nat * LCG_MULTIPLIER as nat;
            let m: nat = 0x1_0000_0000_0000_0000;
            vstd::arithmetic::div_mod::lemma_add_mod_noop(p as int, 1, m as int);
            assert(1int % (m as int) == 1);
        }
        self.state = next;
        next
    }

    /// Shuffles `xs` in place: for `i` from the last position down to 1 it
    /// draws one output, scales its top 53 bits to an index `j` in `0..=i`
    /// as a double computation would, and exchanges positions `i` and `j`.
    pub fn shuffle<E>(&mut self, xs: &mut [E])
        ensures
            (final(self)@, final(xs)@) == shuffle_outcome(old(self)@, old(xs)@),
            final(xs)@.to_multiset() =~= old(xs)@.to_multiset(),
            final(self)@ == lcg_iter(old(self)@, if old(xs)@.len() == 0 { 0 } else { (old(xs)@.len() - 1) as nat }),
    {
        proof {
            lemma_shuffle_permutes(self@, xs@);
        }
        let len: usize = xs.len();
        if len == 0 {
            return;
        }
        let ghost goal = shuffle_outcome(self@, xs@);
        let mut i: usize = len - 1;
        while i > 0
            invariant
                xs@.len() == len,
                i < len,
                shuffle_steps(self@, xs@, i as nat) == goal,
            decreases i,
        {
            let x: u64 = self.next_u64();
            let bits: u64 = x >> 11;
            assert(bits == fraction_bits(x) && bits < two53()) by (bit_vector)
                requires bits == x >> 11;
            let j: usize = scaled_index(bits, i + 1);
            xs.swap(i, j);
            i = i - 1;
        }
    }
}

/// Exchanging two items of a slice, as `<[T]>::swap` documents it: the
/// items at `a` and `b` trade places; both indices must be in bounds.
pub assume_specification<T>[ <[T]>::swap ](s: &mut [T], a: usize, b: usize)
    requires
        a < old(s)@.len(),
        b < old(s)@.len(),
    ensures
        final(s)@ == old(s)@.update(a as int, old(s)@[b as int]).update(b as int, old(s)@[a as int]),
;

} // verus!
