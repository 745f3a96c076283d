//! Exact integer model of how a 53-bit random fraction, scaled by a length
//! in double precision and truncated, becomes an index.
//!
//! A double holds 53 significant bits.  For a non-negative integer `v` the
//! doubles near `v` are the multiples of `ulp_grid(v)`, and rounding to
//! nearest (ties to even) picks one of the two multiples around `v`.
//! Scaling by a power of two is exact, so for `bits < 2^53`
//! `((bits as f64 / 2^53) * (n as f64)) as usize` equals
//! `round_f64(bits * round_f64(n)) / 2^53`.

use vstd::prelude::*;
use vstd::arithmetic::div_mod::{
    lemma_div_denominator,
    lemma_fundamental_div_mod,
    lemma_fundamental_div_mod_converse,
};
use vstd::arithmetic::power2::{pow2, lemma_pow2_unfold, lemma_pow2_adds, lemma2_to64_rest};

verus! {

/// 2^53, the number of distinct 53-bit fractions.
pub open spec fn two53() -> nat {
    0x20_0000_0000_0000
}

/// Spacing of the doubles around the integer `v`: 1 below 2^53, and doubling
/// with each further bit of `v`.
pub open spec fn ulp_grid(v: nat) -> nat
    decreases v,
{
    if v < two53() {
        1
    } else {
        2 * ulp_grid(v / 2)
    }
}

/// The exponent of `ulp_grid(v)`: bits of `v` beyond the 53 a double keeps.
pub open spec fn ulp_exp(v: nat) -> nat
    decreases v,
{
    if v < two53() {
        0
    } else {
        1 + ulp_exp(v / 2)
    }
}

/// The double nearest to the integer `v`, ties to an even significand.
pub open spec fn round_f64(v: nat) -> nat {
    let g = ulp_grid(v);
    let q = v / g;
    let r = v % g;
    if 2 * r > g || (2 * r == g && q % 2 == 1) {
        (q + 1) * g
    } else {
        q * g
    }
}

/// `(bits / 2^53) * n` computed in double precision (the length `n` first
/// converted to a double), then truncated.
pub open spec fn float_index(bits: nat, n: nat) -> nat {
    round_f64(bits * round_f64(n)) / two53()
}

/// The grid is at least 1, leaves fewer than 2^53 steps below `v`, and is
/// the smallest power of two that does so.
pub proof fn lemma_ulp_grid(v: nat)
    ensures
        ulp_grid(v) >= 1,
        v / ulp_grid(v) < two53(),
        ulp_grid(v) > 1 ==> ulp_grid(v) % 2 == 0 && v / (ulp_grid(v) / 2) >= two53(),
        ulp_grid(v) > 1 ==> v >= two53() * (ulp_grid(v) / 2),
        ulp_grid(v) == pow2(ulp_exp(v)),
    decreases v,
{
    if v >= two53() {
        let h = ulp_grid(v / 2);
        lemma_ulp_grid(v / 2);
        lemma_div_denominator(v as int, 2, h as int);
        assert(ulp_grid(v) == 2 * h);
        if h > 1 {
            lemma_div_denominator(v as int, 2, (h / 2) as int);
            assert(2 * (h / 2) == h);
            assert(v / h == (v / 2) / (h / 2));
        } else {
            assert(v / 1 == v);
        }
        assert(ulp_grid(v) / 2 == h);
        lemma_fundamental_div_mod(v as int, h as int);
        assert(v >= two53() * h) by (nonlinear_arith)
            requires v == h * (v / h) + v % h, v / h >= two53(), v % h >= 0, h >= 1;
        lemma_pow2_unfold(ulp_exp(v));
    } else {
        assert(v / 1 == v);
        vstd::arithmetic::power2::lemma2_to64();
    }
}

proof fn lemma_pow2_53()
    ensures
        pow2(53) == two53(),
{
    lemma2_to64_rest();
}

/// Below `2^(53 + k)` at most `k` bits are dropped.
proof fn lemma_ulp_exp_upper(v: nat, k: nat)
    requires
        v < pow2(53 + k),
    ensures
        ulp_exp(v) <= k,
    decreases v,
{
    lemma_pow2_53();
    if v >= two53() {
        if k == 0 {
            assert(false);
        } else {
            lemma_pow2_unfold(53 + k);
            assert((53 + k - 1) as nat == 53 + (k - 1) as nat);
            lemma_ulp_exp_upper(v / 2, (k - 1) as nat);
        }
    }
}

/// From `2^(53 + k)` on at least `k + 1` bits are dropped.
proof fn lemma_ulp_exp_lower(v: nat, k: nat)
    requires
        v >= pow2(53 + k),
    ensures
        ulp_exp(v) >= k + 1,
    decreases k,
{
    lemma_pow2_53();
    if k == 0 {
        assert(v >= two53());
    } else {
        lemma_pow2_unfold(53 + k);
        assert((53 + k - 1) as nat == 53 + (k - 1) as nat);
        vstd::arithmetic::power2::lemma_pow2_strictly_increases(53, 53 + k);
        lemma_ulp_exp_lower(v / 2, (k - 1) as nat);
    }
}

/// The rounded value is a multiple of the grid, at most half a grid step
/// from `v`, and `v` itself below 2^53.
pub proof fn lemma_round_f64(v: nat)
    ensures
        round_f64(v) % ulp_grid(v) == 0,
        round_f64(v) <= v + ulp_grid(v) / 2,
        round_f64(v) + ulp_grid(v) / 2 >= v,
        v < two53() ==> round_f64(v) == v,
        round_f64(v) <= 2 * v,
{
    let g = ulp_grid(v);
    let q = v / g;
    let r = v % g;
    lemma_ulp_grid(v);
    lemma_fundamental_div_mod(v as int, g as int);
    if v < two53() {
        assert(g == 1);
        assert(q == v && r == 0);
    }
    if 2 * r > g || (2 * r == g && q % 2 == 1) {
        assert(g > 1);
        assert((q + 1) * g == v + (g - r)) by (nonlinear_arith)
            requires v == g * q + r;
        assert(((q + 1) * g) % g == 0) by (nonlinear_arith)
            requires g >= 1;
        assert(v + (g - r) <= 2 * v) by (nonlinear_arith)
            requires v >= two53() * (g / 2), g % 2 == 0, g > 1, r >= 0;
    } else {
        assert(q * g <= v) by (nonlinear_arith)
            requires v == g * q + r, r >= 0;
        assert((q * g) % g == 0) by (nonlinear_arith)
            requires g >= 1;
        assert(q * g == v - r) by (nonlinear_arith)
            requires v == g * q + r;
    }
}

/// If `t - v` exceeds half of `v`'s grid step, rounding `v` stays below `t`.
proof fn lemma_round_below(v: nat, t: nat)
    requires
        v < t,
        ulp_grid(v) == 1 || ulp_grid(v) / 2 < t - v,
    ensures
        round_f64(v) < t,
{
    lemma_ulp_grid(v);
    lemma_round_f64(v);
    let g = ulp_grid(v);
    lemma_fundamental_div_mod(v as int, g as int);
    if g == 1 {
        assert(v % 1 == 0);
    }
}

/// A rounded product `bits * nf` with `bits < 2^53` and `nf <= n` stays
/// below `n * 2^53`.
proof fn lemma_scaled_below_when_not_rounded_up(bits: nat, nf: nat, n: nat)
    requires
        bits < two53(),
        1 <= n,
        nf <= n,
    ensures
        round_f64(bits * nf) < n * two53(),
{
    let v = bits * nf;
    let t = n * two53();
    lemma_ulp_grid(v);
    assert(v <= (two53() - 1) * n) by (nonlinear_arith)
        requires v == bits * nf, bits < two53(), nf <= n;
    assert(t - v >= n) by (nonlinear_arith)
        requires v <= (two53() - 1) * n, t == n * two53();
    if ulp_grid(v) > 1 {
        let h = ulp_grid(v) / 2;
        let c = two53();
        assert(h < n) by (nonlinear_arith)
            requires v >= c * h, v <= (c - 1) * n, c == 0x20_0000_0000_0000, n >= 1;
    }
    lemma_round_below(v, t);
}

/// The truncated double-precision index is always below the length: a
/// 53-bit fraction of `n`, rounded, never reaches `n`.
pub proof fn lemma_float_index_below(bits: nat, n: nat)
    requires
        bits < two53(),
        n >= 1,
    ensures
        round_f64(bits * round_f64(n)) < n * two53(),
        float_index(bits, n) < n,
{
    let nf = round_f64(n);
    let v = bits * nf;
    let t = n * two53();
    lemma_ulp_grid(n);
    lemma_round_f64(n);
    let gn = ulp_grid(n);
    let q = n / gn;
    let r = n % gn;
    lemma_fundamental_div_mod(n as int, gn as int);
    if nf <= n {
        lemma_scaled_below_when_not_rounded_up(bits, nf, n);
    } else {
        // n was rounded up: n >= 2^53, nf = (q + 1) * gn and 2 * r >= gn.
        assert(gn > 1);
        assert(nf == (q + 1) * gn);
        assert(2 * r >= gn);
        let h = gn / 2;
        assert(gn == 2 * h);
        assert(q >= two53() / 2) by (nonlinear_arith)
            requires n >= two53() * h, n == gn * q + r, r < gn, gn == 2 * h, h >= 1;
        assert(q < two53());
        lemma_ulp_grid(v);
        let g = ulp_grid(v);
        let big = (two53() / 2) * two53() * gn;
        if v < big {
            assert(t - v > (two53() / 2) * gn) by (nonlinear_arith)
                requires v < big, big == (two53() / 2) * two53() * gn, t == n * two53(),
                    n == gn * q + r, q >= two53() / 2, 2 * r >= gn;
            if g > 1 {
                assert(g / 2 < (two53() / 2) * gn) by (nonlinear_arith)
                    requires v >= two53() * (g / 2), v < big, big == (two53() / 2) * two53() * gn;
            }
            lemma_round_below(v, t);
        } else {
            // v is within [2^105 * gn, 2^106 * gn): its grid is 2^53 * gn.
            let en = ulp_exp(n);
            lemma_pow2_53();
            lemma_pow2_adds(53, en);
            lemma_pow2_adds(52, en);
            lemma_pow2_adds(53, 53 + en);
            lemma_pow2_adds(53, 52 + en);
            lemma_pow2_unfold(53);
            assert(pow2(52) == two53() / 2);
            assert(gn == pow2(en));
            assert(pow2(53 + en) == two53() * gn);
            assert(pow2(52 + en) == (two53() / 2) * gn);
            let c = two53();
            let top = pow2(53 + (53 + en));
            let low = pow2(53 + (52 + en));
            assert(top == c * (c * gn));
            assert(low == c * ((c / 2) * gn));
            assert(v < top) by (nonlinear_arith)
                requires v == bits * nf, bits < c, nf == (q + 1) * gn, q < c, gn >= 1,
                    top == c * (c * gn), c == 0x20_0000_0000_0000;
            lemma_ulp_exp_upper(v, 53 + en);
            assert(v >= low) by (nonlinear_arith)
                requires v >= big, big == (c / 2) * c * gn, low == c * ((c / 2) * gn),
                    c == 0x20_0000_0000_0000;
            lemma_ulp_exp_lower(v, 52 + en);
            assert(ulp_exp(v) == 53 + en);
            assert(g == two53() * gn);
            lemma_round_f64(v);
            let k = round_f64(v) / g;
            lemma_fundamental_div_mod(round_f64(v) as int, g as int);
            assert(round_f64(v) == g * k);
            assert(k <= q) by (nonlinear_arith)
                requires g * k <= v + g / 2, g == two53() * gn, v == bits * nf, bits < two53(),
                    nf == (q + 1) * gn, q >= two53() / 2, gn >= 2, gn % 2 == 0;
            assert(round_f64(v) < t) by (nonlinear_arith)
                requires round_f64(v) == g * k, k <= q, g == two53() * gn, t == n * two53(),
                    n == gn * q + r, 2 * r >= gn, gn >= 2;
        }
    }
    let x = round_f64(v);
    lemma_fundamental_div_mod(x as int, two53() as int);
    assert(x / two53() < n) by (nonlinear_arith)
        requires x < n * two53(), x == two53() * (x / two53()) + x % two53(), x % two53() >= 0;
}

/// The double nearest to `v` (ties to even), for `v < 2^118`.
pub fn round_to_double(v: u128) -> (r: u128)
    requires
        v < 0x40_0000_0000_0000_0000_0000_0000_0000u128,
    ensures
        r == round_f64(v as nat),
{
    let mut w: u128 = v;
    let mut g: u128 = 1;
    while w >= 0x20_0000_0000_0000u128
        invariant
            g >= 1,
            w == v / g,
            g * w <= v,
            v < 0x40_0000_0000_0000_0000_0000_0000_0000u128,
            g <= 0x4_0000_0000_0000_0000u128,
            ulp_grid(v as nat) == g * ulp_grid(w as nat),
        decreases w,
    {
        proof {
            lemma_div_denominator(v as int, g as int, 2);
            assert(g * 2 <= 0x4_0000_0000_0000_0000u128) by (nonlinear_arith)
                requires g * w <= v, w >= 0x20_0000_0000_0000u128,
                    v < 0x40_0000_0000_0000_0000_0000_0000_0000u128;
            lemma_fundamental_div_mod(w as int, 2);
            assert((g * 2) * (w / 2) <= g * w) by (nonlinear_arith)
                requires w == 2 * (w / 2) + w % 2, w % 2 >= 0, g >= 1;
            assert(ulp_grid(w as nat) == 2 * ulp_grid((w / 2) as nat));
            assert(g * ulp_grid(w as nat) == (g * 2) * ulp_grid((w / 2) as nat))
                by (nonlinear_arith)
                requires ulp_grid(w as nat) == 2 * ulp_grid((w / 2) as nat);
        }
        w = w / 2;
        g = g * 2;
    }
    proof {
        assert(ulp_grid(w as nat) == 1);
        assert(g * ulp_grid(w as nat) == g) by (nonlinear_arith)
            requires ulp_grid(w as nat) == 1;
        assert(ulp_grid(v as nat) == g);
        lemma_fundamental_div_mod(v as int, g as int);
        assert(0 <= v % g < g);
    }
    let r: u128 = v - g * w;
    proof {
        assert(v == w * g + r) by (nonlinear_arith)
            requires v == g * w + r;
        assert(r == v % g);
    }
    let up: bool = 2 * r > g || (2 * r == g && w % 2 == 1);
    if up {
        assert((w + 1) * g <= 0x20_0000_0000_0000u128 * 0x4_0000_0000_0000_0000u128)
            by (nonlinear_arith)
            requires w < 0x20_0000_0000_0000u128, g <= 0x4_0000_0000_0000_0000u128;
        (w + 1) * g
    } else {
        w * g
    }
}

/// `((bits / 2^53) * (n as f64))` in double precision, truncated to an
/// integer: the index a 53-bit random fraction picks among `n` positions.
pub fn scaled_index(bits: u64, n: usize) -> (j: usize)
    requires
        bits < two53(),
        1 <= n,
    ensures
        j == float_index(bits as nat, n as nat),
        j < n,
{
    let nf: u128 = round_to_double(n as u128);
    proof {
        lemma_round_f64(n as nat);
        lemma_float_index_below(bits as nat, n as nat);
    }
    assert((bits as u128) * nf < 0x40_0000_0000_0000_0000_0000_0000_0000u128)
        by (nonlinear_arith)
        requires bits < two53(), nf <= 2 * n, n <= usize::MAX, usize::MAX <= 0xffff_ffff_ffff_ffffu64;
    let v: u128 = (bits as u128) * nf;
    let rounded: u128 = round_to_double(v);
    (rounded / 0x20_0000_0000_0000u128) as usize
}

/// Rounding lands on a multiple of the grid at most half a step from `v`;
/// exactly halfway between two multiples it takes the even one, at every
/// grid size.  Together these leave one possible result.
pub proof fn lemma_round_f64_nearest_ties_to_even(v: nat)
    ensures
        round_f64(v) % ulp_grid(v) == 0,
        round_f64(v) <= v + ulp_grid(v) / 2,
        v <= round_f64(v) + ulp_grid(v) / 2,
        2 * (v % ulp_grid(v)) == ulp_grid(v) ==> (round_f64(v) / ulp_grid(v)) % 2 == 0,
        ulp_grid(v) == 1 ==> round_f64(v) == v,
        ulp_grid(v) > 1 && 2 * (v % ulp_grid(v)) != ulp_grid(v) ==>
            round_f64(v) < v + ulp_grid(v) / 2 && v < round_f64(v) + ulp_grid(v) / 2,
{
    lemma_round_f64(v);
    lemma_ulp_grid(v);
    let g = ulp_grid(v);
    let q = v / g;
    let r = v % g;
    lemma_fundamental_div_mod(v as int, g as int);
    if 2 * r == g {
        assert(g > 1);
        if q % 2 == 1 {
            assert(round_f64(v) == (q + 1) * g);
            vstd::arithmetic::div_mod::lemma_div_multiples_vanish((q + 1) as int, g as int);
            assert(((q + 1) * g) / g == q + 1) by (nonlinear_arith)
                requires g * (q + 1) / g == q + 1;
        } else {
            assert(round_f64(v) == q * g);
            vstd::arithmetic::div_mod::lemma_div_multiples_vanish(q as int, g as int);
            assert((q * g) / g == q) by (nonlinear_arith)
                requires g * q / g == q;
        }
    } else if g == 1 {
        assert(v % 1 == 0 && v / 1 == v);
    } else {
        assert(g % 2 == 0);
        if 2 * r > g {
            assert(round_f64(v) == (q + 1) * g);
            assert((q + 1) * g == v + (g - r)) by (nonlinear_arith)
                requires v == g * q + r;
        } else {
            assert(round_f64(v) == q * g);
            assert(q * g == v - r) by (nonlinear_arith)
                requires v == g * q + r;
        }
    }
}

} // verus!
