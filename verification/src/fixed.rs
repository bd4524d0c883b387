use vstd::prelude::*;
use vstd::arithmetic::div_mod::{
    lemma_div_is_ordered, lemma_div_multiples_vanish, lemma_div_nonincreasing,
    lemma_fundamental_div_mod, lemma_fundamental_div_mod_converse, lemma_mod_bound,
};

verus! {

/// Number of fixed-point units that stand for 1.0: every coordinate is an
/// integer count of steps of 1/65536.
pub const SCALE: i64 = 65536;

/// Largest whole number that still fits as a `Fixed` value, i.e.
/// `i64::MAX / SCALE` rounded down.
pub const WHOLE_MAX: i64 = 0x7fff_ffff_ffff;

/// A signed fixed-point number: `raw` counts steps of 1/SCALE.
#[derive(Clone, Copy, PartialEq, Eq, Structural, Debug)]
pub struct Fixed {
    pub raw: i64,
}

/// With a positive divisor, a quotient is bounded by any bound on the
/// dividend taken in multiples of the divisor.
pub proof fn lemma_div_bound(x: int, d: int, b: int)
    requires
        1 <= d,
        0 <= b,
        -(b * d) <= x <= b * d,
    ensures
        -b <= x / d <= b,
{
    lemma_div_is_ordered(x, b * d, d);
    lemma_div_is_ordered(-(b * d), x, d);
    lemma_div_multiples_vanish(b, d);
    lemma_div_multiples_vanish(-b, d);
    assert(b * d == d * b) by (nonlinear_arith);
    assert(-(b * d) == d * -b) by (nonlinear_arith);
}

/// Floor division of a wide signed value by a positive divisor; the result
/// agrees with mathematical integer division (rounding toward minus
/// infinity).
pub(crate) fn div_floor_i128(x: i128, d: i128) -> (q: i128)
    requires
        0 < d <= 0x1_0000_0000_0000_0000,
        -0x4000_0000_0000_0000_0000_0000_0000_0000 <= x <= 0x4000_0000_0000_0000_0000_0000_0000_0000,
    ensures
        q == x as int / d as int,
{
    if x >= 0 {
        let q: u128 = (x as u128) / (d as u128);
        proof {
            lemma_div_is_ordered(0, x as int, d as int);
            lemma_div_multiples_vanish(0, d as int);
            lemma_div_nonincreasing(x as int, d as int);
        }
        q as i128
    } else {
        let m: u128 = (-x) as u128;
        let du: u128 = d as u128;
        let qd: u128 = (m + (du - 1)) / du;
        proof {
            let mi = m as int;
            let di = d as int;
            let qi = qd as int;
            lemma_fundamental_div_mod(mi + di - 1, di);
            lemma_mod_bound(mi + di - 1, di);
            let r = (mi + di - 1) % di;
            assert(mi + di - 1 == di * qi + r);
            assert(di * qi - mi == di - 1 - r);
            assert(-mi == (-qi) * di + (di * qi - mi)) by (nonlinear_arith);
            lemma_fundamental_div_mod_converse(-mi, di, -qi, di * qi - mi);
            lemma_div_nonincreasing(mi + di - 1, di);
        }
        -(qd as i128)
    }
}

impl Fixed {
    /// Wraps a raw count of 1/SCALE steps.
    pub fn new(raw: i64) -> (r: Fixed)
        ensures
            r.raw == raw,
    {
        Fixed { raw }
    }

    /// The fixed-point form of the whole number `n`.
    pub fn from_int(n: i64) -> (r: Fixed)
        requires
            -WHOLE_MAX <= n <= WHOLE_MAX,
        ensures
            r.raw == n * SCALE,
    {
        Fixed { raw: n * SCALE }
    }

    /// The fixed-point form of the ratio `num / den`, rounded toward minus
    /// infinity.
    pub fn from_ratio(num: i64, den: i64) -> (r: Fixed)
        requires
            1 <= den,
            -WHOLE_MAX <= num <= WHOLE_MAX,
        ensures
            r.raw == (num as int * SCALE as int) / (den as int),
    {
        let x: i128 = (num as i128) * (SCALE as i128);
        proof {
            assert(SCALE == 65536);
            assert(x == num as int * 65536);
        }
        let q: i128 = div_floor_i128(x, den as i128);
        proof {
            lemma_div_bound(x as int, den as int, i64::MAX as int);
            assert((i64::MAX as int) * 1 <= (i64::MAX as int) * (den as int))
                by (nonlinear_arith)
                requires 1 <= den as int;
        }
        Fixed { raw: q as i64 }
    }
}

} // verus!
