use vstd::prelude::*;
use crate::fixed::{Fixed, SCALE, lemma_div_bound, div_floor_i128};

verus! {

/// Largest coordinate magnitude (in raw fixed-point units) that the escape
/// evaluator accepts; it keeps every intermediate product inside `i128`.
pub const COORD_MAX: i64 = 0x4000_0000_0000_0000;

/// A point of the complex plane in fixed-point coordinates.
#[derive(Clone, Copy, PartialEq, Eq, Structural, Debug)]
pub struct Complex {
    pub re: Fixed,
    pub im: Fixed,
}

impl View for Complex {
    type V = (int, int);

    open spec fn view(&self) -> (int, int) {
        (self.re.raw as int, self.im.raw as int)
    }
}

impl Complex {
    /// Builds the point `re + im*i`.
    pub fn new(re: Fixed, im: Fixed) -> (r: Complex)
        ensures
            r.re == re,
            r.im == im,
            r@ == (re.raw as int, im.raw as int),
    {
        Complex { re, im }
    }
}

/// One Mandelbrot step in fixed point: z*z + c, with each product brought
/// back to scale by a single floor division.
pub open spec fn square_add_spec(z: (int, int), c: (int, int)) -> (int, int) {
    ((z.0 * z.0 - z.1 * z.1) / (SCALE as int) + c.0, (2 * (z.0 * z.1)) / (SCALE as int) + c.1)
}

/// The squared magnitude of `z`, left at the product scale (SCALE * SCALE
/// raw units stand for 1.0).
pub open spec fn norm_sqr_raw(z: (int, int)) -> int {
    z.0 * z.0 + z.1 * z.1
}

/// A point whose raw squared magnitude is at most 4.0 has both of its
/// coordinates within 2.0 of zero.
pub proof fn lemma_norm_component_bound(z: (int, int))
    requires
        norm_sqr_raw(z) <= 4 * (SCALE as int) * (SCALE as int),
    ensures
        -2 * (SCALE as int) <= z.0 <= 2 * (SCALE as int),
        -2 * (SCALE as int) <= z.1 <= 2 * (SCALE as int),
{
    assert(SCALE == 65536);
    assert(z.0 * z.0 >= 0) by (nonlinear_arith);
    assert(z.1 * z.1 >= 0) by (nonlinear_arith);
    assert(z.0 > 131072 ==> z.0 * z.0 > 17179869184) by (nonlinear_arith);
    assert(z.0 < -131072 ==> z.0 * z.0 > 17179869184) by (nonlinear_arith);
    assert(z.1 > 131072 ==> z.1 * z.1 > 17179869184) by (nonlinear_arith);
    assert(z.1 < -131072 ==> z.1 * z.1 > 17179869184) by (nonlinear_arith);
}

/// Computes z*z + c in fixed point.
pub fn square_add(z: Complex, c: Complex) -> (r: Complex)
    requires
        -2 * (SCALE as int) <= z.re.raw <= 2 * (SCALE as int),
        -2 * (SCALE as int) <= z.im.raw <= 2 * (SCALE as int),
        -COORD_MAX <= c.re.raw <= COORD_MAX,
        -COORD_MAX <= c.im.raw <= COORD_MAX,
    ensures
        r@ == square_add_spec(z@, c@),
        -(COORD_MAX + 8 * SCALE) <= r.re.raw <= COORD_MAX + 8 * SCALE,
        -(COORD_MAX + 8 * SCALE) <= r.im.raw <= COORD_MAX + 8 * SCALE,
{
    proof {
        assert(SCALE == 65536);
    }
    let zr: i128 = z.re.raw as i128;
    let zi: i128 = z.im.raw as i128;
    proof {
        assert(0 <= zr * zr <= 17179869184) by (nonlinear_arith)
            requires -131072 <= zr <= 131072;
        assert(0 <= zi * zi <= 17179869184) by (nonlinear_arith)
            requires -131072 <= zi <= 131072;
        assert(-17179869184 <= zr * zi <= 17179869184) by (nonlinear_arith)
            requires -131072 <= zr <= 131072 && -131072 <= zi <= 131072;
    }
    let diff: i128 = zr * zr - zi * zi;
    let cross: i128 = 2 * (zr * zi);
    proof {
        lemma_div_bound(diff as int, 65536, 262144);
        lemma_div_bound(cross as int, 65536, 524288);
    }
    let tr: i128 = div_floor_i128(diff, 65536);
    let ti: i128 = div_floor_i128(cross, 65536);
    let rre: i64 = (tr + (c.re.raw as i128)) as i64;
    let rim: i64 = (ti + (c.im.raw as i128)) as i64;
    Complex { re: Fixed { raw: rre }, im: Fixed { raw: rim } }
}

/// The squared magnitude of a bounded point, exactly, in a wide integer.
pub fn norm_sqr_i128(z: Complex) -> (n: i128)
    requires
        -(COORD_MAX + 8 * SCALE) <= z.re.raw <= COORD_MAX + 8 * SCALE,
        -(COORD_MAX + 8 * SCALE) <= z.im.raw <= COORD_MAX + 8 * SCALE,
    ensures
        n == norm_sqr_raw(z@),
{
    let a: i128 = z.re.raw as i128;
    let b: i128 = z.im.raw as i128;
    proof {
        assert(0 <= a * a <= 0x4000_0000_0008_0000 * 0x4000_0000_0008_0000) by (nonlinear_arith)
            requires -0x4000_0000_0008_0000 <= a <= 0x4000_0000_0008_0000;
        assert(0 <= b * b <= 0x4000_0000_0008_0000 * 0x4000_0000_0008_0000) by (nonlinear_arith)
            requires -0x4000_0000_0008_0000 <= b <= 0x4000_0000_0008_0000;
    }
    a * a + b * b
}

} // verus!
