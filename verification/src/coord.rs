use vstd::prelude::*;
use crate::complex::{COORD_MAX, Complex};
use crate::fixed::{Fixed, div_floor_i128, lemma_div_bound};
use vstd::arithmetic::div_mod::{lemma_fundamental_div_mod, lemma_fundamental_div_mod_converse, lemma_mod_bound};

verus! {

/// Largest corner-coordinate magnitude (in raw fixed-point units) that the
/// mapper accepts; it keeps the interpolation inside `i64`, and its results
/// inside what the escape evaluator accepts.
pub const VIEW_MAX: i64 = 0x1000_0000_0000_0000;

/// Where a pixel of a `bounds.0` by `bounds.1` raster lands on the complex
/// plane, when the raster shows the rectangle with corners `ul` (upper
/// left) and `lr` (lower right): a linear interpolation in each axis, with
/// the vertical axis flipped, rounded toward minus infinity.
pub open spec fn pixel_to_point_spec(
    bounds: (int, int),
    pixel: (int, int),
    ul: (int, int),
    lr: (int, int),
) -> (int, int) {
    (ul.0 + pixel.0 * (lr.0 - ul.0) / bounds.0, ul.1 - pixel.1 * (ul.1 - lr.1) / bounds.1)
}

/// Maps a pixel of the output raster to the corresponding point of the
/// viewport.
pub fn pixel_to_point(
    bounds: (usize, usize),
    pixel: (usize, usize),
    upper_left: Complex,
    lower_right: Complex,
) -> (r: Complex)
    requires
        1 <= bounds.0,
        1 <= bounds.1,
        pixel.0 < bounds.0,
        pixel.1 < bounds.1,
        -VIEW_MAX <= upper_left.re.raw <= VIEW_MAX,
        -VIEW_MAX <= upper_left.im.raw <= VIEW_MAX,
        -VIEW_MAX <= lower_right.re.raw <= VIEW_MAX,
        -VIEW_MAX <= lower_right.im.raw <= VIEW_MAX,
    ensures
        r@ == pixel_to_point_spec(
            (bounds.0 as int, bounds.1 as int),
            (pixel.0 as int, pixel.1 as int),
            upper_left@,
            lower_right@,
        ),
        -COORD_MAX <= r.re.raw <= COORD_MAX,
        -COORD_MAX <= r.im.raw <= COORD_MAX,
{
    let wdiff: i64 = lower_right.re.raw - upper_left.re.raw;
    let hdiff: i64 = upper_left.im.raw - lower_right.im.raw;
    proof {
        assert(usize::MAX as int <= 0xffff_ffff_ffff_ffff);
        assert(-(0x2000_0000_0000_0000 * (bounds.0 as int)) <= (pixel.0 as int) * (wdiff as int)
            && (pixel.0 as int) * (wdiff as int) <= 0x2000_0000_0000_0000 * (bounds.0 as int)
            && 0x2000_0000_0000_0000 * (bounds.0 as int)
                <= 0x2000_0000_0000_0000_0000_0000_0000_0000) by (nonlinear_arith)
            requires
                0 <= (pixel.0 as int),
                (pixel.0 as int) < (bounds.0 as int),
                (bounds.0 as int) <= 0xffff_ffff_ffff_ffff,
                -0x2000_0000_0000_0000 <= (wdiff as int) <= 0x2000_0000_0000_0000;
        assert(-(0x2000_0000_0000_0000 * (bounds.1 as int)) <= (pixel.1 as int) * (hdiff as int)
            && (pixel.1 as int) * (hdiff as int) <= 0x2000_0000_0000_0000 * (bounds.1 as int)
            && 0x2000_0000_0000_0000 * (bounds.1 as int)
                <= 0x2000_0000_0000_0000_0000_0000_0000_0000) by (nonlinear_arith)
            requires
                0 <= (pixel.1 as int),
                (pixel.1 as int) < (bounds.1 as int),
                (bounds.1 as int) <= 0xffff_ffff_ffff_ffff,
                -0x2000_0000_0000_0000 <= (hdiff as int) <= 0x2000_0000_0000_0000;
    }
    let xnum: i128 = (pixel.0 as i128) * (wdiff as i128);
    let ynum: i128 = (pixel.1 as i128) * (hdiff as i128);
    proof {
        lemma_div_bound(xnum as int, bounds.0 as int, 0x2000_0000_0000_0000);
        lemma_div_bound(ynum as int, bounds.1 as int, 0x2000_0000_0000_0000);
    }
    let xq: i128 = div_floor_i128(xnum, bounds.0 as i128);
    let yq: i128 = div_floor_i128(ynum, bounds.1 as i128);
    let rre: i64 = ((upper_left.re.raw as i128) + xq) as i64;
    let rim: i64 = ((upper_left.im.raw as i128) - yq) as i64;
    Complex { re: Fixed { raw: rre }, im: Fixed { raw: rim } }
}

/// The mapping is affine: pixel (0,0) lands exactly on the upper-left
/// corner, and on a raster with even bounds the centre pixel lands exactly
/// on the half-way offsets between the corners.
pub proof fn lemma_pixel_to_point_affine(bounds: (int, int), ul: (int, int), lr: (int, int))
    requires
        1 <= bounds.0,
        1 <= bounds.1,
    ensures
        pixel_to_point_spec(bounds, (0int, 0int), ul, lr) == (ul.0, ul.1),
        (bounds.0 % 2 == 0 && bounds.1 % 2 == 0) ==> pixel_to_point_spec(
            bounds,
            (bounds.0 / 2, bounds.1 / 2),
            ul,
            lr,
        ) == (ul.0 + (lr.0 - ul.0) / 2, ul.1 - (ul.1 - lr.1) / 2),
{
    lemma_fundamental_div_mod_converse(0, bounds.0, 0, 0);
    lemma_fundamental_div_mod_converse(0, bounds.1, 0, 0);
    assert(0int * (lr.0 - ul.0) == 0);
    assert(0int * (ul.1 - lr.1) == 0);
    assert(pixel_to_point_spec(bounds, (0int, 0int), ul, lr).0 == ul.0);
    assert(pixel_to_point_spec(bounds, (0int, 0int), ul, lr).1 == ul.1);
    if bounds.0 % 2 == 0 && bounds.1 % 2 == 0 {
        lemma_half_pixel(bounds.0, lr.0 - ul.0);
        lemma_half_pixel(bounds.1, ul.1 - lr.1);
        assert(pixel_to_point_spec(bounds, (bounds.0 / 2, bounds.1 / 2), ul, lr).0 == ul.0 + (lr.0
            - ul.0) / 2);
        assert(pixel_to_point_spec(bounds, (bounds.0 / 2, bounds.1 / 2), ul, lr).1 == ul.1 - (ul.1
            - lr.1) / 2);
    }
}

/// Half-way interpolation is exact: over an even extent b, pixel b/2 moves
/// by exactly half the plane difference d (rounded toward minus infinity).
proof fn lemma_half_pixel(b: int, d: int)
    requires
        1 <= b,
        b % 2 == 0,
    ensures
        (b / 2) * d / b == d / 2,
{
    let m = b / 2;
    lemma_fundamental_div_mod(b, 2);
    lemma_fundamental_div_mod(d, 2);
    lemma_mod_bound(d, 2);
    let q = d / 2;
    let r = d % 2;
    assert(b == 2 * m);
    assert(1 <= m);
    assert(m * d == q * (2 * m) + r * m) by (nonlinear_arith)
        requires d == 2 * q + r;
    assert(0 <= r * m < 2 * m) by (nonlinear_arith)
        requires 0 <= r < 2 && 1 <= m;
    lemma_fundamental_div_mod_converse(m * d, 2 * m, q, r * m);
}

} // verus!
