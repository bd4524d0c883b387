use vstd::prelude::*;
use crate::complex::Complex;
use crate::coord::{VIEW_MAX, pixel_to_point, pixel_to_point_spec};
use crate::escape::{escape_spec, escape_time};
use vstd::arithmetic::div_mod::lemma_fundamental_div_mod_converse;

verus! {

/// How many iterations the renderer allows before a pixel is declared a
/// member of the set: chosen so that every outcome maps onto one output
/// byte.
pub const ITERATION_LIMIT: u32 = 255;

/// The grayscale intensity written for an escape outcome: members of the
/// set are black, early escapes bright, late escapes near black.
pub open spec fn shade(e: Option<int>) -> int {
    match e {
        None => 0,
        Some(i) => 255 - i,
    }
}

/// The byte the renderer writes for the pixel in column `col` of row `row`.
pub open spec fn pixel_shade(
    bounds: (int, int),
    ul: (int, int),
    lr: (int, int),
    col: int,
    row: int,
) -> int {
    shade(escape_spec(pixel_to_point_spec(bounds, (col, row), ul, lr), 255))
}

/// The whole row-major buffer that one render pass fills.
pub open spec fn render_spec(bounds: (int, int), ul: (int, int), lr: (int, int)) -> Seq<u8> {
    Seq::new(
        (bounds.0 * bounds.1) as nat,
        |idx: int| pixel_shade(bounds, ul, lr, idx % bounds.0, idx / bounds.0) as u8,
    )
}

/// Renders the Mandelbrot set over the viewport with corners `upper_left`
/// and `lower_right` into the row-major grayscale buffer `pixels`.
pub fn render(
    pixels: &mut Vec<u8>,
    bounds: (usize, usize),
    upper_left: Complex,
    lower_right: Complex,
)
    requires
        1 <= bounds.0,
        1 <= bounds.1,
        old(pixels).len() == bounds.0 * bounds.1,
        -VIEW_MAX <= upper_left.re.raw <= VIEW_MAX,
        -VIEW_MAX <= upper_left.im.raw <= VIEW_MAX,
        -VIEW_MAX <= lower_right.re.raw <= VIEW_MAX,
        -VIEW_MAX <= lower_right.im.raw <= VIEW_MAX,
    ensures
        final(pixels)@ == render_spec(
            (bounds.0 as int, bounds.1 as int),
            upper_left@,
            lower_right@,
        ),
{
    let ghost gb = (bounds.0 as int, bounds.1 as int);
    let ghost gul = upper_left@;
    let ghost glr = lower_right@;
    let mut row: usize = 0;
    while row < bounds.1
        invariant
            row <= bounds.1,
            1 <= bounds.0,
            1 <= bounds.1,
            pixels@.len() == bounds.0 * bounds.1,
            -VIEW_MAX <= upper_left.re.raw <= VIEW_MAX,
            -VIEW_MAX <= upper_left.im.raw <= VIEW_MAX,
            -VIEW_MAX <= lower_right.re.raw <= VIEW_MAX,
            -VIEW_MAX <= lower_right.im.raw <= VIEW_MAX,
            gb == (bounds.0 as int, bounds.1 as int),
            gul == upper_left@,
            glr == lower_right@,
            forall|idx: int|
                0 <= idx < (row as int) * (bounds.0 as int) ==> pixels@[idx] == render_spec(
                    gb,
                    gul,
                    glr,
                )[idx],
        decreases bounds.1 - row,
    {
        let mut col: usize = 0;
        while col < bounds.0
            invariant
                row < bounds.1,
                col <= bounds.0,
                1 <= bounds.0,
                1 <= bounds.1,
                pixels@.len() == bounds.0 * bounds.1,
                -VIEW_MAX <= upper_left.re.raw <= VIEW_MAX,
                -VIEW_MAX <= upper_left.im.raw <= VIEW_MAX,
                -VIEW_MAX <= lower_right.re.raw <= VIEW_MAX,
                -VIEW_MAX <= lower_right.im.raw <= VIEW_MAX,
                gb == (bounds.0 as int, bounds.1 as int),
                gul == upper_left@,
                glr == lower_right@,
                forall|idx: int|
                    0 <= idx < (row as int) * (bounds.0 as int) + (col as int) ==> pixels@[idx]
                        == render_spec(gb, gul, glr)[idx],
            decreases bounds.0 - col,
        {
            let point = pixel_to_point(bounds, (col, row), upper_left, lower_right);
            let e = escape_time(point, ITERATION_LIMIT);
            let b: u8 = match e {
                None => 0,
                Some(count) => (255 - count) as u8,
            };
            proof {
                assert(ITERATION_LIMIT == 255);
                assert((row as int) * (bounds.0 as int) + (col as int) < (bounds.0 as int) * (
                bounds.1 as int)
                    && 0 <= (row as int) * (bounds.0 as int) + (col as int)) by (nonlinear_arith)
                    requires
                        0 <= (row as int),
                        0 <= (col as int),
                        (row as int) < (bounds.1 as int),
                        (col as int) < (bounds.0 as int);
            }
            let n = pixels.len();
            proof {
                assert((row as int) * (bounds.0 as int) + (col as int) < n as int);
            }
            let idx: usize = row * bounds.0 + col;
            proof {
                lemma_fundamental_div_mod_converse(
                    idx as int,
                    bounds.0 as int,
                    row as int,
                    col as int,
                );
                assert(render_spec(gb, gul, glr)[idx as int] == pixel_shade(
                    gb,
                    gul,
                    glr,
                    col as int,
                    row as int,
                ) as u8);
                assert(b == pixel_shade(gb, gul, glr, col as int, row as int) as u8);
            }
            pixels.set(idx, b);
            proof {
                assert((row as int) * (bounds.0 as int) + (col as int + 1) == (row as int) * (
                bounds.0 as int) + (col as int) + 1);
            }
            col = col + 1;
        }
        proof {
            assert((row as int + 1) * (bounds.0 as int) == (row as int) * (bounds.0 as int) + (
            bounds.0 as int)) by (nonlinear_arith);
        }
        row = row + 1;
    }
    proof {
        assert((bounds.0 as int) * (bounds.1 as int) == (bounds.1 as int) * (bounds.0 as int))
            by (nonlinear_arith);
        assert(pixels@ =~= render_spec(gb, gul, glr));
    }
}

/// Rendering is a pure function of its inputs: two render passes with the
/// same bounds and viewport fill their buffers with byte-identical
/// contents, whatever the buffers held before.
pub proof fn lemma_render_deterministic(
    first: Seq<u8>,
    second: Seq<u8>,
    bounds: (int, int),
    ul: (int, int),
    lr: (int, int),
)
    requires
        first == render_spec(bounds, ul, lr),
        second == render_spec(bounds, ul, lr),
    ensures
        first == second,
{
}

} // verus!
