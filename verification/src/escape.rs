use vstd::prelude::*;
use crate::complex::{
    COORD_MAX, Complex, lemma_norm_component_bound, norm_sqr_i128, norm_sqr_raw, square_add,
    square_add_spec,
};
use crate::fixed::{Fixed, SCALE};
use vstd::arithmetic::div_mod::lemma_fundamental_div_mod_converse;

verus! {

/// The raw squared magnitude that stands for 4.0, the square of the escape
/// radius.
pub const THRESHOLD_RAW: i64 = 4 * 65536 * 65536;

/// z after k iterations of z <- z*z + c, starting from the origin.
pub open spec fn orbit(c: (int, int), k: int) -> (int, int)
    decreases k,
{
    if k <= 0 {
        (0int, 0int)
    } else {
        square_add_spec(orbit(c, k - 1), c)
    }
}

/// Whether the k-th orbit point lies strictly outside the radius-2 circle.
pub open spec fn exceeds_at(c: (int, int), k: int) -> bool {
    norm_sqr_raw(orbit(c, k)) > THRESHOLD_RAW as int
}

/// The first index i in [k, limit) whose next orbit point leaves the
/// circle, if any.
pub open spec fn escape_from(c: (int, int), k: int, limit: int) -> Option<int>
    decreases limit - k,
{
    if k >= limit {
        None
    } else if exceeds_at(c, k + 1) {
        Some(k)
    } else {
        escape_from(c, k + 1, limit)
    }
}

/// What the escape-time evaluator returns for `c` under `limit` iterations:
/// the first iteration index at which the orbit leaves the circle, or
/// nothing if it stays inside for all of them.
pub open spec fn escape_spec(c: (int, int), limit: int) -> Option<int> {
    escape_from(c, 0, limit)
}

/// The search comes back empty exactly when no orbit point in its window
/// leaves the circle.
pub proof fn lemma_escape_from_none(c: (int, int), k: int, limit: int)
    ensures
        escape_from(c, k, limit) is None <==> (forall|j: int|
            k < j <= limit ==> !exceeds_at(c, j)),
    decreases limit - k,
{
    if k >= limit {
    } else if exceeds_at(c, k + 1) {
    } else {
        lemma_escape_from_none(c, k + 1, limit);
    }
}

/// The search finds i exactly when the orbit leaves the circle right after
/// iteration i and at no earlier point of its window.
pub proof fn lemma_escape_from_some(c: (int, int), k: int, limit: int, i: int)
    ensures
        escape_from(c, k, limit) == Some(i) <==> (k <= i < limit && exceeds_at(c, i + 1)
            && (forall|j: int| k < j <= i ==> !exceeds_at(c, j))),
    decreases limit - k,
{
    if k >= limit {
    } else if exceeds_at(c, k + 1) {
    } else {
        lemma_escape_from_some(c, k + 1, limit, i);
    }
}

/// Determines whether and when `c` leaves the radius-2 circle under the
/// iteration z <- z*z + c, within `limit` iterations.
pub fn escape_time(c: Complex, limit: u32) -> (r: Option<u32>)
    requires
        -COORD_MAX <= c.re.raw <= COORD_MAX,
        -COORD_MAX <= c.im.raw <= COORD_MAX,
    ensures
        r is Some ==> r->Some_0 < limit && escape_spec(c@, limit as int) == Some(
            r->Some_0 as int,
        ),
        r is None ==> escape_spec(c@, limit as int) is None,
{
    let mut z = Complex::new(Fixed::new(0), Fixed::new(0));
    let mut i: u32 = 0;
    while i < limit
        invariant
            i <= limit,
            -COORD_MAX <= c.re.raw <= COORD_MAX,
            -COORD_MAX <= c.im.raw <= COORD_MAX,
            z@ == orbit(c@, i as int),
            norm_sqr_raw(z@) <= 4 * (SCALE as int) * (SCALE as int),
            forall|j: int| 0 < j <= i ==> !exceeds_at(c@, j),
        decreases limit - i,
    {
        proof {
            lemma_norm_component_bound(z@);
        }
        let znext = square_add(z, c);
        let n = norm_sqr_i128(znext);
        proof {
            assert(orbit(c@, i + 1) == square_add_spec(orbit(c@, i as int), c@));
            assert(znext@ == orbit(c@, i + 1));
        }
        if n > THRESHOLD_RAW as i128 {
            proof {
                assert(exceeds_at(c@, i + 1));
                lemma_escape_from_some(c@, 0, limit as int, i as int);
            }
            return Some(i);
        }
        z = znext;
        i = i + 1;
    }
    proof {
        lemma_escape_from_none(c@, 0, limit as int);
    }
    None
}

/// The origin never escapes: it lies in the Mandelbrot set, whatever the
/// iteration cap.
pub proof fn lemma_origin_never_escapes(limit: int)
    ensures
        escape_spec((0int, 0int), limit) is None,
{
    assert forall|j: int| 0 < j <= limit implies !exceeds_at((0int, 0int), j) by {
        lemma_orbit_origin(j);
    }
    lemma_escape_from_none((0int, 0int), 0, limit);
}

/// Every orbit point of the origin is the origin itself.
proof fn lemma_orbit_origin(k: int)
    ensures
        orbit((0int, 0int), k) == (0int, 0int),
    decreases k,
{
    if k <= 0 {
    } else {
        lemma_orbit_origin(k - 1);
        assert(SCALE == 65536);
        lemma_fundamental_div_mod_converse(0, 65536, 0, 0);
        assert(orbit((0int, 0int), k) == square_add_spec((0int, 0int), (0int, 0int)));
        assert(square_add_spec((0int, 0int), (0int, 0int)).0 == 0);
        assert(square_add_spec((0int, 0int), (0int, 0int)).1 == 0);
    }
}

/// A point already outside the radius-2 circle escapes at iteration 0, for
/// any positive cap.
pub proof fn lemma_far_point_escapes_immediately(c: (int, int), limit: int)
    requires
        norm_sqr_raw(c) > 4 * (SCALE as int) * (SCALE as int),
        1 <= limit,
    ensures
        escape_spec(c, limit) == Some(0int),
{
    assert(SCALE == 65536);
    lemma_fundamental_div_mod_converse(0, 65536, 0, 0);
    assert((0int * 0int - 0int * 0int) / (SCALE as int) == 0);
    assert((2 * (0int * 0int)) / (SCALE as int) == 0);
    assert(orbit(c, 1) == square_add_spec(orbit(c, 0), c));
    assert(square_add_spec((0int, 0int), c).0 == c.0);
    assert(square_add_spec((0int, 0int), c).1 == c.1);
    assert(exceeds_at(c, 1));
    lemma_escape_from_some(c, 0, limit, 0);
}

/// Raising the iteration cap does not change a known escape index: once a
/// point is seen to escape at iteration i, every larger cap reports the
/// same i.
pub proof fn lemma_escape_monotonic(c: (int, int), limit1: int, limit2: int, i: int)
    requires
        escape_spec(c, limit1) == Some(i),
        limit1 <= limit2,
    ensures
        escape_spec(c, limit2) == Some(i),
{
    lemma_escape_from_some(c, 0, limit1, i);
    lemma_escape_from_some(c, 0, limit2, i);
}

} // verus!
