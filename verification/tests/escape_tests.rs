use mandelbrot::Complex;
use mandelbrot::Fixed;
use mandelbrot::escape_time;

fn point(re_raw: i64, im_raw: i64) -> Complex {
    Complex::new(Fixed::new(re_raw), Fixed::new(im_raw))
}

#[test]
fn test_origin_never_escapes() {
    assert_eq!(escape_time(point(0, 0), 1), None);
    assert_eq!(escape_time(point(0, 0), 255), None);
    assert_eq!(escape_time(point(0, 0), 10_000), None);
}

#[test]
fn test_far_point_escapes_at_zero() {
    // 5 + 0i lies far outside the radius-2 circle
    let c = Complex::new(Fixed::from_int(5), Fixed::from_int(0));
    assert_eq!(escape_time(c, 1), Some(0));
    assert_eq!(escape_time(c, 255), Some(0));
    // so does 0 - 3i
    let d = Complex::new(Fixed::from_int(0), Fixed::from_int(-3));
    assert_eq!(escape_time(d, 255), Some(0));
}

#[test]
fn test_boundary_magnitude_keeps_iterating() {
    // c = 2: the first step lands exactly on |z|^2 == 4, which does not
    // escape; the second step reaches 6 and does
    let c = Complex::new(Fixed::from_int(2), Fixed::from_int(0));
    assert_eq!(escape_time(c, 255), Some(1));
    assert_eq!(escape_time(c, 1), None);
}

#[test]
fn test_escape_after_two_iterations() {
    // c = 1: the orbit runs 0, 1, 2, 5; the first value past the threshold
    // comes at iteration 2
    let c = Complex::new(Fixed::from_int(1), Fixed::from_int(0));
    assert_eq!(escape_time(c, 255), Some(2));
    assert_eq!(escape_time(c, 2), None);
}

#[test]
fn test_member_of_set_never_escapes() {
    // c = -1 cycles between -1 and 0 forever
    let c = Complex::new(Fixed::from_int(-1), Fixed::from_int(0));
    assert_eq!(escape_time(c, 255), None);
}

#[test]
fn test_escape_iteration_stable_under_larger_limit() {
    let c = Complex::new(Fixed::from_int(2), Fixed::from_int(0));
    let at_small = escape_time(c, 2);
    assert_eq!(at_small, Some(1));
    assert_eq!(escape_time(c, 10), at_small);
    assert_eq!(escape_time(c, 255), at_small);
    assert_eq!(escape_time(c, 100_000), at_small);
}
