use mandelbrot::Complex;
use mandelbrot::Fixed;
use mandelbrot::pixel_to_point;
use mandelbrot::render;

fn point(re_raw: i64, im_raw: i64) -> Complex {
    Complex::new(Fixed::new(re_raw), Fixed::new(im_raw))
}

#[test]
fn test_pixel_to_point() {
    assert_eq!(
        pixel_to_point(
            (100, 100),
            (25, 75),
            Complex::new(Fixed::from_int(-1), Fixed::from_int(1)),
            Complex::new(Fixed::from_int(1), Fixed::from_int(-1)),
        ),
        Complex { re: Fixed { raw: -32768 }, im: Fixed { raw: -32768 } }
    );
}

#[test]
fn test_pixel_to_point_corner_and_centre() {
    let ul = Complex::new(Fixed::from_int(-1), Fixed::from_int(1));
    let lr = Complex::new(Fixed::from_int(1), Fixed::from_int(-1));
    // pixel (0,0) lands exactly on the upper-left corner
    assert_eq!(pixel_to_point((100, 100), (0, 0), ul, lr), ul);
    // the centre pixel of an even raster lands on the midpoint
    assert_eq!(pixel_to_point((100, 100), (50, 50), ul, lr), point(0, 0));
}

#[test]
fn test_render_single_origin_pixel_is_black() {
    // a 1x1 raster of the degenerate viewport at the origin: the origin
    // never escapes, so the single byte is 0
    let mut pixels = vec![0u8; 1];
    render(&mut pixels, (1, 1), point(0, 0), point(0, 0));
    assert_eq!(pixels, vec![0u8]);
}

#[test]
fn test_render_single_far_pixel_is_bright() {
    // a far point escapes at iteration 0, which is written as 255
    let far = Complex::new(Fixed::from_int(5), Fixed::from_int(5));
    let mut pixels = vec![7u8; 1];
    render(&mut pixels, (1, 1), far, far);
    assert_eq!(pixels, vec![255u8]);
}

#[test]
fn test_render_twice_is_byte_identical() {
    let ul = Complex::new(Fixed::from_int(-2), Fixed::from_int(1));
    let lr = Complex::new(Fixed::from_int(1), Fixed::from_int(-1));
    let mut first = vec![0u8; 6 * 4];
    let mut second = vec![0u8; 6 * 4];
    render(&mut first, (6, 4), ul, lr);
    render(&mut second, (6, 4), ul, lr);
    assert_eq!(first, second);
    assert_eq!(first.len(), 24);
}

#[test]
fn test_render_mixes_inside_and_outside_points() {
    // a 2x1 raster: the left pixel maps to the upper-left corner (-1, 0),
    // inside the set; the right pixel maps to (1, 0), which escapes at
    // iteration 2 and is therefore written as 255 - 2
    let ul = Complex::new(Fixed::from_int(-1), Fixed::from_int(0));
    let lr = Complex::new(Fixed::from_int(3), Fixed::from_int(0));
    let mut pixels = vec![0u8; 2];
    render(&mut pixels, (2, 1), ul, lr);
    assert_eq!(pixels[0], 0);
    assert_eq!(pixels[1], 253);
}
