use mandelbrot::Complex;
use mandelbrot::Fixed;
use mandelbrot::FromText;
use mandelbrot::parse_complex;
use mandelbrot::parse_pair;

#[test]
fn test_parse_pair() {
    assert_eq!(parse_pair::<i32>("", ','), None);
    assert_eq!(parse_pair::<i32>("10,", ','), None);
    assert_eq!(parse_pair::<i32>(",10", ','), None);
    assert_eq!(parse_pair::<i32>("10,20", ','), Some((10, 20)));
    assert_eq!(parse_pair::<i32>("10,20xy", ','), None);
    assert_eq!(parse_pair::<Fixed>("0.5x", 'x'), None);
    assert_eq!(
        parse_pair::<Fixed>("0.5x1.5", 'x'),
        Some((Fixed { raw: 32768 }, Fixed { raw: 98304 }))
    );
}

#[test]
fn test_parse_complex() {
    assert_eq!(
        parse_complex("1.25,-0.0625"),
        Some(Complex { re: Fixed { raw: 81920 }, im: Fixed { raw: -4096 } })
    );
}

#[test]
fn test_parse_complex_rejects_malformed() {
    assert_eq!(parse_complex("1.25"), None);
    assert_eq!(parse_complex(",1.25"), None);
    assert_eq!(parse_complex("1.25,"), None);
    assert_eq!(parse_complex("a,b"), None);
}

#[test]
fn test_parse_pair_usize_dimensions() {
    assert_eq!(parse_pair::<usize>("400x600", 'x'), Some((400, 600)));
    assert_eq!(parse_pair::<usize>("400x", 'x'), None);
    assert_eq!(parse_pair::<usize>("400x-600", 'x'), None);
}

#[test]
fn test_parse_signs() {
    assert_eq!(parse_pair::<i32>("+10,-20", ','), Some((10, -20)));
    assert_eq!(parse_pair::<usize>("+7x9", 'x'), Some((7, 9)));
    assert_eq!(Fixed::parse_text("-2"), Some(Fixed { raw: -131072 }));
    assert_eq!(Fixed::parse_text("+0.25"), Some(Fixed { raw: 16384 }));
}

#[test]
fn test_parse_overflow_rejected() {
    assert_eq!(parse_pair::<i32>("9999999999,1", ','), None);
    assert_eq!(parse_pair::<i32>("1,-9999999999", ','), None);
    assert_eq!(i32::parse_text("2147483647"), Some(i32::MAX));
    assert_eq!(i32::parse_text("2147483648"), None);
    assert_eq!(i32::parse_text("-2147483648"), Some(i32::MIN));
    assert_eq!(i32::parse_text("-2147483649"), None);
    assert_eq!(usize::parse_text("9999999999999999999999999"), None);
}

#[test]
fn test_parse_fixed_grammar() {
    // the whole part is required, and so is at least one fraction digit
    // after a dot
    assert_eq!(Fixed::parse_text(".5"), None);
    assert_eq!(Fixed::parse_text("1."), None);
    assert_eq!(Fixed::parse_text(""), None);
    assert_eq!(Fixed::parse_text("-"), None);
    assert_eq!(Fixed::parse_text("1.2.3"), None);
    assert_eq!(Fixed::parse_text("3"), Some(Fixed { raw: 196608 }));
    // a fraction that is not a multiple of 1/65536 is rounded toward zero
    assert_eq!(Fixed::parse_text("0.1"), Some(Fixed { raw: 6553 }));
    // at most nineteen fraction digits are accepted
    assert_eq!(Fixed::parse_text("0.0000000000000000001"), Some(Fixed { raw: 0 }));
    assert_eq!(Fixed::parse_text("0.00000000000000000001"), None);
}
