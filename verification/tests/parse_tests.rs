use mandelbrot::parse_complex;
use mandelbrot::parse_pair;
use mandelbrot::split_pair;
use num::Complex;

fn parse_i32(s: &str) -> Option<i32> {
    s.parse::<i32>().ok()
}

fn parse_f64(s: &str) -> Option<f64> {
    s.parse::<f64>().ok()
}

#[test]
fn test_parse_pair() {
    assert_eq!(parse_pair("", ',', parse_i32), None);
    assert_eq!(parse_pair("10", ',', parse_i32), None);
    assert_eq!(parse_pair(",10", ',', parse_i32), None);
    assert_eq!(parse_pair("10,20", ',', parse_i32), Some((10, 20)));
    assert_eq!(parse_pair("0.5x", 'x', parse_f64), None);
    assert_eq!(parse_pair("0.5x1.5", 'x', parse_f64), Some((0.5, 1.5)));
}

#[test]
fn test_parse_complex() {
    assert_eq!(
        parse_complex("1.25,-0.0625", parse_f64),
        Some(Complex {
            re: 1.25,
            im: -0.0625
        })
    );
    assert_eq!(parse_complex(",-0.0625", parse_f64), None);
}

#[test]
fn test_split_pair_well_formed() {
    assert_eq!(split_pair("800x600", 'x'), Some(("800", "600")));
    assert_eq!(split_pair("1.0,0.5", ','), Some(("1.0", "0.5")));
}

#[test]
fn test_split_pair_first_occurrence() {
    assert_eq!(split_pair("a,b,c", ','), Some(("a", "b,c")));
    assert_eq!(split_pair(",,", ','), None);
}

#[test]
fn test_split_pair_absent_or_empty_side() {
    assert_eq!(split_pair("", ','), None);
    assert_eq!(split_pair("abc", ','), None);
    assert_eq!(split_pair(",10", ','), None);
    assert_eq!(split_pair("10,", ','), None);
    assert_eq!(split_pair(",", ','), None);
}

#[test]
fn test_parse_pair_half_fails_to_parse() {
    assert_eq!(parse_pair("10,two", ',', parse_i32), None);
    assert_eq!(parse_pair("ten,20", ',', parse_i32), None);
}

#[test]
fn test_parse_usize_exact_values() {
    assert_eq!(mandelbrot::parse_usize("0"), Some(0));
    assert_eq!(mandelbrot::parse_usize("800"), Some(800));
    assert_eq!(mandelbrot::parse_usize("007"), Some(7));
    assert_eq!(mandelbrot::parse_usize(&usize::MAX.to_string()), Some(usize::MAX));
}

#[test]
fn test_parse_usize_rejects() {
    assert_eq!(mandelbrot::parse_usize(""), None);
    assert_eq!(mandelbrot::parse_usize("+10"), None);
    assert_eq!(mandelbrot::parse_usize("-1"), None);
    assert_eq!(mandelbrot::parse_usize("8x0"), None);
    assert_eq!(mandelbrot::parse_usize("1 "), None);
    assert_eq!(mandelbrot::parse_usize("999999999999999999999999999999"), None);
}

#[test]
fn test_parse_pair_of_dimensions() {
    assert_eq!(
        parse_pair("800x600", 'x', mandelbrot::parse_usize),
        Some((800, 600))
    );
    assert_eq!(parse_pair("800x", 'x', mandelbrot::parse_usize), None);
}

#[test]
fn test_parse_pair_keeps_later_separators_in_right_half() {
    let keep = |s: &str| Some(s.to_string());
    assert_eq!(
        parse_pair("a,b,c", ',', keep),
        Some(("a".to_string(), "b,c".to_string()))
    );
}
