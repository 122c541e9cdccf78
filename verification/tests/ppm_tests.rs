use raytracelib::color::Color;
use raytracelib::ppm::push_decimal;
use raytracelib::ppm::push_header;
use raytracelib::ppm::push_triple;
use raytracelib::scalar::Scalar;

fn s(v: f64) -> Scalar {
    Scalar::from_bits(v.to_bits())
}

fn decimal(n: usize) -> String {
    let mut out = Vec::new();
    push_decimal(&mut out, n);
    String::from_utf8(out).unwrap()
}

#[test]
fn decimal_digits() {
    assert_eq!(decimal(0), "0");
    assert_eq!(decimal(7), "7");
    assert_eq!(decimal(10), "10");
    assert_eq!(decimal(255), "255");
    assert_eq!(decimal(1000), "1000");
    assert_eq!(decimal(9009), "9009");
    assert_eq!(decimal(usize::MAX), format!("{}", usize::MAX));
}

#[test]
fn decimal_appends() {
    let mut out = vec![b'x'];
    push_decimal(&mut out, 42);
    push_decimal(&mut out, 0);
    assert_eq!(out, b"x420".to_vec());
}

#[test]
fn header_lines() {
    let mut out = Vec::new();
    push_header(&mut out, 900, 550);
    assert_eq!(String::from_utf8(out).unwrap(), "P3\n900 550\n255\n");
}

#[test]
fn triple_of_a_color() {
    let mut out = Vec::new();
    push_triple(&mut out, &Color { red: s(1.5), green: s(0.5), blue: s(-0.5) });
    assert_eq!(String::from_utf8(out).unwrap(), "255 128 0");
}
