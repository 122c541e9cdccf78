use raytracelib::color::Color;
use raytracelib::scalar::Scalar;

fn s(v: f64) -> Scalar {
    Scalar::from_bits(v.to_bits())
}

fn value(v: Scalar) -> f64 {
    f64::from_bits(v.to_bits())
}

fn color(red: f64, green: f64, blue: f64) -> Color {
    Color { red: s(red), green: s(green), blue: s(blue) }
}

#[test]
fn color_test_construct() {
    let c = color(-0.5, 0.4, 1.7);
    assert_eq!(value(c.red), -0.5);
    assert_eq!(value(c.green), 0.4);
    assert_eq!(value(c.blue), 1.7);
}

#[test]
fn test_add() {
    let c1 = color(0.9, 0.6, 0.75);
    let c2 = color(0.7, 0.1, 0.25);
    let c3 = color(1.6, 0.7, 1.0);
    assert_eq!(c1 + c2, c3);
}

#[test]
fn test_subtract() {
    let c1 = color(0.9, 0.6, 0.75);
    let c2 = color(0.7, 0.1, 0.25);
    let d = c1 - c2;
    assert_eq!(d.red.to_bits(), (0.9f64 - 0.7).to_bits());
    assert_eq!(d.green.to_bits(), (0.6f64 - 0.1).to_bits());
    assert_eq!(d.blue.to_bits(), (0.75f64 - 0.25).to_bits());
    assert_eq!(d, color(0.2, 0.5, 0.5));
}

#[test]
fn test_scale() {
    let c = color(0.2, 0.3, 0.4) * s(2.0);
    assert_eq!(c, color(0.4, 0.6, 0.8));
    assert_eq!(c.green.to_bits(), (2.0f64 * 0.3).to_bits());
}

#[test]
fn test_blend() {
    let c1 = color(1.0, 0.2, 0.4);
    let c2 = color(0.9, 1.0, 0.1);
    assert_eq!(c1 * c2, color(0.9, 0.2, 0.04));
    // a product, not a difference
    let b = color(0.5, 0.5, 0.5) * color(0.5, 0.25, 2.0);
    assert_eq!(value(b.red), 0.25);
    assert_eq!(value(b.green), 0.125);
    assert_eq!(value(b.blue), 1.0);
}

#[test]
fn black_has_three_zero_channels() {
    let c = Color::black();
    assert_eq!(c.red.to_bits(), 0);
    assert_eq!(c.green.to_bits(), 0);
    assert_eq!(c.blue.to_bits(), 0);
}

#[test]
fn equality_needs_all_three_channels() {
    let c = color(0.1, 0.2, 0.3);
    assert!(c != color(0.11, 0.2, 0.3));
    assert!(c != color(0.1, 0.21, 0.3));
    assert!(c != color(0.1, 0.2, 0.31));
    assert!(c == color(0.1, 0.2, 0.3));
}

#[test]
fn channels_are_not_clamped() {
    let c = color(-3.0, 7.5, 1e300);
    assert_eq!(value(c.red), -3.0);
    assert_eq!(value(c.green), 7.5);
    assert_eq!(value(c.blue), 1e300);
}
