use raytracelib::canvas::Canvas;
use raytracelib::canvas::CanvasError;
use raytracelib::canvas::to_rgb;
use raytracelib::color::Color;
use raytracelib::level::clamp_to_unit;
use raytracelib::scalar::Scalar;

fn s(v: f64) -> Scalar {
    Scalar::from_bits(v.to_bits())
}

fn color(red: f64, green: f64, blue: f64) -> Color {
    Color { red: s(red), green: s(green), blue: s(blue) }
}

fn value(v: Scalar) -> f64 {
    f64::from_bits(v.to_bits())
}

fn ppm(c: &Canvas) -> String {
    let mut buf = Vec::new();
    c.write_to_ppm(&mut buf);
    String::from_utf8(buf).unwrap()
}

#[test]
fn canvas_test_construct() {
    let array = Canvas::new(10, 20);
    assert_eq!(array.height(), 20);
    assert_eq!(array.width(), 10);
    for y in 0..array.height() {
        for x in 0..array.width() {
            let element = array.at(x, y).unwrap();
            assert_eq!(value(element.red), 0.0);
            assert_eq!(value(element.green), 0.0);
            assert_eq!(value(element.blue), 0.0);
        }
    }
}

#[test]
fn test_write_red() {
    let mut c = Canvas::new(10, 20);
    let red = color(1.0, 0.0, 0.0);
    let c = c.write_pixel(2, 3, red);
    assert_eq!(c.at(2, 3), Ok(&red));
}

#[test]
fn test_rgb() {
    assert_eq!(to_rgb(s(0.0)), 0);
    assert_eq!(to_rgb(s(1.0)), 255);
}

#[test]
fn test_ppm() {
    let mut c = Canvas::new(5, 3);
    let c1 = color(1.0, 0.0, 0.0);
    let c2 = color(0.0, 0.5, 0.0);
    let c3 = color(0.0, 0.0, 1.0);

    let c = c.write_pixel(0, 0, c1).write_pixel(2, 1, c2).write_pixel(4, 2, c3);

    let mut buf = Vec::new();

    c.write_to_ppm(&mut buf);
    let string = String::from_utf8(buf).unwrap();
    let result = "P3
5 3
255
255 0 0 0 0 0 0 0 0 0 0 0 0 0 0
0 0 0 0 0 0 0 128 0 0 0 0 0 0 0
0 0 0 0 0 0 0 0 0 0 0 0 0 0 255
";
    assert_eq!(string, String::from(result));
}

#[test]
fn read_outside_is_an_error() {
    let c = Canvas::new(4, 2);
    assert_eq!(c.at(4, 0), Err(CanvasError::OutOfBounds { x: 4, y: 0 }));
    assert_eq!(c.at(0, 2), Err(CanvasError::OutOfBounds { x: 0, y: 2 }));
    assert_eq!(c.to_rgb(4, 1), Err(CanvasError::OutOfBounds { x: 4, y: 1 }));
    assert!(c.at(3, 1).is_ok());
}

#[test]
fn levels_of_chosen_values() {
    assert_eq!(to_rgb(s(0.0)), 0);
    assert_eq!(to_rgb(s(1.0)), 255);
    assert_eq!(to_rgb(s(0.5)), 128);
    assert_eq!(to_rgb(s(-1.0)), 0);
    assert_eq!(to_rgb(s(2.0)), 255);
}

#[test]
fn levels_at_the_edges() {
    assert_eq!(to_rgb(s(-0.0)), 0);
    assert_eq!(to_rgb(s(f64::NAN)), 0);
    assert_eq!(to_rgb(s(-f64::NAN)), 0);
    assert_eq!(to_rgb(s(f64::INFINITY)), 255);
    assert_eq!(to_rgb(s(f64::NEG_INFINITY)), 0);
    assert_eq!(to_rgb(s(f64::MAX)), 255);
    assert_eq!(to_rgb(s(5e-324)), 0);
    assert_eq!(to_rgb(s(f64::MIN_POSITIVE)), 0);
    // 1/510 is where level 1 begins
    assert_eq!(to_rgb(s(0.5 / 255.0 - 1e-12)), 0);
    assert_eq!(to_rgb(s(0.5 / 255.0 + 1e-12)), 1);
    assert_eq!(to_rgb(s(0.001953125)), 0);
    assert_eq!(to_rgb(s(0.002)), 1);
    // the largest value below one
    assert_eq!(to_rgb(Scalar::from_bits(1.0f64.to_bits() - 1)), 255);
    assert_eq!(to_rgb(s(254.4 / 255.0)), 254);
}

fn float_level(v: f64) -> i32 {
    (v.clamp(0.0, 1.0) * 255.0).round() as i32
}

#[test]
fn levels_follow_the_float_computation() {
    let mut v = -0.25f64;
    while v < 1.25 {
        assert_eq!(to_rgb(s(v)), float_level(v), "at {}", v);
        v += 0.000137;
    }
    // values whose product with 255 rounds onto a tie
    assert_eq!(to_rgb(s(0.3)), 77);
    assert_eq!(to_rgb(s(0.7)), 179);
    assert_eq!(to_rgb(s(0.1)), 26);
}

#[test]
fn levels_follow_the_float_computation_round_every_tie() {
    // for each level the doubles on both sides of the point where it begins
    for k in 1..=255u32 {
        let edge = (f64::from(k) - 0.5) / 255.0;
        let bits = edge.to_bits();
        for b in (bits - 300)..(bits + 300) {
            let v = f64::from_bits(b);
            assert_eq!(to_rgb(s(v)), float_level(v), "at {:#018x}", b);
        }
    }
}

#[test]
fn levels_follow_the_float_computation_on_scattered_values() {
    let mut x: u64 = 0x2545_F491_4F6C_DD1D;
    for _ in 0..200000 {
        x ^= x << 13;
        x ^= x >> 7;
        x ^= x << 17;
        // exponents from 2^-12 up to 2, either sign
        let exponent = 1011 + (x >> 52) % 14;
        let bits = (x & 0x800F_FFFF_FFFF_FFFF) | (exponent << 52);
        let v = f64::from_bits(bits);
        assert_eq!(to_rgb(s(v)), float_level(v), "at {:#018x}", bits);
        let any = f64::from_bits(x);
        assert_eq!(to_rgb(s(any)), float_level(any), "at {:#018x}", x);
    }
}

#[test]
fn every_level_is_reached_at_its_centre() {
    for k in 0..=255i32 {
        assert_eq!(to_rgb(s(f64::from(k) / 255.0)), k);
    }
}

#[test]
fn write_outside_changes_nothing() {
    let mut c = Canvas::new(3, 2);
    let red = color(1.0, 0.0, 0.0);
    let green = color(0.0, 1.0, 0.0);
    c.write_pixel(1, 1, red);
    let before = ppm(&c);
    c.write_pixel(3, 0, green);
    c.write_pixel(0, 2, green);
    c.write_pixel(usize::MAX, usize::MAX, green);
    assert_eq!(ppm(&c), before);
    assert_eq!(c.width(), 3);
    assert_eq!(c.height(), 2);
    for y in 0..2 {
        for x in 0..3 {
            let expected = if (x, y) == (1, 1) { red } else { Color::black() };
            let got = c.at(x, y).unwrap();
            assert_eq!(got.red.to_bits(), expected.red.to_bits());
            assert_eq!(got.green.to_bits(), expected.green.to_bits());
            assert_eq!(got.blue.to_bits(), expected.blue.to_bits());
        }
    }
}

#[test]
fn x_is_the_column_and_y_the_row() {
    let mut c = Canvas::new(3, 2);
    c.write_pixel(2, 0, color(1.0, 1.0, 1.0));
    let text = ppm(&c);
    assert_eq!(text, "P3\n3 2\n255\n0 0 0 0 0 0 255 255 255\n0 0 0 0 0 0 0 0 0\n");
    assert_eq!(c.to_rgb(2, 0), Ok((255, 255, 255)));
    assert_eq!(c.to_rgb(0, 1), Ok((0, 0, 0)));
    // (0, 2) would be row 2 of a canvas with two rows
    assert!(c.to_rgb(0, 2).is_err());
}

#[test]
fn write_replaces_and_keeps_the_stored_value() {
    let mut c = Canvas::new(2, 2);
    let odd = color(-0.5, 1.7, 0.3);
    c.write_pixel(0, 1, color(1.0, 1.0, 1.0));
    c.write_pixel(0, 1, odd);
    let got = c.at(0, 1).unwrap();
    assert_eq!(got.red.to_bits(), (-0.5f64).to_bits());
    assert_eq!(got.green.to_bits(), 1.7f64.to_bits());
    assert_eq!(got.blue.to_bits(), 0.3f64.to_bits());
    assert_eq!(c.to_rgb(0, 1), Ok((0, 255, 77)));
}

#[test]
fn empty_canvases() {
    assert_eq!(ppm(&Canvas::new(0, 0)), "P3\n0 0\n255\n");
    assert_eq!(ppm(&Canvas::new(0, 2)), "P3\n0 2\n255\n\n\n");
    assert_eq!(ppm(&Canvas::new(2, 0)), "P3\n2 0\n255\n");
    let mut c = Canvas::new(0, 2);
    c.write_pixel(0, 0, color(1.0, 1.0, 1.0));
    assert_eq!(c.width(), 0);
    assert_eq!(c.height(), 2);
    assert!(c.at(0, 0).is_err());
}

#[test]
fn clone_is_independent() {
    let mut a = Canvas::new(2, 1);
    a.write_pixel(1, 0, color(1.0, 0.0, 0.0));
    let b = a.clone();
    a.write_pixel(0, 0, color(0.0, 0.0, 1.0));
    assert_eq!(ppm(&b), "P3\n2 1\n255\n0 0 0 255 0 0\n");
    assert_eq!(ppm(&a), "P3\n2 1\n255\n0 0 255 255 0 0\n");
}

#[test]
fn large_dimensions_in_the_header() {
    let c = Canvas::new(1203, 1);
    let text = ppm(&c);
    assert!(text.starts_with("P3\n1203 1\n255\n0 0 0 0 0 0"));
    assert_eq!(text.len(), "P3\n1203 1\n255\n".len() + 1203 * 6);
}

#[test]
fn write_to_ppm_appends() {
    let mut c = Canvas::new(1, 1);
    c.write_pixel(0, 0, color(0.2, 0.4, 0.6));
    let mut buf = b"# before\n".to_vec();
    c.write_to_ppm(&mut buf);
    c.write_to_ppm(&mut buf);
    let text = String::from_utf8(buf).unwrap();
    assert_eq!(text, "# before\nP3\n1 1\n255\n51 102 153\nP3\n1 1\n255\n51 102 153\n");
}

#[test]
fn clamp_holds_a_value_between_zero_and_one() {
    for v in [0.0f64, -0.0, 0.25, 1.0, 5e-324, -5e-324, -3.0, 1.0000000000000002, 7.0] {
        assert_eq!(clamp_to_unit(s(v)).to_bits(), v.clamp(0.0, 1.0).to_bits(), "{:?}", v);
    }
    assert_eq!(value(clamp_to_unit(s(f64::INFINITY))), 1.0);
    assert_eq!(value(clamp_to_unit(s(f64::NEG_INFINITY))), 0.0);
    assert!(value(clamp_to_unit(s(f64::NAN))).is_nan());
}
