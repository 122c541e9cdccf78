use raytracelib::canvas::Canvas;
use raytracelib::color::Color;
use raytracelib::projectile::Environment;
use raytracelib::projectile::Projectile;
use raytracelib::projectile::tick;
use raytracelib::scalar::Scalar;
use raytracelib::Tuple;

fn s(v: f64) -> Scalar {
    Scalar::from_bits(v.to_bits())
}

fn value(v: Scalar) -> f64 {
    f64::from_bits(v.to_bits())
}

fn vector(x: f64, y: f64, z: f64) -> Tuple {
    Tuple::vector(s(x), s(y), s(z))
}

fn point(x: f64, y: f64, z: f64) -> Tuple {
    Tuple::point(s(x), s(y), s(z))
}

fn at(x: f64, y: f64) -> Projectile {
    Projectile { position: point(x, y, 0.0), velocity: vector(0.0, 0.0, 0.0) }
}

#[test]
fn tick_moves_and_accelerates() {
    let e = Environment { gravity: vector(0.0, -0.1, 0.0), wind: vector(-0.01, 0.0, 0.0) };
    let p = Projectile { position: point(0.0, 1.0, 0.0), velocity: vector(1.0, 1.0, 0.0) };
    let n = tick(&e, &p);
    assert_eq!(n.position, point(1.0, 2.0, 0.0));
    assert_eq!(n.velocity, vector(0.99, 0.9, 0.0));
    assert_eq!(n.velocity.x.to_bits(), ((1.0f64 + 0.0) + -0.01).to_bits());
    assert_eq!(n.velocity.y.to_bits(), ((1.0f64 + -0.1) + 0.0).to_bits());
    assert!(n.position.is_point());
    assert!(n.velocity.is_vector());
}

#[test]
fn aloft_above_the_ground_only() {
    assert!(at(0.0, 1.0).is_aloft());
    assert!(at(0.0, 5e-324).is_aloft());
    assert!(at(0.0, f64::INFINITY).is_aloft());
    assert!(!at(0.0, 0.0).is_aloft());
    assert!(!at(0.0, -0.0).is_aloft());
    assert!(!at(0.0, -1.0).is_aloft());
    assert!(!at(0.0, f64::NAN).is_aloft());
}

#[test]
fn pixel_flips_the_height() {
    assert_eq!(at(3.2, 1.0).pixel(550), Some((3, 549)));
    assert_eq!(at(3.5, 0.4).pixel(550), Some((4, 550)));
    assert_eq!(at(899.49, 549.5).pixel(550), Some((899, 0)));
    assert_eq!(at(-3.0, 550.4).pixel(550), Some((0, 0)));
    assert_eq!(at(0.0, 550.5).pixel(550), None);
    assert_eq!(at(0.0, 1e30).pixel(550), None);
    assert_eq!(at(0.0, -7.0).pixel(550), Some((0, 550)));
    assert_eq!(at(f64::NAN, f64::NAN).pixel(10), Some((0, 10)));
}

#[test]
fn flight_follows_the_float_computation() {
    // the flight of the program, beside the same flight in hardware floats
    let start = vector(1.0, 1.8, 0.0).normalize() * s(11.25);
    let m = (1.0f64 * 1.0 + 1.8 * 1.8 + 0.0 * 0.0 + 0.0 * 0.0).sqrt();
    let mut fv = [11.25 * (1.0 / m), 11.25 * (1.8 / m)];
    let mut fp = [0.0f64, 1.0];
    assert_eq!(start.x.to_bits(), fv[0].to_bits());
    assert_eq!(start.y.to_bits(), fv[1].to_bits());

    let e = Environment { gravity: vector(0.0, -0.1, 0.0), wind: vector(-0.01, 0.0, 0.0) };
    let mut p = Projectile { position: point(0.0, 1.0, 0.0), velocity: start };
    let mut canvas = Canvas::new(900, 550);
    let red = Color { red: s(1.0), green: s(0.0), blue: s(0.0) };
    let mut steps = 0;
    let mut marked = Vec::new();
    while p.is_aloft() {
        assert!(fp[1] > 0.0);
        p = tick(&e, &p);
        fp = [fp[0] + fv[0], fp[1] + fv[1]];
        fv = [fv[0] + 0.0 + -0.01, fv[1] + -0.1 + 0.0];
        assert_eq!(p.position.x.to_bits(), fp[0].to_bits());
        assert_eq!(p.position.y.to_bits(), fp[1].to_bits());
        assert_eq!(p.velocity.x.to_bits(), fv[0].to_bits());
        assert_eq!(p.velocity.y.to_bits(), fv[1].to_bits());
        let (x, y) = p.pixel(550).unwrap();
        assert_eq!(x, fp[0].round() as usize);
        assert_eq!(y, 550 - (fp[1].round() as usize));
        canvas.write_pixel(x, y, red);
        marked.push((x, y));
        steps += 1;
        assert!(steps < 1000);
    }
    assert!(!(fp[1] > 0.0));
    assert_eq!(steps, 198);
    assert!(value(p.position.y) <= 0.0);
    for &(x, y) in &marked {
        if x < 900 && y < 550 {
            assert_eq!(canvas.to_rgb(x, y), Ok((255, 0, 0)));
        }
    }
    assert_eq!(canvas.to_rgb(0, 0), Ok((0, 0, 0)));
}
