use ogre_core::Rgba32F as Pixel;
use ogre_core::{BinaryOp, FloatMath, UnaryOp, WholeOp};

/// A pixel with its channels as numbers.
#[derive(Clone, Copy, Debug, PartialEq)]
struct Rgba32F {
    r: f32,
    g: f32,
    b: f32,
    a: f32,
}

impl Rgba32F {
    const TRANSPARENT: Rgba32F = Rgba32F { r: 0.0, g: 0.0, b: 0.0, a: 0.0 };

    fn new(r: f32, g: f32, b: f32, a: f32) -> Self {
        Rgba32F { r, g, b, a }
    }

    fn bits(self) -> Pixel {
        Pixel::new(self.r.to_bits(), self.g.to_bits(), self.b.to_bits(), self.a.to_bits())
    }
}

fn up(p: Pixel) -> Rgba32F {
    Rgba32F::new(f(p.r), f(p.g), f(p.b), f(p.a))
}

fn b(v: f32) -> u32 {
    v.to_bits()
}

fn f(v: u32) -> f32 {
    f32::from_bits(v)
}

type Math = FloatMath<
    fn(BinaryOp, u32, u32) -> u32,
    fn(UnaryOp, u32) -> u32,
    fn(WholeOp, u32) -> i32,
    fn(&Vec<u32>) -> u32,
>;

fn binary(op: BinaryOp, x: u32, y: u32) -> u32 {
    let (x, y) = (f32::from_bits(x), f32::from_bits(y));
    let r = match op {
        BinaryOp::Add => x + y,
        BinaryOp::Sub => x - y,
        BinaryOp::Mul => x * y,
        BinaryOp::Div => x / y,
        BinaryOp::Pow => x.powf(y),
        BinaryOp::RemEuclid => x.rem_euclid(y),
        BinaryOp::Atan2 => x.atan2(y),
    };
    r.to_bits()
}

fn unary(op: UnaryOp, x: u32) -> u32 {
    let x = f32::from_bits(x);
    let r = match op {
        UnaryOp::Sqrt => x.sqrt(),
        UnaryOp::Round => x.round(),
    };
    r.to_bits()
}

fn whole(op: WholeOp, x: u32) -> i32 {
    let x = f32::from_bits(x);
    match op {
        WholeOp::Floor => x.floor() as i32,
        WholeOp::Ceil => x.ceil() as i32,
    }
}

fn mean(numbers: &Vec<u32>) -> u32 {
    let sum: f64 = numbers.iter().map(|n| f32::from_bits(*n) as f64).sum();
    ((sum / numbers.len() as f64) as f32).to_bits()
}

fn math() -> Math {
    FloatMath { binary, unary, whole, mean }
}

#[test]
fn transparent_is_zero() {
    assert_eq!(up(Pixel::transparent()), Rgba32F::new(0.0, 0.0, 0.0, 0.0));
}

#[test]
fn premultiplied_multiplies_rgb_by_alpha() {
    let px = up(Rgba32F::new(0.5, 0.25, 0.75, 0.5).bits().premultiplied(&math()));
    assert_eq!(px, Rgba32F::new(0.25, 0.125, 0.375, 0.5));
}

#[test]
fn unpremultiplied_divides_rgb_by_alpha() {
    let px = up(Rgba32F::new(0.25, 0.125, 0.375, 0.5).bits().unpremultiplied(&math()));
    assert_eq!(px, Rgba32F::new(0.5, 0.25, 0.75, 0.5));
}

#[test]
fn unpremultiplied_zero_alpha_is_transparent() {
    let px = up(Rgba32F::new(0.25, 0.125, 0.375, 0.0).bits().unpremultiplied(&math()));
    assert_eq!(px, Rgba32F::TRANSPARENT);
}

#[test]
fn lerp_blends_componentwise() {
    let x = Rgba32F::new(0.0, 0.0, 0.0, 0.0);
    let y = Rgba32F::new(1.0, 0.5, 0.25, 1.0);
    assert_eq!(up(x.bits().lerp(&math(), y.bits(), b(0.5))), Rgba32F::new(0.5, 0.25, 0.125, 0.5));
}

#[test]
fn srgb_encode_endpoints_and_mid() {
    assert_eq!(srgb_encode(0.0), 0.0);
    // srgb_encode(1) = 1.055*1 - 0.055, which rounds to 0.99999994 in f32.
    assert!((srgb_encode(1.0) - 1.0).abs() < 1e-6);
    // 0.5 is above the piecewise knee, so it follows the gamma branch.
    let expected = 1.055 * 0.5f32.powf(1.0 / 2.4) - 0.055;
    assert!((srgb_encode(0.5) - expected).abs() < 1e-6);
}

#[test]
fn srgb_encode_clamps_outside_range() {
    assert_eq!(srgb_encode(-0.5), 0.0);
    assert!((srgb_encode(2.0) - 1.0).abs() < 1e-6);
}

#[test]
fn perceptual_distance_zero_for_identical_pixels() {
    let red = Rgba32F::new(1.0, 0.0, 0.0, 1.0);
    assert_eq!(perceptual_distance_sq(red, red), 0.0);
}

#[test]
fn perceptual_distance_positive_and_symmetric() {
    let red = Rgba32F::new(1.0, 0.0, 0.0, 1.0);
    let green = Rgba32F::new(0.0, 1.0, 0.0, 1.0);
    let d = perceptual_distance_sq(red, green);
    assert!(d > 0.0);
    assert!(
        (perceptual_distance_sq(red, green) - perceptual_distance_sq(green, red)).abs() < 1e-6
    );
}

#[test]
fn perceptual_distance_treats_nan_as_zero() {
    let red = Rgba32F::new(1.0, 0.0, 0.0, 1.0);
    let nan_red = Rgba32F::new(f32::NAN, 0.0, 0.0, 1.0);
    // NaN channel behaves as 0, so distance is srgb(1)-srgb(0) on red only.
    let expected = srgb_encode(1.0) - srgb_encode(0.0);
    assert!((perceptual_distance_sq(red, nan_red) - expected * expected).abs() < 1e-6);
}

fn srgb_encode(c: f32) -> f32 {
    f(ogre_core::srgb_encode(&math(), b(c)))
}

fn perceptual_distance_sq(p: Rgba32F, q: Rgba32F) -> f32 {
    f(ogre_core::perceptual_distance_sq(&math(), p.bits(), q.bits()))
}
