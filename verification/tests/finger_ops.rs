#![allow(dead_code)]
use ogre_core::Rgba32F as Pixel;
use ogre_core::{BinaryOp, FloatMath, Range, UnaryOp, WholeOp};

/// A pixel with its channels as numbers.
#[derive(Clone, Copy, Debug, PartialEq)]
struct Rgba32F {
    r: f32,
    g: f32,
    b: f32,
    a: f32,
}

impl Rgba32F {
    const TRANSPARENT: Rgba32F = Rgba32F { r: 0.0, g: 0.0, b: 0.0, a: 0.0 };

    fn new(r: f32, g: f32, b: f32, a: f32) -> Self {
        Rgba32F { r, g, b, a }
    }

    fn bits(self) -> Pixel {
        Pixel::new(self.r.to_bits(), self.g.to_bits(), self.b.to_bits(), self.a.to_bits())
    }
}

fn up(p: Pixel) -> Rgba32F {
    Rgba32F::new(f(p.r), f(p.g), f(p.b), f(p.a))
}

fn b(v: f32) -> u32 {
    v.to_bits()
}

fn f(v: u32) -> f32 {
    f32::from_bits(v)
}

type Math = FloatMath<
    fn(BinaryOp, u32, u32) -> u32,
    fn(UnaryOp, u32) -> u32,
    fn(WholeOp, u32) -> i32,
    fn(&Vec<u32>) -> u32,
>;

fn binary(op: BinaryOp, x: u32, y: u32) -> u32 {
    let (x, y) = (f32::from_bits(x), f32::from_bits(y));
    let r = match op {
        BinaryOp::Add => x + y,
        BinaryOp::Sub => x - y,
        BinaryOp::Mul => x * y,
        BinaryOp::Div => x / y,
        BinaryOp::Pow => x.powf(y),
        BinaryOp::RemEuclid => x.rem_euclid(y),
        BinaryOp::Atan2 => x.atan2(y),
    };
    r.to_bits()
}

fn unary(op: UnaryOp, x: u32) -> u32 {
    let x = f32::from_bits(x);
    let r = match op {
        UnaryOp::Sqrt => x.sqrt(),
        UnaryOp::Round => x.round(),
    };
    r.to_bits()
}

fn whole(op: WholeOp, x: u32) -> i32 {
    let x = f32::from_bits(x);
    match op {
        WholeOp::Floor => x.floor() as i32,
        WholeOp::Ceil => x.ceil() as i32,
    }
}

fn mean(numbers: &Vec<u32>) -> u32 {
    let sum: f64 = numbers.iter().map(|n| f32::from_bits(*n) as f64).sum();
    ((sum / numbers.len() as f64) as f32).to_bits()
}

fn math() -> Math {
    FloatMath { binary, unary, whole, mean }
}

#[test]
fn dodge_burn_are_inverses_on_midtones() {
    for v in [0.3, 0.5, 0.7] {
        let p = Rgba32F::new(v, v, v, 1.0);
        let m = 0.3;
        let dodged = dodge_target(p, m);
        // Dodge then Burn restores p (no clipping in midtones).
        let restored = burn_target(dodged, m);
        assert!((restored.r - p.r).abs() < 1e-4, "v={v} not restored");
    }
}

#[test]
fn range_masks_are_bounded_and_ordered() {
    let shadow = range_mask(0.1, Range::Shadows);
    let high = range_mask(0.1, Range::Highlights);
    assert!(shadow > high, "shadows mask should dominate at low luma");
    assert!(range_mask(0.5, Range::Midtones) > range_mask(0.0, Range::Midtones));
}

#[test]
fn recolor_preserves_luma() {
    // Exact luma preservation is impossible when the foreground hue at the
    // backdrop's HSL lightness cannot reach the backdrop's Rec.709 luma
    // without clamping (e.g. a saturated red on a high-luma green). The
    // rescale preserves luma whenever clamping doesn't bite; here we pick a
    // backdrop whose luma is reachable by the foreground hue.
    let bd = Rgba32F::new(0.6, 0.5, 0.4, 1.0);
    let fg = Rgba32F::new(0.5, 0.6, 0.5, 1.0);
    let out = recolor_target(bd, fg);
    assert!(
        (luma(out) - luma(bd)).abs() < 5e-2,
        "luma drift too large: {} vs {}",
        luma(out),
        luma(bd)
    );
    assert_eq!(out.a, bd.a);
}

#[test]
fn sponge_gray_unchanged() {
    let gray = Rgba32F::new(0.5, 0.5, 0.5, 1.0);
    assert_eq!(sponge_target(gray, 0.5, true), gray);
}

#[test]
fn sharpen_clamps_and_keeps_alpha() {
    let orig = Rgba32F::new(0.9, 0.1, 0.5, 0.7);
    let blurred = Rgba32F::new(0.3, 0.3, 0.5, 0.7);
    let out = sharpen_target(orig, blurred, 2.0);
    assert_eq!(out.a, 0.7);
    assert!(out.r <= 1.0 && out.r >= 0.0);
    assert!(out.r > orig.r); // contrast boosted the bright channel
}

fn luma(p: Rgba32F) -> f32 {
    f(ogre_core::luma(&math(), p.bits()))
}

fn dodge_target(p: Rgba32F, m: f32) -> Rgba32F {
    up(ogre_core::dodge_target(&math(), p.bits(), b(m)))
}

fn burn_target(p: Rgba32F, m: f32) -> Rgba32F {
    up(ogre_core::burn_target(&math(), p.bits(), b(m)))
}

fn range_mask(l: f32, range: Range) -> f32 {
    f(ogre_core::range_mask(&math(), b(l), range))
}

fn recolor_target(bd: Rgba32F, fg: Rgba32F) -> Rgba32F {
    up(ogre_core::recolor_target(&math(), bd.bits(), fg.bits()))
}

fn sponge_target(bd: Rgba32F, exposure: f32, saturate: bool) -> Rgba32F {
    up(ogre_core::sponge_target(&math(), bd.bits(), b(exposure), saturate))
}

fn sharpen_target(orig: Rgba32F, blurred: Rgba32F, amount: f32) -> Rgba32F {
    up(ogre_core::sharpen_target(&math(), orig.bits(), blurred.bits(), b(amount)))
}

#[test]
fn heal_moves_the_mean_and_takes_the_alpha_of_the_destination() {
    let src = Rgba32F::new(0.5, 0.25, 0.75, 0.2);
    let mu_src = Rgba32F::new(0.5, 0.5, 0.5, 1.0);
    let mu_dst = Rgba32F::new(0.25, 0.75, 0.875, 1.0);
    let dst = Rgba32F::new(0.0, 0.0, 0.0, 0.5);
    let out = up(ogre_core::heal_target(
        &math(),
        src.bits(),
        mu_src.bits(),
        mu_dst.bits(),
        dst.bits(),
    ));
    assert_eq!(out, Rgba32F::new(0.25, 0.5, 1.0, 0.5));
}

#[test]
fn blur_target_is_the_average() {
    let avg = Rgba32F::new(0.1, 0.2, 0.3, 0.4);
    assert_eq!(up(ogre_core::blur_target(avg.bits())), avg);
}

#[test]
fn every_target_keeps_the_alpha() {
    let p = Rgba32F::new(0.6, 0.3, 0.1, 0.35);
    let q = Rgba32F::new(0.2, 0.8, 0.5, 0.9);
    assert_eq!(dodge_target(p, 0.4).a, p.a);
    assert_eq!(burn_target(p, 0.4).a, p.a);
    assert_eq!(sharpen_target(p, q, 1.0).a, p.a);
    assert_eq!(recolor_target(p, q).a, p.a);
    assert_eq!(sponge_target(p, 0.4, true).a, p.a);
    assert_eq!(sponge_target(p, 0.4, false).a, p.a);
}

#[test]
fn dodge_and_burn_scale_exactly() {
    let p = Rgba32F::new(0.25, 0.125, 0.75, 1.0);
    assert_eq!(dodge_target(p, 0.5), Rgba32F::new(0.5, 0.25, 1.0, 1.0));
    assert_eq!(burn_target(p, 0.5), Rgba32F::new(0.125, 0.0625, 0.375, 1.0));
}

#[test]
fn desaturating_divides_the_saturation() {
    let out = sponge_target(Rgba32F::new(1.0, 0.0, 0.0, 0.5), 1.0, false);
    let decoded = |c: f32| ((c + 0.055) / 1.055).powf(2.4);
    assert!((out.r - decoded(0.75)).abs() < 1e-5);
    assert!((out.g - decoded(0.25)).abs() < 1e-5);
    assert!((out.b - decoded(0.25)).abs() < 1e-5);
    assert_eq!(out.a, 0.5);
}

#[test]
fn recoloring_takes_the_hue_of_the_foreground() {
    let bd = Rgba32F::new(0.5, 0.5, 0.5, 1.0);
    let out = recolor_target(bd, Rgba32F::new(1.0, 0.5, 0.0, 1.0));
    assert!((out.g / out.r - 0.5).abs() < 1e-5);
    assert!(out.b.abs() < 1e-5);
    assert!((luma(out) - 0.5).abs() < 1e-5);
}
