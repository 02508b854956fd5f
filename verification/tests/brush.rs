#![allow(dead_code)]
use ogre_core::Vec2 as Point;
use ogre_core::Rgba32F as Pixel;
use ogre_core::{
    BinaryOp, BrushSettings, FloatKernel, FloatMath, IVec2, InputSample, PaintMode, TiledBuffer,
    UnaryOp, WholeOp,
};

/// A pixel with its channels as numbers.
#[derive(Clone, Copy, Debug, PartialEq)]
struct Rgba32F {
    r: f32,
    g: f32,
    b: f32,
    a: f32,
}

impl Rgba32F {
    const TRANSPARENT: Rgba32F = Rgba32F { r: 0.0, g: 0.0, b: 0.0, a: 0.0 };

    fn new(r: f32, g: f32, b: f32, a: f32) -> Self {
        Rgba32F { r, g, b, a }
    }

    fn bits(self) -> Pixel {
        Pixel::new(self.r.to_bits(), self.g.to_bits(), self.b.to_bits(), self.a.to_bits())
    }
}

fn up(p: Pixel) -> Rgba32F {
    Rgba32F::new(f(p.r), f(p.g), f(p.b), f(p.a))
}

fn b(v: f32) -> u32 {
    v.to_bits()
}

fn f(v: u32) -> f32 {
    f32::from_bits(v)
}

/// Pixels as numbers.
trait Pixels {
    fn px(&self, p: IVec2) -> Rgba32F;
    fn put(&mut self, p: IVec2, c: Rgba32F);
}

impl Pixels for TiledBuffer {
    fn px(&self, p: IVec2) -> Rgba32F {
        up(self.get_pixel(p))
    }

    fn put(&mut self, p: IVec2, c: Rgba32F) {
        self.set_pixel(p, c.bits());
    }
}

/// A point with its coordinates as numbers.
#[derive(Clone, Copy, Debug, PartialEq)]
struct Vec2 {
    x: f32,
    y: f32,
}

impl Vec2 {
    fn new(x: f32, y: f32) -> Self {
        Vec2 { x, y }
    }

    fn bits(self) -> Point {
        Point { x: b(self.x), y: b(self.y) }
    }
}

type Math = FloatMath<
    fn(BinaryOp, u32, u32) -> u32,
    fn(UnaryOp, u32) -> u32,
    fn(WholeOp, u32) -> i32,
    fn(&Vec<u32>) -> u32,
>;

fn binary(op: BinaryOp, x: u32, y: u32) -> u32 {
    let (x, y) = (f32::from_bits(x), f32::from_bits(y));
    let r = match op {
        BinaryOp::Add => x + y,
        BinaryOp::Sub => x - y,
        BinaryOp::Mul => x * y,
        BinaryOp::Div => x / y,
        BinaryOp::Pow => x.powf(y),
        BinaryOp::RemEuclid => x.rem_euclid(y),
        BinaryOp::Atan2 => x.atan2(y),
    };
    r.to_bits()
}

fn unary(op: UnaryOp, x: u32) -> u32 {
    let x = f32::from_bits(x);
    let r = match op {
        UnaryOp::Sqrt => x.sqrt(),
        UnaryOp::Round => x.round(),
    };
    r.to_bits()
}

fn whole(op: WholeOp, x: u32) -> i32 {
    let x = f32::from_bits(x);
    match op {
        WholeOp::Floor => x.floor() as i32,
        WholeOp::Ceil => x.ceil() as i32,
    }
}

fn mean(numbers: &Vec<u32>) -> u32 {
    let sum: f64 = numbers.iter().map(|n| f32::from_bits(*n) as f64).sum();
    ((sum / numbers.len() as f64) as f32).to_bits()
}

fn math() -> Math {
    FloatMath { binary, unary, whole, mean }
}

fn kern() -> FloatKernel<Math> {
    FloatKernel { math: math() }
}

#[test]
fn input_sample_defaults_to_full_pressure() {
    let s = InputSample::new(Vec2::new(100.0, 200.0).bits());
    assert_eq!(Vec2::new(f(s.pos.x), f(s.pos.y)), Vec2::new(100.0, 200.0));
    assert_eq!(f(s.pressure), 1.0);
}

#[test]
fn brush_sanitise_clamps_fields() {
    let s = BrushSettings {
        size: b(-5.0),
        hardness: b(2.0),
        opacity: b(-0.1),
        flow: b(1.5),
        spacing: b(-0.5),
        ..Default::default()
    }
    .sanitised();
    assert_eq!(f(s.size), 0.0);
    assert_eq!(f(s.hardness), 1.0);
    assert_eq!(f(s.opacity), 0.0);
    assert_eq!(f(s.flow), 1.0);
    assert_eq!(f(s.spacing), 0.0);
}

#[test]
fn width_respects_pressure_size_toggle() {
    let mut s = BrushSettings {
        size: b(20.0),
        pressure_size: true,
        ..Default::default()
    };
    assert!((f(s.width_at_pressure(&kern(), b(0.5))) - 10.0).abs() < f32::EPSILON);
    assert!((f(s.width_at_pressure(&kern(), b(0.0))) - 0.0).abs() < f32::EPSILON);

    s.pressure_size = false;
    assert!((f(s.width_at_pressure(&kern(), b(0.5))) - 20.0).abs() < f32::EPSILON);
}

#[test]
fn opacity_respects_pressure_opacity_toggle() {
    let mut s = BrushSettings {
        opacity: b(0.5),
        pressure_opacity: true,
        ..Default::default()
    };
    assert!((f(s.opacity_at_pressure(&kern(), b(0.5))) - 0.25).abs() < f32::EPSILON);

    s.pressure_opacity = false;
    assert!((f(s.opacity_at_pressure(&kern(), b(0.5))) - 0.5).abs() < f32::EPSILON);
}

#[test]
fn spacing_step_is_size_times_spacing() {
    let mut s = BrushSettings {
        size: b(20.0),
        spacing: b(0.25),
        ..Default::default()
    };
    assert!((f(s.step_distance(&kern())) - 5.0).abs() < f32::EPSILON);

    s.spacing = b(0.0);
    assert_eq!(f(s.step_distance(&kern())), 1.0);
}

#[test]
fn falloff_is_one_at_centre_and_zero_at_edge() {
    let s = BrushSettings::default();
    assert_eq!(falloff(&s, 0.0), 1.0);
    assert_eq!(falloff(&s, radius(&s)), 0.0);
    assert_eq!(falloff(&s, radius(&s) + 1.0), 0.0);
}

#[test]
fn harder_brush_keeps_higher_alpha_mid_radius() {
    let soft = BrushSettings {
        hardness: b(0.0),
        ..Default::default()
    };
    let hard = BrushSettings {
        hardness: b(1.0),
        ..Default::default()
    };
    let mid = radius(&soft) * 0.5;
    assert!(falloff(&hard, mid) > falloff(&soft, mid));
}

#[test]
fn hard_stamp_writes_opaque_pixel() {
    let mut buffer = TiledBuffer::new();
    let settings = BrushSettings {
        size: b(20.0),
        hardness: b(1.0),
        opacity: b(1.0),
        pressure_size: false,
        pressure_opacity: false,
        ..Default::default()
    };

    let center = Vec2::new(1000.5, 700.5);
    let red = Rgba32F::new(1.0, 0.0, 0.0, 1.0);
    stamp(&mut buffer, center, &settings, red, 1.0, PaintMode::Brush);

    let px = buffer.px(IVec2::new(1000, 700));
    assert!((px.r - 1.0).abs() < 1e-4);
    assert!((px.g - 0.0).abs() < 1e-4);
    assert!((px.a - 1.0).abs() < 1e-4);
}

#[test]
fn soft_stamp_falloff_matches_hardness_curve() {
    let mut buffer = TiledBuffer::new();
    let settings = BrushSettings {
        size: b(20.0),
        hardness: b(0.5),
        opacity: b(1.0),
        pressure_size: false,
        pressure_opacity: false,
        ..Default::default()
    };

    let center = Vec2::new(500.5, 500.5);
    let red = Rgba32F::new(1.0, 0.0, 0.0, 1.0);
    stamp(&mut buffer, center, &settings, red, 1.0, PaintMode::Brush);

    let radius = radius(&settings);
    for offset in [0, 2, 4, 7] {
        let p = IVec2::new(500 + offset, 500);
        let distance = offset as f32;
        if distance >= radius {
            assert_eq!(buffer.px(p).a, 0.0);
            continue;
        }
        let expected = falloff(&settings, distance);
        let actual = buffer.px(p).a;
        assert!(
            (actual - expected).abs() < 1e-4,
            "offset {}: expected {}, got {}",
            offset,
            expected,
            actual
        );
    }
}

#[test]
fn pressure_scaled_soft_stamp_decays_at_scaled_edge() {
    // Default-style soft brush with pressure-driven size. At pressure 0.5 the
    // stamp radius is half the base radius, and the soft falloff must decay
    // to ~0 at that *scaled* edge — not be normalized against the unscaled
    // base radius (which produced a hard cliff).
    let mut buffer = TiledBuffer::new();
    let settings = BrushSettings {
        size: b(40.0), // base radius 20
        hardness: b(0.5),
        opacity: b(1.0),
        flow: b(1.0),
        pressure_size: true,
        pressure_opacity: false,
        ..Default::default()
    };
    let center = Vec2::new(500.5, 500.5);
    let red = Rgba32F::new(1.0, 0.0, 0.0, 1.0);
    // pressure 0.5 -> stamp width 20 -> scaled radius 10.
    stamp(&mut buffer, center, &settings, red, 0.5, PaintMode::Brush);

    // Center stays near-opaque.
    assert!(buffer.px(IVec2::new(500, 500)).a > 0.9);
    // Near the scaled edge (distance 9 of 10) the alpha must have decayed.
    // With the bug (normalized vs base radius 20) this is ~0.80.
    let near_edge = buffer.px(IVec2::new(509, 500)).a;
    assert!(
        near_edge < 0.3,
        "soft edge must decay toward 0 at the scaled radius, got {near_edge}"
    );
    // Beyond the scaled radius nothing is painted.
    assert_eq!(buffer.px(IVec2::new(511, 500)).a, 0.0);
}

#[test]
fn stroke_along_segment_deposits_pixels() {
    let mut buffer = TiledBuffer::new();
    let settings = BrushSettings {
        size: b(10.0),
        hardness: b(1.0),
        opacity: b(1.0),
        spacing: b(0.5),
        pressure_size: false,
        pressure_opacity: false,
        ..Default::default()
    };

    let samples = [
        InputSample::new(Vec2::new(100.0, 100.0).bits()),
        InputSample::new(Vec2::new(120.0, 100.0).bits()),
    ];
    let red = Rgba32F::new(1.0, 0.0, 0.0, 1.0);
    rasterize_stroke(&mut buffer, &samples, &settings, red, PaintMode::Brush);

    assert!(buffer.px(IVec2::new(100, 100)).a > 0.0);
    assert!(buffer.px(IVec2::new(110, 100)).a > 0.0);
    assert!(buffer.px(IVec2::new(120, 100)).a > 0.0);
}

#[test]
fn eraser_reduces_alpha() {
    let mut buffer = TiledBuffer::new();
    let settings = BrushSettings {
        size: b(20.0),
        hardness: b(1.0),
        opacity: b(1.0),
        pressure_size: false,
        pressure_opacity: false,
        ..Default::default()
    };

    let center = Vec2::new(200.5, 200.5);
    let red = Rgba32F::new(1.0, 0.0, 0.0, 1.0);
    stamp(&mut buffer, center, &settings, red, 1.0, PaintMode::Brush);
    assert_eq!(buffer.px(IVec2::new(200, 200)).a, 1.0);

    stamp(&mut buffer, center, &settings, red, 1.0, PaintMode::Eraser);
    assert!(buffer.px(IVec2::new(200, 200)).a < 1.0);
}

fn radius(s: &BrushSettings) -> f32 {
    f(s.radius(&kern()))
}

fn falloff(s: &BrushSettings, distance: f32) -> f32 {
    f(s.falloff(&kern(), &kern(), b(distance)))
}

fn stamp(
    buffer: &mut TiledBuffer,
    center: Vec2,
    settings: &BrushSettings,
    color: Rgba32F,
    pressure: f32,
    mode: PaintMode,
) {
    ogre_core::brush::stamp(
        &kern(),
        &kern(),
        buffer,
        center.bits(),
        settings,
        color.bits(),
        b(pressure),
        mode,
    );
}

fn rasterize_stroke(
    buffer: &mut TiledBuffer,
    samples: &[InputSample],
    settings: &BrushSettings,
    color: Rgba32F,
    mode: PaintMode,
) {
    let samples = samples.to_vec();
    ogre_core::rasterize_stroke(
        &kern(),
        &kern(),
        buffer,
        &samples,
        settings,
        color.bits(),
        mode,
    );
}

#[test]
fn a_stroke_of_one_sample_is_one_stamp() {
    let settings = BrushSettings { size: b(6.0), hardness: b(1.0), ..Default::default() };
    let red = Rgba32F::new(1.0, 0.0, 0.0, 1.0);
    let mut one = TiledBuffer::new();
    let samples = [InputSample::with_pressure(Vec2::new(20.5, 20.5).bits(), b(0.5))];
    rasterize_stroke(&mut one, &samples, &settings, red, PaintMode::Brush);
    let mut other = TiledBuffer::new();
    stamp(&mut other, Vec2::new(20.5, 20.5), &settings, red, 0.5, PaintMode::Brush);
    for y in 10..30 {
        for x in 10..30 {
            assert_eq!(one.px(IVec2::new(x, y)), other.px(IVec2::new(x, y)));
        }
    }
    assert_eq!(one.px(IVec2::new(20, 20)).a, 0.5);
    assert_eq!(one.px(IVec2::new(22, 20)).a, 0.0);
}

#[test]
fn default_brush_is_soft_and_sensitive() {
    let s = BrushSettings::default();
    assert_eq!(f(s.size), 10.0);
    assert_eq!(f(s.hardness), 0.5);
    assert_eq!(f(s.opacity), 1.0);
    assert_eq!(f(s.flow), 1.0);
    assert_eq!(f(s.spacing), 0.25);
    assert!(s.pressure_size && s.pressure_opacity);
}
