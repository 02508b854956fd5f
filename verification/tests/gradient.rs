#![allow(dead_code)]
use ogre_core::Vec2 as Point;
use ogre_core::ops::gradient::Gradient;
use ogre_core::Rgba32F as Pixel;
use ogre_core::{
    BinaryOp, FloatKernel, FloatMath, GradientKind, IVec2, Rect, Selection, TiledBuffer, UnaryOp,
    WholeOp, WrapMode,
};

/// A pixel with its channels as numbers.
#[derive(Clone, Copy, Debug, PartialEq)]
struct Rgba32F {
    r: f32,
    g: f32,
    b: f32,
    a: f32,
}

impl Rgba32F {
    const TRANSPARENT: Rgba32F = Rgba32F { r: 0.0, g: 0.0, b: 0.0, a: 0.0 };

    fn new(r: f32, g: f32, b: f32, a: f32) -> Self {
        Rgba32F { r, g, b, a }
    }

    fn bits(self) -> Pixel {
        Pixel::new(self.r.to_bits(), self.g.to_bits(), self.b.to_bits(), self.a.to_bits())
    }
}

fn up(p: Pixel) -> Rgba32F {
    Rgba32F::new(f(p.r), f(p.g), f(p.b), f(p.a))
}

fn b(v: f32) -> u32 {
    v.to_bits()
}

fn f(v: u32) -> f32 {
    f32::from_bits(v)
}

type Math = FloatMath<
    fn(BinaryOp, u32, u32) -> u32,
    fn(UnaryOp, u32) -> u32,
    fn(WholeOp, u32) -> i32,
    fn(&Vec<u32>) -> u32,
>;

fn binary(op: BinaryOp, x: u32, y: u32) -> u32 {
    let (x, y) = (f32::from_bits(x), f32::from_bits(y));
    let r = match op {
        BinaryOp::Add => x + y,
        BinaryOp::Sub => x - y,
        BinaryOp::Mul => x * y,
        BinaryOp::Div => x / y,
        BinaryOp::Pow => x.powf(y),
        BinaryOp::RemEuclid => x.rem_euclid(y),
        BinaryOp::Atan2 => x.atan2(y),
    };
    r.to_bits()
}

fn unary(op: UnaryOp, x: u32) -> u32 {
    let x = f32::from_bits(x);
    let r = match op {
        UnaryOp::Sqrt => x.sqrt(),
        UnaryOp::Round => x.round(),
    };
    r.to_bits()
}

fn whole(op: WholeOp, x: u32) -> i32 {
    let x = f32::from_bits(x);
    match op {
        WholeOp::Floor => x.floor() as i32,
        WholeOp::Ceil => x.ceil() as i32,
    }
}

fn mean(numbers: &Vec<u32>) -> u32 {
    let sum: f64 = numbers.iter().map(|n| f32::from_bits(*n) as f64).sum();
    ((sum / numbers.len() as f64) as f32).to_bits()
}

fn math() -> Math {
    FloatMath { binary, unary, whole, mean }
}

fn kern() -> FloatKernel<Math> {
    FloatKernel { math: math() }
}

#[test]
fn linear_t_at_endpoints_and_beyond() {
    let p0 = Vec2::new(0.0, 0.0);
    let p1 = Vec2::new(10.0, 0.0);
    assert!((gradient_t(Vec2::new(0.0, 0.0), p0, p1, GradientKind::Linear) - 0.0).abs() < 1e-6);
    assert!((gradient_t(Vec2::new(5.0, 0.0), p0, p1, GradientKind::Linear) - 0.5).abs() < 1e-6);
    assert!(
        (gradient_t(Vec2::new(10.0, 0.0), p0, p1, GradientKind::Linear) - 1.0).abs() < 1e-6
    );
    // `gradient_t` now returns the raw (unclamped) parameter; wrapping is
    // applied by `fill_gradient` via `WrapMode`.
    assert!(
        (gradient_t(Vec2::new(15.0, 0.0), p0, p1, GradientKind::Linear) - 1.5).abs() < 1e-6
    );
    assert!(
        (gradient_t(Vec2::new(-5.0, 0.0), p0, p1, GradientKind::Linear) - -0.5).abs() < 1e-6
    );
}

#[test]
fn wrap_modes_clamp_repeat_reflect() {
    assert_eq!(wrap(WrapMode::Clamp, 1.5), 1.0);
    assert_eq!(wrap(WrapMode::Clamp, -0.5), 0.0);
    assert!((wrap(WrapMode::Repeat, 1.25) - 0.25).abs() < 1e-6);
    assert!((wrap(WrapMode::Repeat, -0.25) - 0.75).abs() < 1e-6);
    assert!((wrap(WrapMode::Reflect, 1.25) - 0.75).abs() < 1e-6);
    assert!((wrap(WrapMode::Reflect, -0.25) - 0.25).abs() < 1e-6);
    assert!((wrap(WrapMode::Reflect, 2.5) - 0.5).abs() < 1e-6);
}

#[test]
fn conical_covers_full_circle() {
    // p1 along +x ⇒ zero angle is +x. The four cardinal points must map to
    // t = 0, 0.25, 0.5, 0.75 (no collapse to 0).
    let p0 = Vec2::new(0.0, 0.0);
    let p1 = Vec2::new(1.0, 0.0);
    let at = |x, y| gradient_t(Vec2::new(x, y), p0, p1, GradientKind::Conical);
    assert!((at(1.0, 0.0) - 0.0).abs() < 1e-5);
    assert!((at(0.0, 1.0) - 0.25).abs() < 1e-5);
    assert!((at(-1.0, 0.0) - 0.5).abs() < 1e-5);
    assert!((at(0.0, -1.0) - 0.75).abs() < 1e-5);
    // And t stays in [0,1).
    for (x, y) in [(1.0, 1.0), (-2.0, 3.0), (0.5, -0.5)] {
        let t = at(x, y);
        assert!((0.0..1.0).contains(&t), "t={t} out of [0,1) at ({x},{y})");
    }
}

#[test]
fn degenerate_line_is_solid_foreground() {
    let p0 = Vec2::new(5.0, 5.0);
    let p1 = p0;
    for kind in [
        GradientKind::Linear,
        GradientKind::Radial,
        GradientKind::Diamond,
    ] {
        let t = gradient_t(Vec2::new(100.0, 100.0), p0, p1, kind);
        assert!((t - 0.0).abs() < 1e-6, "degenerate {kind:?} t={t}");
    }
}

#[test]
fn gradient_color_linear_blend_and_reverse() {
    let fg = Rgba32F::new(0.0, 0.0, 0.0, 1.0);
    let bg = Rgba32F::new(1.0, 1.0, 1.0, 1.0);
    assert_eq!(gradient_color(0.0, fg, bg, false), fg);
    assert_eq!(gradient_color(1.0, fg, bg, false), bg);
    let mid = gradient_color(0.5, fg, bg, false);
    assert!((mid.r - 0.5).abs() < 1e-6);
    // Reverse flips the endpoint mapping.
    assert_eq!(gradient_color(0.0, fg, bg, true), bg);
    assert_eq!(gradient_color(1.0, fg, bg, true), fg);
}

#[test]
fn fill_gradient_fills_blank_layer_across_canvas() {
    // Regression: a blank (empty) raster layer has no occupied tiles, so the
    // fill domain must be the canvas, not `exact_bounds()` — otherwise a
    // gradient on a fresh layer produces no pixels.

    let blank = TiledBuffer::new(); // no tiles
    let canvas = Rect::new(0, 0, 8, 4);
    let writes = fill_gradient(
        &blank,
        IVec2::zero(),
        Vec2::new(0.5, 2.0),
        Vec2::new(7.5, 2.0),
        GradientKind::Linear,
        Rgba32F::new(0.0, 0.0, 0.0, 1.0),
        Rgba32F::new(1.0, 1.0, 1.0, 1.0),
        false,
        1.0,
        &Selection::none(),
        canvas,
        WrapMode::Clamp,
    );
    // Every canvas pixel got a write (empty selection = unmasked).
    assert_eq!(writes.len(), 32);
    // Left edge ≈ fg, right edge ≈ bg.
    let left = writes
        .iter()
        .find(|(p, _)| *p == IVec2::new(0, 0))
        .unwrap()
        .1;
    assert!(left.r < 0.5);
}

/// A point with its coordinates as numbers.
#[derive(Clone, Copy)]
struct Vec2 {
    x: f32,
    y: f32,
}

impl Vec2 {
    fn new(x: f32, y: f32) -> Self {
        Vec2 { x, y }
    }

    fn bits(self) -> Point {
        Point { x: b(self.x), y: b(self.y) }
    }
}

fn wrap(mode: WrapMode, t: f32) -> f32 {
    f(mode.wrap(&math(), b(t)))
}

fn gradient_t(p: Vec2, p0: Vec2, p1: Vec2, kind: GradientKind) -> f32 {
    f(ogre_core::gradient_t(&math(), p.bits(), p0.bits(), p1.bits(), kind))
}

fn gradient_color(t: f32, fg: Rgba32F, bg: Rgba32F, reverse: bool) -> Rgba32F {
    up(ogre_core::gradient_color(&math(), b(t), fg.bits(), bg.bits(), reverse))
}

#[allow(clippy::too_many_arguments)]
fn fill_gradient(
    buffer: &TiledBuffer,
    offset: IVec2,
    p0: Vec2,
    p1: Vec2,
    kind: GradientKind,
    fg: Rgba32F,
    bg: Rgba32F,
    reverse: bool,
    opacity: f32,
    selection: &Selection,
    canvas: Rect,
    wrap: WrapMode,
) -> Vec<(IVec2, Rgba32F)> {
    let gradient = Gradient {
        p0: p0.bits(),
        p1: p1.bits(),
        kind,
        fg: fg.bits(),
        bg: bg.bits(),
        reverse,
        wrap,
    };
    ogre_core::fill_gradient(
        &kern(),
        &math(),
        buffer,
        offset,
        &gradient,
        b(opacity),
        selection,
        canvas,
    )
    .into_iter()
    .map(|(p, c)| (p, up(c)))
    .collect()
}

#[test]
fn radial_and_diamond_parameters_are_distances() {
    let p0 = Vec2::new(0.0, 0.0);
    let p1 = Vec2::new(0.0, 5.0);
    assert_eq!(gradient_t(Vec2::new(3.0, 4.0), p0, p1, GradientKind::Radial), 1.0);
    assert_eq!(gradient_t(Vec2::new(3.0, 4.0), p0, p1, GradientKind::Diamond), 1.4);
}

#[test]
fn wrap_mode_default_is_clamp() {
    assert_eq!(WrapMode::default(), WrapMode::Clamp);
}

#[test]
fn gradient_is_clipped_to_the_selection() {
    let canvas = Rect::new(0, 0, 8, 4);
    let writes = fill_gradient(
        &TiledBuffer::new(),
        IVec2::new(1, 0),
        Vec2::new(0.0, 0.0),
        Vec2::new(8.0, 0.0),
        GradientKind::Linear,
        Rgba32F::new(0.0, 0.0, 0.0, 1.0),
        Rgba32F::new(1.0, 1.0, 1.0, 1.0),
        false,
        1.0,
        &Selection::rect(Rect::new(2, 1, 2, 2)),
        canvas,
        WrapMode::Clamp,
    );
    assert_eq!(writes.len(), 4);
    // Document pixel (3, 1) is local pixel (2, 1); its middle is at 3.5 of 8.
    let w = writes.iter().find(|(p, _)| *p == IVec2::new(2, 1)).unwrap();
    assert_eq!(w.1, Rgba32F::new(0.4375, 0.4375, 0.4375, 1.0));
}
