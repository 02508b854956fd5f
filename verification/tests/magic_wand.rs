#![allow(dead_code)]
use ogre_core::Rgba32F as Pixel;
use ogre_core::{
    quick_select, region_grow, select_by_color, BinaryOp, FloatMath, IVec2, Rect, Selection,
    TiledBuffer, UnaryOp, WholeOp,
};

/// A pixel with its channels as numbers.
#[derive(Clone, Copy, Debug, PartialEq)]
struct Rgba32F {
    r: f32,
    g: f32,
    b: f32,
    a: f32,
}

impl Rgba32F {
    const TRANSPARENT: Rgba32F = Rgba32F { r: 0.0, g: 0.0, b: 0.0, a: 0.0 };

    fn new(r: f32, g: f32, b: f32, a: f32) -> Self {
        Rgba32F { r, g, b, a }
    }

    fn bits(self) -> Pixel {
        Pixel::new(self.r.to_bits(), self.g.to_bits(), self.b.to_bits(), self.a.to_bits())
    }
}

fn up(p: Pixel) -> Rgba32F {
    Rgba32F::new(f(p.r), f(p.g), f(p.b), f(p.a))
}

fn b(v: f32) -> u32 {
    v.to_bits()
}

fn f(v: u32) -> f32 {
    f32::from_bits(v)
}

/// Pixels as numbers.
trait Pixels {
    fn px(&self, p: IVec2) -> Rgba32F;
    fn put(&mut self, p: IVec2, c: Rgba32F);
}

impl Pixels for TiledBuffer {
    fn px(&self, p: IVec2) -> Rgba32F {
        up(self.get_pixel(p))
    }

    fn put(&mut self, p: IVec2, c: Rgba32F) {
        self.set_pixel(p, c.bits());
    }
}

/// How much of a pixel is selected, as a number.
trait Covers {
    fn cov(&self, p: IVec2) -> f32;
}

impl Covers for Selection {
    fn cov(&self, p: IVec2) -> f32 {
        f(self.coverage_at(p))
    }
}

type Math = FloatMath<
    fn(BinaryOp, u32, u32) -> u32,
    fn(UnaryOp, u32) -> u32,
    fn(WholeOp, u32) -> i32,
    fn(&Vec<u32>) -> u32,
>;

fn binary(op: BinaryOp, x: u32, y: u32) -> u32 {
    let (x, y) = (f32::from_bits(x), f32::from_bits(y));
    let r = match op {
        BinaryOp::Add => x + y,
        BinaryOp::Sub => x - y,
        BinaryOp::Mul => x * y,
        BinaryOp::Div => x / y,
        BinaryOp::Pow => x.powf(y),
        BinaryOp::RemEuclid => x.rem_euclid(y),
        BinaryOp::Atan2 => x.atan2(y),
    };
    r.to_bits()
}

fn unary(op: UnaryOp, x: u32) -> u32 {
    let x = f32::from_bits(x);
    let r = match op {
        UnaryOp::Sqrt => x.sqrt(),
        UnaryOp::Round => x.round(),
    };
    r.to_bits()
}

fn whole(op: WholeOp, x: u32) -> i32 {
    let x = f32::from_bits(x);
    match op {
        WholeOp::Floor => x.floor() as i32,
        WholeOp::Ceil => x.ceil() as i32,
    }
}

fn mean(numbers: &Vec<u32>) -> u32 {
    let sum: f64 = numbers.iter().map(|n| f32::from_bits(*n) as f64).sum();
    ((sum / numbers.len() as f64) as f32).to_bits()
}

fn math() -> Math {
    FloatMath { binary, unary, whole, mean }
}

fn red_layer() -> (TiledBuffer, IVec2) {
    let mut buf = TiledBuffer::new();
    // Two disconnected red squares.
    for y in 0..5 {
        for x in 0..5 {
            buf.put(IVec2::new(x, y), Rgba32F::new(1.0, 0.0, 0.0, 1.0));
        }
    }
    for y in 0..5 {
        for x in 10..15 {
            buf.put(IVec2::new(x, y), Rgba32F::new(1.0, 0.0, 0.0, 1.0));
        }
    }
    // A blue pixel in the middle.
    buf.put(IVec2::new(7, 2), Rgba32F::new(0.0, 0.0, 1.0, 1.0));
    (buf, IVec2::zero())
}

#[test]
fn contiguous_selects_only_connected_region() {
    let (buf, off) = red_layer();
    let sel = magic_wand(&buf, off, IVec2::new(2, 2), 0.1, true);
    assert!(sel.cov(IVec2::new(2, 2)) > 0.0);
    assert_eq!(sel.cov(IVec2::new(12, 2)), 0.0);
    assert_eq!(sel.cov(IVec2::new(7, 2)), 0.0);
}

#[test]
fn global_selects_all_matching_pixels() {
    let (buf, off) = red_layer();
    let sel = magic_wand(&buf, off, IVec2::new(2, 2), 0.1, false);
    assert!(sel.cov(IVec2::new(2, 2)) > 0.0);
    assert!(sel.cov(IVec2::new(12, 2)) > 0.0);
    assert_eq!(sel.cov(IVec2::new(7, 2)), 0.0);
}

#[test]
fn tolerance_excludes_different_colors() {
    let (buf, off) = red_layer();
    let sel = magic_wand(&buf, off, IVec2::new(7, 2), 0.1, false);
    assert!(sel.cov(IVec2::new(7, 2)) > 0.0);
    assert_eq!(sel.cov(IVec2::new(2, 2)), 0.0);
}

#[test]
fn seed_outside_occupied_bounds_is_empty() {
    let (buf, off) = red_layer();
    let sel = magic_wand(&buf, off, IVec2::new(1000, 1000), 0.1, true);
    assert!(sel.is_empty());
}

#[test]
fn layer_offset_shifts_selection_to_doc_space() {
    let mut buf = TiledBuffer::new();
    buf.put(IVec2::new(0, 0), Rgba32F::new(1.0, 0.0, 0.0, 1.0));
    let offset = IVec2::new(100, 200);
    let sel = magic_wand(&buf, offset, IVec2::new(100, 200), 0.1, true);
    assert!(sel.cov(IVec2::new(100, 200)) > 0.0);
}

fn magic_wand(
    source: &TiledBuffer,
    offset: IVec2,
    seed: IVec2,
    tolerance: f32,
    contiguous: bool,
) -> Selection {
    ogre_core::magic_wand(&math(), source, offset, seed, b(tolerance), contiguous)
}

#[test]
fn region_grow_stays_within_its_radius() {
    let (buf, off) = red_layer();
    let sel = region_grow(&math(), &buf, off, IVec2::new(0, 0), b(0.1), Some(2));
    assert_eq!(sel.cov(IVec2::new(2, 0)), 1.0);
    assert_eq!(sel.cov(IVec2::new(1, 1)), 1.0);
    assert_eq!(sel.cov(IVec2::new(2, 1)), 0.0);
    assert_eq!(sel.cov(IVec2::new(3, 0)), 0.0);
}

#[test]
fn quick_select_joins_the_regions_of_its_samples() {
    let (buf, off) = red_layer();
    let samples = vec![IVec2::new(2, 2), IVec2::new(12, 2)];
    let sel = quick_select(&math(), &buf, off, &samples, b(0.1), 50);
    assert_eq!(sel.cov(IVec2::new(0, 0)), 1.0);
    assert_eq!(sel.cov(IVec2::new(14, 4)), 1.0);
    assert_eq!(sel.cov(IVec2::new(7, 2)), 0.0);
}

#[test]
fn select_by_color_scans_its_bounds() {
    let (buf, off) = red_layer();
    let red = Rgba32F::new(1.0, 0.0, 0.0, 1.0);
    let sel = select_by_color(&math(), &buf, off, red.bits(), b(0.1), Rect::new(0, 0, 12, 3));
    assert_eq!(sel.cov(IVec2::new(11, 2)), 1.0);
    assert_eq!(sel.cov(IVec2::new(12, 2)), 0.0);
    assert_eq!(sel.cov(IVec2::new(0, 3)), 0.0);
}
