#![allow(dead_code)]
use ogre_core::Rgba32F as Pixel;
use ogre_core::{
    apply_mask_to_buffer, BinaryOp, FloatKernel, FloatMath, IVec2, MaskInit, Rect, Selection,
    TiledBuffer, UnaryOp, WholeOp,
};

/// A pixel with its channels as numbers.
#[derive(Clone, Copy, Debug, PartialEq)]
struct Rgba32F {
    r: f32,
    g: f32,
    b: f32,
    a: f32,
}

impl Rgba32F {
    const TRANSPARENT: Rgba32F = Rgba32F { r: 0.0, g: 0.0, b: 0.0, a: 0.0 };

    fn new(r: f32, g: f32, b: f32, a: f32) -> Self {
        Rgba32F { r, g, b, a }
    }

    fn bits(self) -> Pixel {
        Pixel::new(self.r.to_bits(), self.g.to_bits(), self.b.to_bits(), self.a.to_bits())
    }
}

fn up(p: Pixel) -> Rgba32F {
    Rgba32F::new(f(p.r), f(p.g), f(p.b), f(p.a))
}

fn b(v: f32) -> u32 {
    v.to_bits()
}

fn f(v: u32) -> f32 {
    f32::from_bits(v)
}

/// Pixels as numbers.
trait Pixels {
    fn px(&self, p: IVec2) -> Rgba32F;
    fn put(&mut self, p: IVec2, c: Rgba32F);
}

impl Pixels for TiledBuffer {
    fn px(&self, p: IVec2) -> Rgba32F {
        up(self.get_pixel(p))
    }

    fn put(&mut self, p: IVec2, c: Rgba32F) {
        self.set_pixel(p, c.bits());
    }
}

type Math = FloatMath<
    fn(BinaryOp, u32, u32) -> u32,
    fn(UnaryOp, u32) -> u32,
    fn(WholeOp, u32) -> i32,
    fn(&Vec<u32>) -> u32,
>;

fn binary(op: BinaryOp, x: u32, y: u32) -> u32 {
    let (x, y) = (f32::from_bits(x), f32::from_bits(y));
    let r = match op {
        BinaryOp::Add => x + y,
        BinaryOp::Sub => x - y,
        BinaryOp::Mul => x * y,
        BinaryOp::Div => x / y,
        BinaryOp::Pow => x.powf(y),
        BinaryOp::RemEuclid => x.rem_euclid(y),
        BinaryOp::Atan2 => x.atan2(y),
    };
    r.to_bits()
}

fn unary(op: UnaryOp, x: u32) -> u32 {
    let x = f32::from_bits(x);
    let r = match op {
        UnaryOp::Sqrt => x.sqrt(),
        UnaryOp::Round => x.round(),
    };
    r.to_bits()
}

fn whole(op: WholeOp, x: u32) -> i32 {
    let x = f32::from_bits(x);
    match op {
        WholeOp::Floor => x.floor() as i32,
        WholeOp::Ceil => x.ceil() as i32,
    }
}

fn mean(numbers: &Vec<u32>) -> u32 {
    let sum: f64 = numbers.iter().map(|n| f32::from_bits(*n) as f64).sum();
    ((sum / numbers.len() as f64) as f32).to_bits()
}

fn math() -> Math {
    FloatMath { binary, unary, whole, mean }
}

fn kern() -> FloatKernel<Math> {
    FloatKernel { math: math() }
}

#[test]
fn hide_all_is_empty() {
    let src = TiledBuffer::new();
    let mask = MaskInit::HideAll.build(&src, IVec2::zero());
    assert!(mask.is_empty(), "HideAll mask must be sparse/empty");
}

#[test]
fn reveal_all_mirrors_source_tiles() {
    let mut src = TiledBuffer::new();
    src.put(IVec2::new(5, 7), Rgba32F::new(0.5, 0.5, 0.5, 1.0));
    let mask = MaskInit::RevealAll.build(&src, IVec2::zero());
    // Same single occupied tile as the source.
    assert_eq!(mask.occupied_tiles().len(), src.occupied_tiles().len());
    // Coverage is full where the source has content.
    assert_eq!(mask.px(IVec2::new(5, 7)), Rgba32F::new(1.0, 0.0, 0.0, 1.0));
    // And unwritten (coverage 0) elsewhere.
    assert_eq!(mask.px(IVec2::new(500, 500)).r, 0.0);
}

#[test]
fn reveal_selection_is_sparse_and_offset_correct() {
    // Selection in document space covering (10..14, 20..24); layer offset (2, 4)
    // → mask must be white at local (8..12, 16..20).
    let sel = Selection::rect(Rect::new(10, 20, 4, 4));
    let src = TiledBuffer::new();
    let mask = MaskInit::RevealSelection(sel).build(&src, IVec2::new(2, 4));
    assert_eq!(mask.px(IVec2::new(8, 16)), Rgba32F::new(1.0, 0.0, 0.0, 1.0));
    assert_eq!(mask.px(IVec2::new(11, 19)), Rgba32F::new(1.0, 0.0, 0.0, 1.0));
    // Outside the selection → unwritten (coverage 0).
    assert_eq!(mask.px(IVec2::new(12, 16)).r, 0.0);
}

#[test]
fn reveal_selection_with_empty_selection_is_empty() {
    let sel = Selection::none();
    let src = TiledBuffer::new();
    let mask = MaskInit::RevealSelection(sel).build(&src, IVec2::zero());
    assert!(mask.is_empty());
}

#[test]
fn applying_a_mask_scales_the_alpha() {
    let mut buffer = TiledBuffer::new();
    buffer.put(IVec2::new(1, 1), Rgba32F::new(0.5, 0.25, 0.75, 0.5));
    buffer.put(IVec2::new(2, 1), Rgba32F::new(0.5, 0.25, 0.75, 1.0));
    let mut mask = TiledBuffer::new();
    mask.put(IVec2::new(1, 1), Rgba32F::new(0.5, 0.5, 0.5, 1.0));
    apply_mask_to_buffer(&kern(), &mut buffer, &mask);
    assert_eq!(buffer.px(IVec2::new(1, 1)), Rgba32F::new(0.5, 0.25, 0.75, 0.25));
    assert_eq!(buffer.px(IVec2::new(2, 1)).a, 0.0);
}

#[test]
fn the_last_column_and_row_are_revealed() {
    let sel = Selection::rect(Rect::new(i32::MAX - 1, i32::MAX - 1, 2, 2));
    let mask = MaskInit::RevealSelection(sel).build(&TiledBuffer::new(), IVec2::zero());
    for y in [i32::MAX - 1, i32::MAX] {
        for x in [i32::MAX - 1, i32::MAX] {
            assert_eq!(f32::from_bits(mask.get_pixel(IVec2::new(x, y)).r), 1.0);
        }
    }
}
