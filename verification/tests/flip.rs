#![allow(dead_code)]
use ogre_core::Rgba32F as Pixel;
use ogre_core::{flip_buffer, FlipAxis, IVec2, Rect, TiledBuffer};

/// A pixel with its channels as numbers.
#[derive(Clone, Copy, Debug, PartialEq)]
struct Rgba32F {
    r: f32,
    g: f32,
    b: f32,
    a: f32,
}

impl Rgba32F {
    const TRANSPARENT: Rgba32F = Rgba32F { r: 0.0, g: 0.0, b: 0.0, a: 0.0 };

    fn new(r: f32, g: f32, b: f32, a: f32) -> Self {
        Rgba32F { r, g, b, a }
    }

    fn bits(self) -> Pixel {
        Pixel::new(self.r.to_bits(), self.g.to_bits(), self.b.to_bits(), self.a.to_bits())
    }
}

fn up(p: Pixel) -> Rgba32F {
    Rgba32F::new(f(p.r), f(p.g), f(p.b), f(p.a))
}

fn b(v: f32) -> u32 {
    v.to_bits()
}

fn f(v: u32) -> f32 {
    f32::from_bits(v)
}

/// Pixels as numbers.
trait Pixels {
    fn px(&self, p: IVec2) -> Rgba32F;
    fn put(&mut self, p: IVec2, c: Rgba32F);
}

impl Pixels for TiledBuffer {
    fn px(&self, p: IVec2) -> Rgba32F {
        up(self.get_pixel(p))
    }

    fn put(&mut self, p: IVec2, c: Rgba32F) {
        self.set_pixel(p, c.bits());
    }
}

fn set(buf: &mut TiledBuffer, x: i32, y: i32, c: Rgba32F) {
    buf.put(IVec2::new(x, y), c);
}

#[test]
fn horizontal_flip_mirrors_within_bounds() {
    let mut buf = TiledBuffer::new();
    // Content at local x=2..5 (3px), y=0. Mirror within bounds (2,0,3,1).
    set(&mut buf, 2, 0, Rgba32F::new(0.1, 0.0, 0.0, 1.0));
    set(&mut buf, 3, 0, Rgba32F::new(0.2, 0.0, 0.0, 1.0));
    set(&mut buf, 4, 0, Rgba32F::new(0.3, 0.0, 0.0, 1.0));
    let bounds = Rect::new(2, 0, 3, 1);
    let flipped = flip_buffer(&buf, FlipAxis::Horizontal, bounds);
    // x=2 (left) ↔ x=4 (right); x=3 (centre) stays.
    assert_eq!(
        flipped.px(IVec2::new(2, 0)),
        Rgba32F::new(0.3, 0.0, 0.0, 1.0)
    );
    assert_eq!(
        flipped.px(IVec2::new(4, 0)),
        Rgba32F::new(0.1, 0.0, 0.0, 1.0)
    );
    assert_eq!(
        flipped.px(IVec2::new(3, 0)),
        Rgba32F::new(0.2, 0.0, 0.0, 1.0)
    );
}

#[test]
fn vertical_flip_mirrors_y() {
    let mut buf = TiledBuffer::new();
    set(&mut buf, 0, 1, Rgba32F::new(0.5, 0.0, 0.0, 1.0));
    set(&mut buf, 0, 3, Rgba32F::new(0.9, 0.0, 0.0, 1.0));
    let bounds = Rect::new(0, 1, 1, 3); // y=1..3 inclusive
    let flipped = flip_buffer(&buf, FlipAxis::Vertical, bounds);
    // y=1 ↔ y=3.
    assert_eq!(
        flipped.px(IVec2::new(0, 1)),
        Rgba32F::new(0.9, 0.0, 0.0, 1.0)
    );
    assert_eq!(
        flipped.px(IVec2::new(0, 3)),
        Rgba32F::new(0.5, 0.0, 0.0, 1.0)
    );
}

#[test]
fn double_flip_restores_original() {
    let mut buf = TiledBuffer::new();
    set(&mut buf, 5, 7, Rgba32F::new(0.4, 0.6, 0.8, 1.0));
    set(&mut buf, 10, 2, Rgba32F::new(0.1, 0.2, 0.3, 1.0));
    let bounds = buf.exact_bounds().unwrap();
    let once = flip_buffer(&buf, FlipAxis::Horizontal, bounds);
    let twice = flip_buffer(&once, FlipAxis::Horizontal, bounds);
    assert!(same_buffer(&twice, &buf), "double horizontal flip is identity");
}

#[test]
fn empty_bounds_yields_empty_buffer() {
    let mut buf = TiledBuffer::new();
    set(&mut buf, 1, 1, Rgba32F::new(1.0, 0.0, 0.0, 1.0));
    let flipped = flip_buffer(&buf, FlipAxis::Horizontal, Rect::new(0, 0, 0, 0));
    assert!(flipped.is_empty());
}

/// Two buffers hold the same tiles.
fn same_buffer(x: &TiledBuffer, y: &TiledBuffer) -> bool {
    let tiles = x.occupied_tiles();
    tiles.len() == y.occupied_tiles().len()
        && tiles.iter().all(|(c, t)| match y.get_tile(*c) {
            Some(u) => (0..256).all(|j| (0..256).all(|i| t.get(i, j) == u.get(i, j))),
            None => false,
        })
}
