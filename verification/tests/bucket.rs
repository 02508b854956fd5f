#![allow(dead_code)]
use ogre_core::Rgba32F as Pixel;
use ogre_core::{
    BinaryOp, DEFAULT_FILL_TOLERANCE, FloatKernel, FloatMath, IVec2, Rect, Selection,
    SelectionKind, TiledBuffer, UnaryOp, WholeOp,
};

/// A pixel with its channels as numbers.
#[derive(Clone, Copy, Debug, PartialEq)]
struct Rgba32F {
    r: f32,
    g: f32,
    b: f32,
    a: f32,
}

impl Rgba32F {
    const TRANSPARENT: Rgba32F = Rgba32F { r: 0.0, g: 0.0, b: 0.0, a: 0.0 };

    fn new(r: f32, g: f32, b: f32, a: f32) -> Self {
        Rgba32F { r, g, b, a }
    }

    fn bits(self) -> Pixel {
        Pixel::new(self.r.to_bits(), self.g.to_bits(), self.b.to_bits(), self.a.to_bits())
    }
}

fn up(p: Pixel) -> Rgba32F {
    Rgba32F::new(f(p.r), f(p.g), f(p.b), f(p.a))
}

fn b(v: f32) -> u32 {
    v.to_bits()
}

fn f(v: u32) -> f32 {
    f32::from_bits(v)
}

/// Pixels as numbers.
trait Pixels {
    fn look(&self, p: IVec2) -> Rgba32F;
    fn put(&mut self, p: IVec2, c: Rgba32F);
}

impl Pixels for TiledBuffer {
    fn look(&self, p: IVec2) -> Rgba32F {
        up(self.get_pixel(p))
    }

    fn put(&mut self, p: IVec2, c: Rgba32F) {
        self.set_pixel(p, c.bits());
    }
}

type Math = FloatMath<
    fn(BinaryOp, u32, u32) -> u32,
    fn(UnaryOp, u32) -> u32,
    fn(WholeOp, u32) -> i32,
    fn(&Vec<u32>) -> u32,
>;

fn binary(op: BinaryOp, x: u32, y: u32) -> u32 {
    let (x, y) = (f32::from_bits(x), f32::from_bits(y));
    let r = match op {
        BinaryOp::Add => x + y,
        BinaryOp::Sub => x - y,
        BinaryOp::Mul => x * y,
        BinaryOp::Div => x / y,
        BinaryOp::Pow => x.powf(y),
        BinaryOp::RemEuclid => x.rem_euclid(y),
        BinaryOp::Atan2 => x.atan2(y),
    };
    r.to_bits()
}

fn unary(op: UnaryOp, x: u32) -> u32 {
    let x = f32::from_bits(x);
    let r = match op {
        UnaryOp::Sqrt => x.sqrt(),
        UnaryOp::Round => x.round(),
    };
    r.to_bits()
}

fn whole(op: WholeOp, x: u32) -> i32 {
    let x = f32::from_bits(x);
    match op {
        WholeOp::Floor => x.floor() as i32,
        WholeOp::Ceil => x.ceil() as i32,
    }
}

fn mean(numbers: &Vec<u32>) -> u32 {
    let sum: f64 = numbers.iter().map(|n| f32::from_bits(*n) as f64).sum();
    ((sum / numbers.len() as f64) as f32).to_bits()
}

fn math() -> Math {
    FloatMath { binary, unary, whole, mean }
}

fn kern() -> FloatKernel<Math> {
    FloatKernel { math: math() }
}

fn px(r: f32, g: f32, b: f32, a: f32) -> Rgba32F {
    Rgba32F::new(r, g, b, a)
}

/// A `w`×`h` buffer filled with `color` at local origin.
fn filled(w: i32, h: i32, color: Rgba32F) -> TiledBuffer {
    let mut buf = TiledBuffer::new();
    for y in 0..h {
        for x in 0..w {
            buf.put(IVec2::new(x, y), color);
        }
    }
    buf
}

fn apply(source: &TiledBuffer, writes: &[(IVec2, Rgba32F)]) -> TiledBuffer {
    let mut out = source.clone();
    for (p, c) in writes {
        out.put(*p, *c);
    }
    out
}

#[test]
fn fill_selection_with_no_selection_fills_canvas() {
    let white = px(1.0, 1.0, 1.0, 1.0);
    let buf = filled(8, 8, white);
    let red = px(1.0, 0.0, 0.0, 1.0);
    let writes = fill_selection(
        &buf,
        IVec2::zero(),
        red,
        1.0,
        &Selection::none(),
        Rect::new(0, 0, 8, 8),
    );
    let out = apply(&buf, &writes);
    // Every pixel becomes red.
    assert_eq!(out.look(IVec2::new(0, 0)), red);
    assert_eq!(out.look(IVec2::new(7, 7)), red);
}

#[test]
fn fill_selection_clipped_to_rect() {
    let white = px(1.0, 1.0, 1.0, 1.0);
    let buf = filled(16, 16, white);
    let red = px(1.0, 0.0, 0.0, 1.0);
    let sel = Selection::rect(Rect::new(2, 2, 4, 4));
    let writes = fill_selection(&buf, IVec2::zero(), red, 1.0, &sel, Rect::new(0, 0, 16, 16));
    let out = apply(&buf, &writes);
    // Inside the selection: red.
    assert_eq!(out.look(IVec2::new(3, 3)), red);
    assert_eq!(out.look(IVec2::new(5, 5)), red);
    // Outside: unchanged.
    assert_eq!(out.look(IVec2::new(0, 0)), white);
    assert_eq!(out.look(IVec2::new(10, 10)), white);
    // Writes only touched the selection footprint.
    assert_eq!(writes.len(), 16);
}

#[test]
fn fill_selection_respects_offset() {
    let white = px(1.0, 1.0, 1.0, 1.0);
    let buf = filled(16, 16, white);
    let red = px(1.0, 0.0, 0.0, 1.0);
    // Document-space selection; layer offset (5, 0) → local coords shift.
    let sel = Selection::rect(Rect::new(5, 0, 2, 2));
    let writes = fill_selection(
        &buf,
        IVec2::new(5, 0),
        red,
        1.0,
        &sel,
        Rect::new(0, 0, 16, 16),
    );
    let out = apply(&buf, &writes);
    // Local (0,0) ↔ doc (5,0): filled.
    assert_eq!(out.look(IVec2::new(0, 0)), red);
    // Local (1,1) ↔ doc (6,1): filled.
    assert_eq!(out.look(IVec2::new(1, 1)), red);
    // Local (2,0) ↔ doc (7,0): outside selection, unchanged.
    assert_eq!(out.look(IVec2::new(2, 0)), white);
}

#[test]
fn stroke_selection_rect_draws_only_border() {
    let white = px(1.0, 1.0, 1.0, 1.0);
    let buf = filled(8, 8, white);
    let red = px(1.0, 0.0, 0.0, 1.0);
    // 6×6 rect at (1,1); stroke width 2 → half=1 → border is 1px wide.
    let sel = Selection::rect(Rect::new(1, 1, 6, 6));
    let writes = stroke_selection(
        &buf,
        IVec2::zero(),
        red,
        2.0,
        1.0,
        &sel,
        Rect::new(0, 0, 8, 8),
    );
    let out = apply(&buf, &writes);
    // Border pixels (edges of the rect) are stroked red.
    assert_eq!(out.look(IVec2::new(1, 1)), red); // corner
    assert_eq!(out.look(IVec2::new(6, 6)), red); // opposite corner
    assert_eq!(out.look(IVec2::new(3, 1)), red); // top edge
                                                      // Interior pixel is unchanged.
    assert_eq!(out.look(IVec2::new(3, 3)), white);
}

#[test]
fn stroke_selection_non_rect_is_no_op() {
    let buf = filled(8, 8, px(1.0, 1.0, 1.0, 1.0));
    // A Mask selection (not Rect) → stroke is a no-op for v1.
    let sel = Selection {
        kind: SelectionKind::Mask {
            coverage: TiledBuffer::new(),
            bounds: Rect::new(0, 0, 4, 4),
        },
    };
    let writes = stroke_selection(
        &buf,
        IVec2::zero(),
        px(1.0, 0.0, 0.0, 1.0),
        2.0,
        1.0,
        &sel,
        Rect::new(0, 0, 8, 8),
    );
    assert!(writes.is_empty(), "non-Rect selections are deferred");
}

#[test]
fn interior_fills_with_foreground() {
    let white = px(1.0, 1.0, 1.0, 1.0);
    let buf = filled(16, 16, white);
    let fg = px(1.0, 0.0, 0.0, 1.0);
    let canvas = Rect::new(0, 0, 16, 16);
    let writes = fill_region(
        &buf,
        IVec2::zero(),
        IVec2::new(8, 8),
        fg,
        f(DEFAULT_FILL_TOLERANCE),
        &Selection::none(),
        canvas,
    );
    let out = apply(&buf, &writes);
    // The whole flat region becomes the foreground color.
    assert_eq!(out.look(IVec2::new(8, 8)), fg);
    assert_eq!(out.look(IVec2::new(0, 0)), fg);
    assert_eq!(out.look(IVec2::new(15, 15)), fg);
}

#[test]
fn disconnected_same_color_is_not_filled() {
    let white = px(1.0, 1.0, 1.0, 1.0);
    let mut buf = filled(40, 16, white);
    // A wall of red splits the canvas into two white halves.
    for y in 0..16 {
        buf.put(IVec2::new(20, y), px(1.0, 0.0, 0.0, 1.0));
    }
    let fg = px(0.0, 0.0, 1.0, 1.0);
    let canvas = Rect::new(0, 0, 40, 16);
    let writes = fill_region(
        &buf,
        IVec2::zero(),
        IVec2::new(5, 8),
        fg,
        f(DEFAULT_FILL_TOLERANCE),
        &Selection::none(),
        canvas,
    );
    let out = apply(&buf, &writes);
    assert_eq!(out.look(IVec2::new(5, 8)), fg); // clicked half filled
    assert_eq!(out.look(IVec2::new(30, 8)), white); // far half untouched
    assert_eq!(out.look(IVec2::new(20, 8)), px(1.0, 0.0, 0.0, 1.0)); // wall intact
}

#[test]
fn transparent_area_fills_up_to_opaque_content() {
    // Empty (transparent) canvas with an opaque square in the middle.
    let mut buf = TiledBuffer::new();
    let canvas = Rect::new(0, 0, 20, 20);
    for y in 8..12 {
        for x in 8..12 {
            buf.put(IVec2::new(x, y), px(0.0, 0.0, 0.0, 1.0));
        }
    }
    let fg = px(0.0, 1.0, 0.0, 1.0);
    let writes = fill_region(
        &buf,
        IVec2::zero(),
        IVec2::new(0, 0), // click the transparent corner
        fg,
        f(DEFAULT_FILL_TOLERANCE),
        &Selection::none(),
        canvas,
    );
    let out = apply(&buf, &writes);
    assert_eq!(out.look(IVec2::new(0, 0)), fg); // transparent filled
    assert_eq!(out.look(IVec2::new(19, 19)), fg); // connected corner filled
    assert_eq!(out.look(IVec2::new(9, 9)), px(0.0, 0.0, 0.0, 1.0)); // opaque kept
}

#[test]
fn seed_outside_canvas_is_empty() {
    let buf = filled(16, 16, px(1.0, 1.0, 1.0, 1.0));
    let writes = fill_region(
        &buf,
        IVec2::zero(),
        IVec2::new(100, 100),
        px(1.0, 0.0, 0.0, 1.0),
        f(DEFAULT_FILL_TOLERANCE),
        &Selection::none(),
        Rect::new(0, 0, 16, 16),
    );
    assert!(writes.is_empty());
}

#[test]
fn tolerance_excludes_distinct_colors() {
    let mut buf = filled(16, 16, px(1.0, 1.0, 1.0, 1.0));
    // A distinct blue pixel adjacent to the seed — must not be filled.
    buf.put(IVec2::new(9, 8), px(0.0, 0.0, 1.0, 1.0));
    let fg = px(1.0, 0.0, 0.0, 1.0);
    let writes = fill_region(
        &buf,
        IVec2::zero(),
        IVec2::new(8, 8),
        fg,
        f(DEFAULT_FILL_TOLERANCE),
        &Selection::none(),
        Rect::new(0, 0, 16, 16),
    );
    let out = apply(&buf, &writes);
    assert_eq!(out.look(IVec2::new(8, 8)), fg);
    assert_eq!(out.look(IVec2::new(9, 8)), px(0.0, 0.0, 1.0, 1.0)); // blue kept
}

#[test]
fn anti_aliased_boundary_gets_partial_coverage() {
    // White region with a single mid-grey pixel whose distance to white sits
    // inside the feather band, so it fills with partial alpha (blended), not
    // the full foreground.
    let white = px(1.0, 1.0, 1.0, 1.0);
    let mut buf = filled(16, 16, white);
    let tolerance = 0.6;
    // grey at distance ~0.45*sqrt? pick grey so RGBA distance from white is
    // between inner (0.3) and tolerance (0.6).
    let grey = px(0.8, 0.8, 0.8, 1.0); // dist = sqrt(3*0.04)=~0.346
    buf.put(IVec2::new(9, 8), grey);
    let fg = px(1.0, 0.0, 0.0, 1.0);
    let writes = fill_region(
        &buf,
        IVec2::zero(),
        IVec2::new(8, 8),
        fg,
        tolerance,
        &Selection::none(),
        Rect::new(0, 0, 16, 16),
    );
    let out = apply(&buf, &writes);
    let edge = out.look(IVec2::new(9, 8));
    // Partially filled: not pure foreground, not the original grey.
    assert!(edge.r > 0.8 && edge.r < 1.0, "edge r {}", edge.r);
    assert!(edge.g > 0.0 && edge.g < 0.8, "edge g {}", edge.g);
}

#[test]
fn selection_clips_the_fill() {
    let white = px(1.0, 1.0, 1.0, 1.0);
    let buf = filled(20, 20, white);
    let fg = px(1.0, 0.0, 0.0, 1.0);
    let canvas = Rect::new(0, 0, 20, 20);
    // Only the left 10 columns are selected.
    let selection = Selection::rect(Rect::new(0, 0, 10, 20));
    let writes = fill_region(
        &buf,
        IVec2::zero(),
        IVec2::new(2, 2),
        fg,
        f(DEFAULT_FILL_TOLERANCE),
        &selection,
        canvas,
    );
    let out = apply(&buf, &writes);
    assert_eq!(out.look(IVec2::new(2, 2)), fg); // inside selection filled
    assert_eq!(out.look(IVec2::new(15, 2)), white); // outside selection untouched
}

#[test]
fn negative_tolerance_clamped_fills_only_exact() {
    let white = px(1.0, 1.0, 1.0, 1.0);
    let mut buf = filled(8, 8, white);
    buf.put(IVec2::new(4, 4), px(0.9, 0.9, 0.9, 1.0));
    let writes = fill_region(
        &buf,
        IVec2::zero(),
        IVec2::new(0, 0),
        px(1.0, 0.0, 0.0, 1.0),
        -5.0,
        &Selection::none(),
        Rect::new(0, 0, 8, 8),
    );
    let out = apply(&buf, &writes);
    // Exact-white pixels fill; the off-white pixel does not.
    assert_eq!(out.look(IVec2::new(0, 0)), px(1.0, 0.0, 0.0, 1.0));
    assert_eq!(out.look(IVec2::new(4, 4)), px(0.9, 0.9, 0.9, 1.0));
}

fn numbers(writes: Vec<(IVec2, Pixel)>) -> Vec<(IVec2, Rgba32F)> {
    writes.into_iter().map(|(p, c)| (p, up(c))).collect()
}

fn fill_region(
    source: &TiledBuffer,
    offset: IVec2,
    seed: IVec2,
    color: Rgba32F,
    tolerance: f32,
    selection: &Selection,
    canvas: Rect,
) -> Vec<(IVec2, Rgba32F)> {
    numbers(ogre_core::fill_region(
        &kern(),
        &math(),
        source,
        offset,
        seed,
        color.bits(),
        b(tolerance),
        selection,
        canvas,
    ))
}

fn fill_selection(
    source: &TiledBuffer,
    offset: IVec2,
    color: Rgba32F,
    opacity: f32,
    selection: &Selection,
    canvas: Rect,
) -> Vec<(IVec2, Rgba32F)> {
    numbers(ogre_core::fill_selection(
        &kern(),
        source,
        offset,
        color.bits(),
        b(opacity),
        selection,
        canvas,
    ))
}

fn stroke_selection(
    source: &TiledBuffer,
    offset: IVec2,
    color: Rgba32F,
    width: f32,
    opacity: f32,
    selection: &Selection,
    canvas: Rect,
) -> Vec<(IVec2, Rgba32F)> {
    numbers(ogre_core::stroke_selection(
        &kern(),
        source,
        offset,
        color.bits(),
        b(width),
        b(opacity),
        selection,
        canvas,
    ))
}

#[test]
fn stroke_of_an_empty_rect_writes_nothing() {
    let buf = filled(4, 4, px(1.0, 1.0, 1.0, 1.0));
    let sel = Selection::rect(Rect::new(1, 1, 0, 2));
    let red = px(1.0, 0.0, 0.0, 1.0);
    let writes =
        stroke_selection(&buf, IVec2::zero(), red, 2.0, 1.0, &sel, Rect::new(0, 0, 4, 4));
    assert!(writes.is_empty());
}
