#![allow(dead_code)]
use ogre_core::Rgba32F as Pixel;
use ogre_core::{
    BinaryOp, Document, FloatKernel, FloatMath, IVec2, Layer, LayerId, OgreError, Rect, Selection,
    SelectionKind, TiledBuffer, UnaryOp, WholeOp,
};

/// A pixel with its channels as numbers.
#[derive(Clone, Copy, Debug, PartialEq)]
struct Rgba32F {
    r: f32,
    g: f32,
    b: f32,
    a: f32,
}

impl Rgba32F {
    const TRANSPARENT: Rgba32F = Rgba32F { r: 0.0, g: 0.0, b: 0.0, a: 0.0 };

    fn new(r: f32, g: f32, b: f32, a: f32) -> Self {
        Rgba32F { r, g, b, a }
    }

    fn bits(self) -> Pixel {
        Pixel::new(self.r.to_bits(), self.g.to_bits(), self.b.to_bits(), self.a.to_bits())
    }
}

fn up(p: Pixel) -> Rgba32F {
    Rgba32F::new(f(p.r), f(p.g), f(p.b), f(p.a))
}

fn b(v: f32) -> u32 {
    v.to_bits()
}

fn f(v: u32) -> f32 {
    f32::from_bits(v)
}

/// Pixels as numbers.
trait Pixels {
    fn px(&self, p: IVec2) -> Rgba32F;
    fn put(&mut self, p: IVec2, c: Rgba32F);
    fn rect(&self, r: Rect) -> Vec<Rgba32F>;
}

impl Pixels for TiledBuffer {
    fn px(&self, p: IVec2) -> Rgba32F {
        up(self.get_pixel(p))
    }

    fn put(&mut self, p: IVec2, c: Rgba32F) {
        self.set_pixel(p, c.bits());
    }

    fn rect(&self, r: Rect) -> Vec<Rgba32F> {
        self.read_rect(r).into_iter().map(up).collect()
    }
}

type Math = FloatMath<
    fn(BinaryOp, u32, u32) -> u32,
    fn(UnaryOp, u32) -> u32,
    fn(WholeOp, u32) -> i32,
    fn(&Vec<u32>) -> u32,
>;

fn binary(op: BinaryOp, x: u32, y: u32) -> u32 {
    let (x, y) = (f32::from_bits(x), f32::from_bits(y));
    let r = match op {
        BinaryOp::Add => x + y,
        BinaryOp::Sub => x - y,
        BinaryOp::Mul => x * y,
        BinaryOp::Div => x / y,
        BinaryOp::Pow => x.powf(y),
        BinaryOp::RemEuclid => x.rem_euclid(y),
        BinaryOp::Atan2 => x.atan2(y),
    };
    r.to_bits()
}

fn unary(op: UnaryOp, x: u32) -> u32 {
    let x = f32::from_bits(x);
    let r = match op {
        UnaryOp::Sqrt => x.sqrt(),
        UnaryOp::Round => x.round(),
    };
    r.to_bits()
}

fn whole(op: WholeOp, x: u32) -> i32 {
    let x = f32::from_bits(x);
    match op {
        WholeOp::Floor => x.floor() as i32,
        WholeOp::Ceil => x.ceil() as i32,
    }
}

fn mean(numbers: &Vec<u32>) -> u32 {
    let sum: f64 = numbers.iter().map(|n| f32::from_bits(*n) as f64).sum();
    ((sum / numbers.len() as f64) as f32).to_bits()
}

fn math() -> Math {
    FloatMath { binary, unary, whole, mean }
}

fn kern() -> FloatKernel<Math> {
    FloatKernel { math: math() }
}

// Extract selection

#[test]
fn erase_selection_from_buffer_clears_selected_pixels() {
    let mut source = TiledBuffer::new();
    source.put(IVec2::new(5, 5), Rgba32F::new(0.2, 0.4, 0.9, 1.0));
    source.put(IVec2::new(50, 50), Rgba32F::new(0.1, 0.2, 0.3, 1.0));

    let sel = Selection::rect(Rect::new(0, 0, 10, 10));
    let out = erase_selection_from_buffer(&source, IVec2::zero(), &sel);

    // Pixel inside the selection is erased; the one outside is untouched.
    assert_eq!(out.px(IVec2::new(5, 5)), Rgba32F::TRANSPARENT);
    assert_eq!(
        out.px(IVec2::new(50, 50)),
        Rgba32F::new(0.1, 0.2, 0.3, 1.0)
    );
    // The source is not mutated.
    assert_eq!(
        source.px(IVec2::new(5, 5)),
        Rgba32F::new(0.2, 0.4, 0.9, 1.0)
    );
}

#[test]
fn extract_rect_selection_copies_covered_pixels_to_doc_coords() {
    let mut source = TiledBuffer::new();
    source.put(IVec2::new(1000, 700), Rgba32F::new(0.2, 0.4, 0.9, 1.0));
    source.put(IVec2::new(995, 695), Rgba32F::new(0.1, 0.2, 0.3, 0.5));

    let sel = Selection::rect(Rect::new(990, 690, 40, 40));
    let out = extract_selection(&source, IVec2::zero(), &sel);

    assert_eq!(
        out.px(IVec2::new(1000, 700)),
        Rgba32F::new(0.2, 0.4, 0.9, 1.0)
    );
    assert_eq!(
        out.px(IVec2::new(995, 695)),
        Rgba32F::new(0.1, 0.2, 0.3, 0.5)
    );
    assert_eq!(out.px(IVec2::new(989, 700)), Rgba32F::TRANSPARENT);
    assert_eq!(out.px(IVec2::new(1030, 700)), Rgba32F::TRANSPARENT);
}

#[test]
fn extract_with_nonzero_source_offset_preserves_doc_position() {
    let mut source = TiledBuffer::new();
    // The layer is offset so its local (0,0) maps to document (50,50).
    let src_offset = IVec2::new(50, 50);
    source.put(IVec2::new(0, 0), Rgba32F::new(1.0, 0.0, 0.0, 1.0));

    let sel = Selection::rect(Rect::new(45, 45, 20, 20));
    let out = extract_selection(&source, src_offset, &sel);

    // The pixel is at document (50,50), inside the selection.
    assert_eq!(
        out.px(IVec2::new(50, 50)),
        Rgba32F::new(1.0, 0.0, 0.0, 1.0)
    );
    // Local (0,0) of the source must not appear in the output.
    assert_eq!(out.px(IVec2::new(0, 0)), Rgba32F::TRANSPARENT);
}

#[test]
fn extract_partial_coverage_scales_alpha() {
    let mut source = TiledBuffer::new();
    source.put(IVec2::new(5, 5), Rgba32F::new(1.0, 1.0, 1.0, 1.0));

    let mut coverage = TiledBuffer::new();
    coverage.put(IVec2::new(5, 5), Rgba32F::new(0.25, 0.0, 0.0, 0.0));
    let sel = Selection {
        kind: SelectionKind::Mask {
            coverage,
            bounds: Rect::new(0, 0, 10, 10),
        },
    };

    let out = extract_selection(&source, IVec2::zero(), &sel);
    assert_eq!(
        out.px(IVec2::new(5, 5)),
        Rgba32F::new(1.0, 1.0, 1.0, 0.25)
    );
}

#[test]
fn extract_prunes_empty_tiles() {
    let source = TiledBuffer::new();
    let sel = Selection::rect(Rect::new(0, 0, 10, 10));
    let out = extract_selection(&source, IVec2::zero(), &sel);
    assert!(out.is_empty());
}

// Copy to new layer

#[test]
fn copy_to_new_layer_retains_exact_position() {
    let mut doc = Document::new(2000, 1500);
    let src = doc.add_raster_layer("src");
    let target = IVec2::new(1000, 700);
    doc.layer_mut(src)
        .unwrap()
        .buffer_mut()
        .unwrap()
        .put(target, Rgba32F::new(0.2, 0.4, 0.9, 1.0));

    let sel = Selection::rect(Rect::new(990, 690, 40, 40));
    let new = copy_selection_to_new_layer(&mut doc, src, &sel).unwrap();

    let l = doc.layer(new).unwrap();
    assert_eq!(l.offset, IVec2::zero());
    assert_eq!(
        l.buffer().unwrap().px(target),
        Rgba32F::new(0.2, 0.4, 0.9, 1.0)
    );
    assert_eq!(
        doc.layer(src)
            .unwrap()
            .buffer()
            .unwrap()
            .px(target)
            .a,
        1.0
    );
    assert_eq!(doc.active, Some(new));
}

#[test]
fn copy_with_source_offset_still_exact() {
    let mut doc = Document::new(2000, 1500);
    let src = doc.add_raster_layer("src");
    let offset = IVec2::new(500, 300);
    doc.layer_mut(src).unwrap().offset = offset;
    let target = IVec2::new(1000, 700);
    let local = diff(target, offset);
    doc.layer_mut(src)
        .unwrap()
        .buffer_mut()
        .unwrap()
        .put(local, Rgba32F::new(0.2, 0.4, 0.9, 1.0));

    let sel = Selection::rect(Rect::new(990, 690, 40, 40));
    let new = copy_selection_to_new_layer(&mut doc, src, &sel).unwrap();

    let l = doc.layer(new).unwrap();
    assert_eq!(l.offset, IVec2::zero());
    assert_eq!(
        l.buffer().unwrap().px(target),
        Rgba32F::new(0.2, 0.4, 0.9, 1.0)
    );
}

// Cut to new layer

#[test]
fn cut_to_new_layer_clears_source_exactly() {
    let mut doc = Document::new(2000, 1500);
    let src = doc.add_raster_layer("src");
    let target = IVec2::new(1000, 700);
    doc.layer_mut(src)
        .unwrap()
        .buffer_mut()
        .unwrap()
        .put(target, Rgba32F::new(0.2, 0.4, 0.9, 1.0));

    let sel = Selection::rect(Rect::new(990, 690, 40, 40));
    let new = cut_selection_to_new_layer(&mut doc, src, &sel).unwrap();

    let l = doc.layer(new).unwrap();
    assert_eq!(l.offset, IVec2::zero());
    assert_eq!(
        l.buffer().unwrap().px(target),
        Rgba32F::new(0.2, 0.4, 0.9, 1.0)
    );

    assert_eq!(
        doc.layer(src).unwrap().buffer().unwrap().px(target),
        Rgba32F::TRANSPARENT
    );
}

#[test]
fn cut_with_partial_coverage_reduces_source_alpha() {
    let mut doc = Document::new(100, 100);
    let src = doc.add_raster_layer("src");
    doc.layer_mut(src)
        .unwrap()
        .buffer_mut()
        .unwrap()
        .put(IVec2::new(5, 5), Rgba32F::new(1.0, 0.0, 0.0, 1.0));

    let mut coverage = TiledBuffer::new();
    coverage.put(IVec2::new(5, 5), Rgba32F::new(0.5, 0.0, 0.0, 0.0));
    let sel = Selection {
        kind: SelectionKind::Mask {
            coverage,
            bounds: Rect::new(0, 0, 10, 10),
        },
    };

    let new = cut_selection_to_new_layer(&mut doc, src, &sel).unwrap();
    assert_eq!(
        doc.layer(new)
            .unwrap()
            .buffer()
            .unwrap()
            .px(IVec2::new(5, 5)),
        Rgba32F::new(1.0, 0.0, 0.0, 0.5)
    );
    assert_eq!(
        doc.layer(src)
            .unwrap()
            .buffer()
            .unwrap()
            .px(IVec2::new(5, 5)),
        Rgba32F::new(1.0, 0.0, 0.0, 0.5)
    );
}

#[test]
fn cut_with_nonzero_offset_retains_exact_position() {
    let mut doc = Document::new(2000, 1500);
    let src = doc.add_raster_layer("src");
    let offset = IVec2::new(123, -456);
    doc.layer_mut(src).unwrap().offset = offset;

    let target = IVec2::new(1000, 700);
    let local = diff(target, offset);
    doc.layer_mut(src)
        .unwrap()
        .buffer_mut()
        .unwrap()
        .put(local, Rgba32F::new(0.2, 0.4, 0.9, 1.0));

    let sel = Selection::rect(Rect::new(990, 690, 40, 40));
    let new = cut_selection_to_new_layer(&mut doc, src, &sel).unwrap();

    let l = doc.layer(new).unwrap();
    assert_eq!(l.offset, IVec2::zero());
    assert_eq!(
        l.buffer().unwrap().px(target),
        Rgba32F::new(0.2, 0.4, 0.9, 1.0)
    );
    assert_eq!(
        doc.layer(src).unwrap().buffer().unwrap().px(local),
        Rgba32F::TRANSPARENT
    );
}

#[test]
fn cut_with_negative_offset_retains_exact_position() {
    let mut doc = Document::new(2000, 1500);
    let src = doc.add_raster_layer("src");
    let offset = IVec2::new(-200, -100);
    doc.layer_mut(src).unwrap().offset = offset;

    // Target is inside the canvas; the negative offset makes the local
    // coordinate positive.
    let target = IVec2::new(50, 50);
    let local = diff(target, offset);
    doc.layer_mut(src)
        .unwrap()
        .buffer_mut()
        .unwrap()
        .put(local, Rgba32F::new(0.2, 0.4, 0.9, 1.0));

    let sel = Selection::rect(Rect::new(target.x - 5, target.y - 5, 15, 15));
    let new = cut_selection_to_new_layer(&mut doc, src, &sel).unwrap();

    let l = doc.layer(new).unwrap();
    assert_eq!(l.offset, IVec2::zero());
    assert_eq!(
        l.buffer().unwrap().px(target),
        Rgba32F::new(0.2, 0.4, 0.9, 1.0)
    );
    assert_eq!(
        doc.layer(src).unwrap().buffer().unwrap().px(local),
        Rgba32F::TRANSPARENT
    );
}

#[test]
fn cut_preserves_rgb_outside_unit_range() {
    let mut doc = Document::new(100, 100);
    let src = doc.add_raster_layer("src");
    doc.layer_mut(src)
        .unwrap()
        .buffer_mut()
        .unwrap()
        .put(IVec2::new(5, 5), Rgba32F::new(1.5, -0.5, 2.0, 1.0));

    let mut coverage = TiledBuffer::new();
    coverage.put(IVec2::new(5, 5), Rgba32F::new(0.5, 0.0, 0.0, 0.0));
    let sel = Selection {
        kind: SelectionKind::Mask {
            coverage,
            bounds: Rect::new(0, 0, 10, 10),
        },
    };
    let new = cut_selection_to_new_layer(&mut doc, src, &sel).unwrap();

    let src_px = doc
        .layer(src)
        .unwrap()
        .buffer()
        .unwrap()
        .px(IVec2::new(5, 5));
    assert_eq!(src_px.r, 1.5);
    assert_eq!(src_px.g, -0.5);
    assert_eq!(src_px.b, 2.0);
    assert_eq!(src_px.a, 0.5);

    let new_px = doc
        .layer(new)
        .unwrap()
        .buffer()
        .unwrap()
        .px(IVec2::new(5, 5));
    assert_eq!(new_px.r, 1.5);
    assert_eq!(new_px.g, -0.5);
    assert_eq!(new_px.b, 2.0);
    assert_eq!(new_px.a, 0.5);
}

#[test]
fn cut_near_zero_alpha_retains_pixel() {
    let mut doc = Document::new(100, 100);
    let src = doc.add_raster_layer("src");
    doc.layer_mut(src)
        .unwrap()
        .buffer_mut()
        .unwrap()
        .put(IVec2::new(5, 5), Rgba32F::new(1.5, -0.5, 2.0, 1e-13_f32));

    let mut coverage = TiledBuffer::new();
    coverage.put(IVec2::new(5, 5), Rgba32F::new(0.5, 0.0, 0.0, 0.0));
    let sel = Selection {
        kind: SelectionKind::Mask {
            coverage,
            bounds: Rect::new(0, 0, 10, 10),
        },
    };

    cut_selection_to_new_layer(&mut doc, src, &sel).unwrap();

    let src_px = doc
        .layer(src)
        .unwrap()
        .buffer()
        .unwrap()
        .px(IVec2::new(5, 5));
    assert_eq!(src_px.r, 1.5);
    assert_eq!(src_px.g, -0.5);
    assert_eq!(src_px.b, 2.0);
    assert_eq!(src_px.a, 5e-14_f32);
}

#[test]
fn cut_nan_alpha_treated_as_zero() {
    let mut doc = Document::new(100, 100);
    let src = doc.add_raster_layer("src");
    doc.layer_mut(src)
        .unwrap()
        .buffer_mut()
        .unwrap()
        .put(IVec2::new(5, 5), Rgba32F::new(1.0, 0.5, 0.25, f32::NAN));

    let sel = Selection::rect(Rect::new(0, 0, 10, 10));
    let new = cut_selection_to_new_layer(&mut doc, src, &sel).unwrap();

    assert_eq!(
        doc.layer(src)
            .unwrap()
            .buffer()
            .unwrap()
            .px(IVec2::new(5, 5)),
        Rgba32F::TRANSPARENT
    );
    assert_eq!(
        doc.layer(new)
            .unwrap()
            .buffer()
            .unwrap()
            .px(IVec2::new(5, 5)),
        Rgba32F::TRANSPARENT
    );
}

#[test]
fn extract_does_not_panic_on_overflowing_local_coords() {
    let source = TiledBuffer::new();
    let src_offset = IVec2::new(i32::MIN, i32::MIN);
    let sel = Selection::rect(Rect::new(i32::MAX - 5, i32::MAX - 5, 10, 10));
    let out = extract_selection(&source, src_offset, &sel);
    assert!(out.is_empty());
}

#[test]
fn extract_zero_alpha_becomes_transparent() {
    let mut source = TiledBuffer::new();
    source.put(IVec2::new(5, 5), Rgba32F::new(1.0, 0.0, 0.0, 1.0));

    let mut coverage = TiledBuffer::new();
    coverage.put(IVec2::new(5, 5), Rgba32F::new(0.0, 0.0, 0.0, 0.0));
    let sel = Selection {
        kind: SelectionKind::Mask {
            coverage,
            bounds: Rect::new(0, 0, 10, 10),
        },
    };

    let out = extract_selection(&source, IVec2::zero(), &sel);
    assert_eq!(out.px(IVec2::new(5, 5)), Rgba32F::TRANSPARENT);
}

#[test]
fn extract_preserves_rgb_outside_unit_range() {
    let mut source = TiledBuffer::new();
    source.put(IVec2::new(5, 5), Rgba32F::new(1.5, -0.5, 2.0, 0.5));

    let sel = Selection::rect(Rect::new(0, 0, 10, 10));
    let out = extract_selection(&source, IVec2::zero(), &sel);

    let px = out.px(IVec2::new(5, 5));
    assert_eq!(px.r, 1.5);
    assert_eq!(px.g, -0.5);
    assert_eq!(px.b, 2.0);
    assert_eq!(px.a, 0.5);
}

#[test]
fn extract_near_zero_alpha_retains_pixel() {
    let mut source = TiledBuffer::new();
    source.put(IVec2::new(5, 5), Rgba32F::new(1.5, -0.5, 2.0, 1e-13_f32));

    let mut coverage = TiledBuffer::new();
    coverage.put(IVec2::new(5, 5), Rgba32F::new(0.5, 0.0, 0.0, 0.0));
    let sel = Selection {
        kind: SelectionKind::Mask {
            coverage,
            bounds: Rect::new(0, 0, 10, 10),
        },
    };

    let out = extract_selection(&source, IVec2::zero(), &sel);
    let px = out.px(IVec2::new(5, 5));
    assert_eq!(px.r, 1.5);
    assert_eq!(px.g, -0.5);
    assert_eq!(px.b, 2.0);
    assert_eq!(px.a, 5e-14_f32);
}

#[test]
fn extract_nan_alpha_treated_as_zero() {
    let mut source = TiledBuffer::new();
    source.put(IVec2::new(5, 5), Rgba32F::new(1.0, 0.5, 0.25, f32::NAN));

    let sel = Selection::rect(Rect::new(0, 0, 10, 10));
    let out = extract_selection(&source, IVec2::zero(), &sel);
    assert_eq!(out.px(IVec2::new(5, 5)), Rgba32F::TRANSPARENT);
}

#[test]
fn extract_place_exactness_proptest() {
    let mut state: u64 = 99;
    let mut next = |n: u64| {
        state = state.wrapping_mul(6364136223846793005).wrapping_add(1442695040888963407);
        (state >> 33) % n
    };
    for _ in 0..40 {
        let src_offset = IVec2::new(next(2001) as i32 - 1000, next(2001) as i32 - 1000);
        let target = IVec2::new(next(1001) as i32 - 500, next(1001) as i32 - 500);
        let local = diff(target, src_offset);

        let mut source = TiledBuffer::new();
        source.put(local, Rgba32F::new(0.2, 0.4, 0.9, 1.0));

        let sel = Selection::rect(Rect::new(target.x - 3, target.y - 3, 7, 7));
        let extracted = extract_selection(&source, src_offset, &sel);

        let mut placed = TiledBuffer::new();
        if let Some(bounds) = extracted.bounds() {
            placed.copy_region(&extracted, bounds, IVec2::zero());
        }

        assert_eq!(placed.px(target), Rgba32F::new(0.2, 0.4, 0.9, 1.0));
    }
}

// Edge cases

#[test]
fn copy_empty_selection_errors() {
    let mut doc = Document::new(100, 100);
    let src = doc.add_raster_layer("src");
    assert!(matches!(
        copy_selection_to_new_layer(&mut doc, src, &Selection::none()),
        Err(OgreError::EmptySelection)
    ));
}

#[test]
fn cut_empty_selection_errors() {
    let mut doc = Document::new(100, 100);
    let src = doc.add_raster_layer("src");
    assert!(matches!(
        cut_selection_to_new_layer(&mut doc, src, &Selection::none()),
        Err(OgreError::EmptySelection)
    ));
}

#[test]
fn copy_selection_fully_outside_canvas_errors_empty_selection() {
    let mut doc = Document::new(100, 100);
    let src = doc.add_raster_layer("src");
    doc.layer_mut(src)
        .unwrap()
        .buffer_mut()
        .unwrap()
        .put(IVec2::new(5, 5), Rgba32F::new(1.0, 0.0, 0.0, 1.0));

    // Selection is entirely outside the 100x100 canvas and the source content.
    let sel = Selection::rect(Rect::new(200, 200, 10, 10));
    assert!(matches!(
        copy_selection_to_new_layer(&mut doc, src, &sel),
        Err(OgreError::EmptySelection)
    ));
}

#[test]
fn cut_selection_fully_outside_canvas_errors_empty_selection() {
    let mut doc = Document::new(100, 100);
    let src = doc.add_raster_layer("src");
    doc.layer_mut(src)
        .unwrap()
        .buffer_mut()
        .unwrap()
        .put(IVec2::new(5, 5), Rgba32F::new(1.0, 0.0, 0.0, 1.0));

    let sel = Selection::rect(Rect::new(200, 200, 10, 10));
    assert!(matches!(
        cut_selection_to_new_layer(&mut doc, src, &sel),
        Err(OgreError::EmptySelection)
    ));
}

#[test]
fn copy_from_group_errors() {
    let mut doc = Document::new(100, 100);
    let raster = doc.add_raster_layer("raster");
    let group = Layer::new_group("group");
    let group_id = doc.insert_layer_above(group, raster).unwrap();

    let sel = Selection::rect(Rect::new(0, 0, 10, 10));
    assert!(matches!(
        copy_selection_to_new_layer(&mut doc, group_id, &sel),
        Err(OgreError::NotRaster)
    ));
}

#[test]
fn cut_locked_layer_errors() {
    let mut doc = Document::new(100, 100);
    let src = doc.add_raster_layer("src");
    doc.layer_mut(src).unwrap().locked = true;

    let sel = Selection::rect(Rect::new(0, 0, 10, 10));
    assert!(matches!(
        cut_selection_to_new_layer(&mut doc, src, &sel),
        Err(OgreError::LayerLocked(id)) if id == src
    ));
}

#[test]
fn cut_from_group_errors_before_locked_check_for_groups() {
    let mut doc = Document::new(100, 100);
    let raster = doc.add_raster_layer("raster");
    let group = Layer::new_group("group");
    let group_id = doc.insert_layer_above(group, raster).unwrap();

    let sel = Selection::rect(Rect::new(0, 0, 10, 10));
    assert!(matches!(
        cut_selection_to_new_layer(&mut doc, group_id, &sel),
        Err(OgreError::NotRaster)
    ));
}

#[test]
fn cut_locked_group_returns_layer_locked() {
    let mut doc = Document::new(100, 100);
    let raster = doc.add_raster_layer("raster");
    let mut group = Layer::new_group("group");
    group.locked = true;
    let group_id = doc.insert_layer_above(group, raster).unwrap();

    let sel = Selection::rect(Rect::new(0, 0, 10, 10));
    assert!(matches!(
        cut_selection_to_new_layer(&mut doc, group_id, &sel),
        Err(OgreError::LayerLocked(id)) if id == group_id
    ));
}

#[test]
fn selection_partially_off_canvas_copies_only_on_canvas_pixels() {
    let mut doc = Document::new(100, 100);
    let src = doc.add_raster_layer("src");
    // Place a pixel at the bottom-right edge of the canvas.
    doc.layer_mut(src)
        .unwrap()
        .buffer_mut()
        .unwrap()
        .put(IVec2::new(99, 99), Rgba32F::new(1.0, 0.0, 0.0, 1.0));

    // 10x10 selection straddles the canvas edge; only (99,99) is inside both.
    let sel = Selection::rect(Rect::new(95, 95, 10, 10));
    let new = copy_selection_to_new_layer(&mut doc, src, &sel).unwrap();

    assert_eq!(
        doc.layer(new)
            .unwrap()
            .buffer()
            .unwrap()
            .px(IVec2::new(99, 99)),
        Rgba32F::new(1.0, 0.0, 0.0, 1.0)
    );
    // Off-canvas document coordinate must not materialise in the buffer.
    assert_eq!(
        doc.layer(new)
            .unwrap()
            .buffer()
            .unwrap()
            .px(IVec2::new(105, 105)),
        Rgba32F::TRANSPARENT
    );
}

#[test]
fn cut_selection_partially_off_canvas_clears_only_on_canvas_pixels() {
    let mut doc = Document::new(100, 100);
    let src = doc.add_raster_layer("src");
    // Place a pixel at the bottom-right edge of the canvas.
    doc.layer_mut(src)
        .unwrap()
        .buffer_mut()
        .unwrap()
        .put(IVec2::new(99, 99), Rgba32F::new(1.0, 0.0, 0.0, 1.0));

    // 10x10 selection straddles the canvas edge; only (99,99) is inside both.
    let sel = Selection::rect(Rect::new(95, 95, 10, 10));
    let new = cut_selection_to_new_layer(&mut doc, src, &sel).unwrap();

    assert_eq!(
        doc.layer(new)
            .unwrap()
            .buffer()
            .unwrap()
            .px(IVec2::new(99, 99)),
        Rgba32F::new(1.0, 0.0, 0.0, 1.0)
    );
    assert_eq!(
        doc.layer(src)
            .unwrap()
            .buffer()
            .unwrap()
            .px(IVec2::new(99, 99)),
        Rgba32F::TRANSPARENT
    );
    // Off-canvas document coordinate must not be written back to the source.
    assert_eq!(
        doc.layer(src)
            .unwrap()
            .buffer()
            .unwrap()
            .px(IVec2::new(105, 105)),
        Rgba32F::TRANSPARENT
    );
}

#[test]
fn cut_does_not_panic_on_overflowing_local_coords() {
    let mut doc = Document::new(100, 100);
    let src = doc.add_raster_layer("src");
    doc.layer_mut(src).unwrap().offset = IVec2::new(i32::MIN, i32::MIN);

    // Selection is inside the canvas, but every local coordinate overflows.
    let sel = Selection::rect(Rect::new(0, 0, 10, 10));
    let result = cut_selection_to_new_layer(&mut doc, src, &sel);
    assert!(result.is_ok());
}

fn diff(p: IVec2, q: IVec2) -> IVec2 {
    IVec2::new(p.x - q.x, p.y - q.y)
}

fn extract_selection(source: &TiledBuffer, offset: IVec2, sel: &Selection) -> TiledBuffer {
    ogre_core::extract_selection(&kern(), source, offset, sel)
}

fn erase_selection_from_buffer(
    source: &TiledBuffer,
    offset: IVec2,
    sel: &Selection,
) -> TiledBuffer {
    ogre_core::erase_selection_from_buffer(&kern(), source, offset, sel)
}

fn copy_selection_to_new_layer(
    doc: &mut Document,
    source: LayerId,
    sel: &Selection,
) -> Result<LayerId, OgreError> {
    ogre_core::copy_selection_to_new_layer(&kern(), doc, source, sel)
}

fn cut_selection_to_new_layer(
    doc: &mut Document,
    source: LayerId,
    sel: &Selection,
) -> Result<LayerId, OgreError> {
    ogre_core::cut_selection_to_new_layer(&kern(), doc, source, sel)
}

#[test]
fn copies_of_layers_outside_the_tree_are_kept_without_a_place() {
    for cut in [false, true] {
        let mut doc = Document::new(4, 4);
        let mut layer = Layer::new_raster("loose");
        let red = Rgba32F::new(1.0, 0.0, 0.0, 1.0);
        if let Some(buffer) = layer.buffer_mut() {
            buffer.put(IVec2::new(1, 1), red);
        }
        let source = doc.add_layer(layer);
        let sel = Selection::rect(Rect::new(0, 0, 2, 2));
        let r = if cut {
            cut_selection_to_new_layer(&mut doc, source, &sel)
        } else {
            copy_selection_to_new_layer(&mut doc, source, &sel)
        };
        assert_eq!(r, Err(OgreError::LayerNotFound(source)));
        assert!(doc.order.is_empty());
        // The source is as it was, and a layer with the copy is stored beside it.
        assert_eq!(doc.layer(source).unwrap().buffer().unwrap().px(IVec2::new(1, 1)), red);
        let keys = doc.all_layers().keys();
        assert_eq!(keys.len(), 2);
        for id in keys {
            let layer = doc.layer(id).unwrap();
            assert_eq!(layer.buffer().unwrap().px(IVec2::new(1, 1)), red);
            assert_eq!(layer.name == "loose", id == source);
        }
    }
}
