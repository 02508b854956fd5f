#![allow(dead_code)]
use ogre_core::Rgba32F as Pixel;
use ogre_core::{
    move_layer_by, rasterize_vector_data, rasterize_vector_paths, AddAdjustmentLayerCmd,
    AdjustmentKind, BinaryOp, BlendMode, CurvePoint, Document, FloatKernel, FloatMath, History, IVec2, Layer,
    LayerContent, OgreError, Rect, SetAdjustmentCmd, StrokeCap, StrokeJoin, TiledBuffer, UnaryOp,
    VectorData, VectorFill, VectorPath, VectorStroke, WholeOp,
};

/// A pixel with its channels as numbers.
#[derive(Clone, Copy, Debug, PartialEq)]
struct Rgba32F {
    r: f32,
    g: f32,
    b: f32,
    a: f32,
}

impl Rgba32F {
    const TRANSPARENT: Rgba32F = Rgba32F { r: 0.0, g: 0.0, b: 0.0, a: 0.0 };

    fn new(r: f32, g: f32, b: f32, a: f32) -> Self {
        Rgba32F { r, g, b, a }
    }

    fn bits(self) -> Pixel {
        Pixel::new(self.r.to_bits(), self.g.to_bits(), self.b.to_bits(), self.a.to_bits())
    }
}

fn up(p: Pixel) -> Rgba32F {
    Rgba32F::new(f(p.r), f(p.g), f(p.b), f(p.a))
}

fn b(v: f32) -> u32 {
    v.to_bits()
}

fn f(v: u32) -> f32 {
    f32::from_bits(v)
}

/// Pixels as numbers.
trait Pixels {
    fn px(&self, p: IVec2) -> Rgba32F;
    fn put(&mut self, p: IVec2, c: Rgba32F);
    fn rect(&self, r: Rect) -> Vec<Rgba32F>;
}

impl Pixels for TiledBuffer {
    fn px(&self, p: IVec2) -> Rgba32F {
        up(self.get_pixel(p))
    }

    fn put(&mut self, p: IVec2, c: Rgba32F) {
        self.set_pixel(p, c.bits());
    }

    fn rect(&self, r: Rect) -> Vec<Rgba32F> {
        self.read_rect(r).into_iter().map(up).collect()
    }
}

type Math = FloatMath<
    fn(BinaryOp, u32, u32) -> u32,
    fn(UnaryOp, u32) -> u32,
    fn(WholeOp, u32) -> i32,
    fn(&Vec<u32>) -> u32,
>;

fn binary(op: BinaryOp, x: u32, y: u32) -> u32 {
    let (x, y) = (f32::from_bits(x), f32::from_bits(y));
    let r = match op {
        BinaryOp::Add => x + y,
        BinaryOp::Sub => x - y,
        BinaryOp::Mul => x * y,
        BinaryOp::Div => x / y,
        BinaryOp::Pow => x.powf(y),
        BinaryOp::RemEuclid => x.rem_euclid(y),
        BinaryOp::Atan2 => x.atan2(y),
    };
    r.to_bits()
}

fn unary(op: UnaryOp, x: u32) -> u32 {
    let x = f32::from_bits(x);
    let r = match op {
        UnaryOp::Sqrt => x.sqrt(),
        UnaryOp::Round => x.round(),
    };
    r.to_bits()
}

fn whole(op: WholeOp, x: u32) -> i32 {
    let x = f32::from_bits(x);
    match op {
        WholeOp::Floor => x.floor() as i32,
        WholeOp::Ceil => x.ceil() as i32,
    }
}

fn mean(numbers: &Vec<u32>) -> u32 {
    let sum: f64 = numbers.iter().map(|n| f32::from_bits(*n) as f64).sum();
    ((sum / numbers.len() as f64) as f32).to_bits()
}

fn math() -> Math {
    FloatMath { binary, unary, whole, mean }
}

fn kern() -> FloatKernel<Math> {
    FloatKernel { math: math() }
}

fn assert_pixel_approx_eq(a: Rgba32F, b: Rgba32F, eps: f32) {
    assert!(
        (a.r - b.r).abs() < eps
            && (a.g - b.g).abs() < eps
            && (a.b - b.b).abs() < eps
            && (a.a - b.a).abs() < eps,
        "{:?} != {:?} within {}",
        a,
        b,
        eps
    );
}

#[test]
fn adjustment_preserves_hidden_rgb_of_fully_transparent_pixel() {
    // The GPU adjustment shader leaves RGB data unchanged when alpha is zero.
    // The CPU reference must match so golden tests remain invariant for all
    // inputs, including pixels with hidden RGB data.
    let hidden = Rgba32F::new(0.2, 0.4, 0.6, 0.0);
    let out = apply_adjustment_pixel(&AdjustmentKind::Invert, 1.0, hidden);
    assert_pixel_approx_eq(out, hidden, 1e-5);
}

#[test]
fn red_opaque_under_half_blue_is_porter_duff_over() {
    let red = Rgba32F::new(1.0, 0.0, 0.0, 1.0);
    let blue = Rgba32F::new(0.0, 0.0, 1.0, 0.5);

    // Blue over an opaque red background: Porter-Duff "over" mixes the
    // source with the destination according to the source alpha.
    let over_red = blend_pixel(BlendMode::Normal, red, blue, 1.0);
    assert_pixel_approx_eq(over_red, Rgba32F::new(0.5, 0.0, 0.5, 1.0), 1e-5);

    // Blue over a transparent background: the result is just the source.
    let over_clear = blend_pixel(BlendMode::Normal, Rgba32F::TRANSPARENT, blue, 1.0);
    assert_pixel_approx_eq(over_clear, Rgba32F::new(0.0, 0.0, 1.0, 0.5), 1e-5);
}

#[test]
fn each_blend_mode_matches_hand_computed_value() {
    let dst = Rgba32F::new(0.5, 0.25, 0.75, 1.0);
    let src = Rgba32F::new(0.25, 0.75, 0.5, 0.5);

    // With dst_alpha == 1.0, the over formula reduces to:
    // result = dst * (1 - src_a) + src_a * blend(dst, src)
    let cases: &[(BlendMode, Rgba32F)] = &[
        (BlendMode::Normal, Rgba32F::new(0.375, 0.5, 0.625, 1.0)),
        (
            BlendMode::Multiply,
            Rgba32F::new(0.3125, 0.21875, 0.5625, 1.0),
        ),
        (
            BlendMode::Screen,
            Rgba32F::new(0.5625, 0.53125, 0.8125, 1.0),
        ),
        (BlendMode::Overlay, Rgba32F::new(0.375, 0.3125, 0.75, 1.0)),
        (BlendMode::Darken, Rgba32F::new(0.375, 0.25, 0.625, 1.0)),
        (BlendMode::Lighten, Rgba32F::new(0.5, 0.5, 0.75, 1.0)),
        (
            BlendMode::ColorDodge,
            Rgba32F::new(0.5833333, 0.625, 0.875, 1.0),
        ),
        (BlendMode::ColorBurn, Rgba32F::new(0.25, 0.125, 0.625, 1.0)),
        (BlendMode::HardLight, Rgba32F::new(0.375, 0.4375, 0.75, 1.0)),
        (
            BlendMode::SoftLight,
            Rgba32F::new(0.4375, 0.3125, 0.75, 1.0),
        ),
        (BlendMode::Difference, Rgba32F::new(0.375, 0.375, 0.5, 1.0)),
        (BlendMode::Exclusion, Rgba32F::new(0.5, 0.4375, 0.625, 1.0)),
        (BlendMode::Add, Rgba32F::new(0.625, 0.625, 1.0, 1.0)),
    ];

    for (mode, expected) in cases {
        let actual = blend_pixel(*mode, dst, src, 1.0);
        assert_pixel_approx_eq(actual, *expected, 1e-5);
    }
}

#[test]
fn invisible_and_zero_opacity_layers_contribute_nothing() {
    let mut doc = Document::new(10, 10);
    let bg = doc.add_raster_layer("bg");
    doc.layer_mut(bg)
        .unwrap()
        .buffer_mut()
        .unwrap()
        .put(IVec2::new(5, 5), Rgba32F::new(1.0, 0.0, 0.0, 1.0));

    let hidden = doc.add_raster_layer("hidden");
    doc.layer_mut(hidden).unwrap().visible = false;
    doc.layer_mut(hidden)
        .unwrap()
        .buffer_mut()
        .unwrap()
        .put(IVec2::new(5, 5), Rgba32F::new(0.0, 1.0, 0.0, 1.0));

    let transparent = doc.add_raster_layer("transparent");
    doc.layer_mut(transparent).unwrap().opacity = b(0.0);
    doc.layer_mut(transparent)
        .unwrap()
        .buffer_mut()
        .unwrap()
        .put(IVec2::new(5, 5), Rgba32F::new(0.0, 0.0, 1.0, 1.0));

    let result = composite_document(&doc, Rect::new(5, 5, 1, 1)).unwrap();
    assert_eq!(result[0], Rgba32F::new(1.0, 0.0, 0.0, 1.0));
}

#[test]
fn composite_document_respects_layer_offset() {
    let mut doc = Document::new(20, 20);
    let id = doc.add_raster_layer("L");
    doc.layer_mut(id).unwrap().offset = IVec2::new(5, 5);
    doc.layer_mut(id)
        .unwrap()
        .buffer_mut()
        .unwrap()
        .put(IVec2::new(0, 0), Rgba32F::new(0.0, 1.0, 0.0, 1.0));

    let result = composite_document(&doc, Rect::new(5, 5, 1, 1)).unwrap();
    assert_eq!(result[0], Rgba32F::new(0.0, 1.0, 0.0, 1.0));

    let outside = composite_document(&doc, Rect::new(0, 0, 1, 1)).unwrap();
    assert_eq!(outside[0], Rgba32F::TRANSPARENT);
}

#[test]
fn composite_document_respects_layer_opacity() {
    let mut doc = Document::new(10, 10);
    let bg = doc.add_raster_layer("bg");
    doc.layer_mut(bg)
        .unwrap()
        .buffer_mut()
        .unwrap()
        .put(IVec2::new(3, 3), Rgba32F::new(1.0, 0.0, 0.0, 1.0));

    let fg = doc.add_raster_layer("fg");
    doc.layer_mut(fg).unwrap().opacity = b(0.5);
    doc.layer_mut(fg)
        .unwrap()
        .buffer_mut()
        .unwrap()
        .put(IVec2::new(3, 3), Rgba32F::new(0.0, 0.0, 1.0, 1.0));

    let result = composite_document(&doc, Rect::new(3, 3, 1, 1)).unwrap()[0];
    let expected = blend_pixel(
        BlendMode::Normal,
        Rgba32F::new(1.0, 0.0, 0.0, 1.0),
        Rgba32F::new(0.0, 0.0, 1.0, 1.0),
        0.5,
    );
    assert_pixel_approx_eq(result, expected, 1e-5);
}

#[test]
fn group_composites_children_then_applies_group_opacity() {
    let mut doc = Document::new(10, 10);
    let bg = doc.add_raster_layer("bg");
    doc.layer_mut(bg)
        .unwrap()
        .buffer_mut()
        .unwrap()
        .put(IVec2::new(5, 5), Rgba32F::new(1.0, 0.0, 0.0, 1.0));

    let group = Layer::new_group("group");
    let group_id = doc.insert_layer_above(group, bg).unwrap();
    doc.layer_mut(group_id).unwrap().opacity = b(0.5);

    let child = doc.add_raster_layer("child");
    doc.move_into_group(child, group_id, 0).unwrap();
    doc.layer_mut(child)
        .unwrap()
        .buffer_mut()
        .unwrap()
        .put(IVec2::new(5, 5), Rgba32F::new(0.0, 0.0, 1.0, 1.0));

    // Without the group opacity, the child blue would fully replace the red
    // background at this pixel. With group opacity 0.5 the result is 50%
    // blended.
    let result = composite_document(&doc, Rect::new(5, 5, 1, 1)).unwrap()[0];
    let expected = blend_pixel(
        BlendMode::Normal,
        Rgba32F::new(1.0, 0.0, 0.0, 1.0),
        Rgba32F::new(0.0, 0.0, 1.0, 1.0),
        0.5,
    );
    assert_pixel_approx_eq(result, expected, 1e-5);
}

#[test]
fn invisible_group_skips_children() {
    let mut doc = Document::new(10, 10);
    let bg = doc.add_raster_layer("bg");
    doc.layer_mut(bg)
        .unwrap()
        .buffer_mut()
        .unwrap()
        .put(IVec2::new(5, 5), Rgba32F::new(1.0, 0.0, 0.0, 1.0));

    let group = Layer::new_group("group");
    let group_id = doc.insert_layer_above(group, bg).unwrap();
    doc.layer_mut(group_id).unwrap().visible = false;

    let child = doc.add_raster_layer("child");
    doc.move_into_group(child, group_id, 0).unwrap();
    doc.layer_mut(child)
        .unwrap()
        .buffer_mut()
        .unwrap()
        .put(IVec2::new(5, 5), Rgba32F::new(0.0, 1.0, 0.0, 1.0));

    let result = composite_document(&doc, Rect::new(5, 5, 1, 1)).unwrap();
    assert_eq!(result[0], Rgba32F::new(1.0, 0.0, 0.0, 1.0));
}

#[test]
fn empty_region_returns_empty_buffer() {
    let doc = Document::new(10, 10);
    assert!(composite_document(&doc, Rect::new(0, 0, 0, 10))
        .unwrap()
        .is_empty());
}

#[test]
fn soft_light_of_dark_channels_follows_the_polynomial() {
    let dst = Rgba32F::new(0.125, 0.25, 0.5625, 1.0);
    let src = Rgba32F::new(1.0, 1.0, 1.0, 1.0);
    let out = blend_pixel(BlendMode::SoftLight, dst, src, 1.0);
    assert_pixel_approx_eq(out, Rgba32F::new(0.34375, 0.5, 0.75, 1.0), 1e-5);
}

#[test]
fn blend_pixel_with_nan_opacity_treats_as_zero() {
    let result = blend_pixel(
        BlendMode::Normal,
        Rgba32F::new(1.0, 0.0, 0.0, 1.0),
        Rgba32F::new(0.0, 0.0, 1.0, 1.0),
        f32::NAN,
    );
    assert_eq!(result, Rgba32F::new(1.0, 0.0, 0.0, 1.0));
}

#[test]
fn blend_pixel_with_zero_alpha_dst_returns_source_scaled() {
    let result = blend_pixel(
        BlendMode::Normal,
        Rgba32F::TRANSPARENT,
        Rgba32F::new(0.2, 0.4, 0.6, 0.5),
        1.0,
    );
    assert_pixel_approx_eq(result, Rgba32F::new(0.2, 0.4, 0.6, 0.5), 1e-5);
}

#[test]
fn group_with_non_normal_blend_mode() {
    let mut doc = Document::new(10, 10);
    let bg = doc.add_raster_layer("bg");
    doc.layer_mut(bg)
        .unwrap()
        .buffer_mut()
        .unwrap()
        .put(IVec2::new(5, 5), Rgba32F::new(1.0, 0.0, 0.0, 1.0));

    let group = Layer::new_group("group");
    let group_id = doc.insert_layer_above(group, bg).unwrap();
    doc.layer_mut(group_id).unwrap().blend = BlendMode::Multiply;

    let child = doc.add_raster_layer("child");
    doc.move_into_group(child, group_id, 0).unwrap();
    doc.layer_mut(child)
        .unwrap()
        .buffer_mut()
        .unwrap()
        .put(IVec2::new(5, 5), Rgba32F::new(0.0, 1.0, 0.0, 1.0));

    let result = composite_document(&doc, Rect::new(5, 5, 1, 1)).unwrap()[0];
    let expected = blend_pixel(
        BlendMode::Multiply,
        Rgba32F::new(1.0, 0.0, 0.0, 1.0),
        Rgba32F::new(0.0, 1.0, 0.0, 1.0),
        1.0,
    );
    assert_pixel_approx_eq(result, expected, 1e-5);
}

#[test]
fn nested_group_composites_children() {
    let mut doc = Document::new(10, 10);
    let bg = doc.add_raster_layer("bg");
    doc.layer_mut(bg)
        .unwrap()
        .buffer_mut()
        .unwrap()
        .put(IVec2::new(5, 5), Rgba32F::new(1.0, 0.0, 0.0, 1.0));

    let outer = Layer::new_group("outer");
    let outer_id = doc.insert_layer_above(outer, bg).unwrap();
    doc.layer_mut(outer_id).unwrap().opacity = b(0.5);

    let inner = Layer::new_group("inner");
    let inner_id = doc.insert_layer_above(inner, outer_id).unwrap();
    doc.move_into_group(inner_id, outer_id, 0).unwrap();

    let child = doc.add_raster_layer("child");
    doc.move_into_group(child, inner_id, 0).unwrap();
    doc.layer_mut(child)
        .unwrap()
        .buffer_mut()
        .unwrap()
        .put(IVec2::new(5, 5), Rgba32F::new(0.0, 0.0, 1.0, 1.0));

    let result = composite_document(&doc, Rect::new(5, 5, 1, 1)).unwrap()[0];
    let expected = blend_pixel(
        BlendMode::Normal,
        Rgba32F::new(1.0, 0.0, 0.0, 1.0),
        Rgba32F::new(0.0, 0.0, 1.0, 1.0),
        0.5,
    );
    assert_pixel_approx_eq(result, expected, 1e-5);
}

#[test]
fn zero_opacity_group_contributes_nothing() {
    let mut doc = Document::new(10, 10);
    let bg = doc.add_raster_layer("bg");
    doc.layer_mut(bg)
        .unwrap()
        .buffer_mut()
        .unwrap()
        .put(IVec2::new(5, 5), Rgba32F::new(1.0, 0.0, 0.0, 1.0));

    let group = Layer::new_group("group");
    let group_id = doc.insert_layer_above(group, bg).unwrap();
    doc.layer_mut(group_id).unwrap().opacity = b(0.0);

    let child = doc.add_raster_layer("child");
    doc.move_into_group(child, group_id, 0).unwrap();
    doc.layer_mut(child)
        .unwrap()
        .buffer_mut()
        .unwrap()
        .put(IVec2::new(5, 5), Rgba32F::new(0.0, 1.0, 0.0, 1.0));

    let result = composite_document(&doc, Rect::new(5, 5, 1, 1)).unwrap();
    assert_eq!(result[0], Rgba32F::new(1.0, 0.0, 0.0, 1.0));
}

#[test]
fn move_layer_by_on_group_shifts_composited_result() {
    let mut doc = Document::new(50, 50);
    let bg = doc.add_raster_layer("bg");
    doc.layer_mut(bg)
        .unwrap()
        .buffer_mut()
        .unwrap()
        .put(IVec2::new(5, 5), Rgba32F::new(1.0, 0.0, 0.0, 1.0));

    let group = Layer::new_group("group");
    let group_id = doc.insert_layer_above(group, bg).unwrap();
    doc.layer_mut(group_id).unwrap().offset = IVec2::new(5, 5);

    let child = doc.add_raster_layer("child");
    doc.move_into_group(child, group_id, 0).unwrap();
    doc.layer_mut(child)
        .unwrap()
        .buffer_mut()
        .unwrap()
        .put(IVec2::new(0, 0), Rgba32F::new(0.0, 1.0, 0.0, 1.0));

    // Child local (0,0) + group offset (5,5) lands at document (5,5).
    let before = composite_document(&doc, Rect::new(5, 5, 1, 1)).unwrap();
    assert_eq!(before[0], Rgba32F::new(0.0, 1.0, 0.0, 1.0));

    move_layer_by(&mut doc, group_id, IVec2::new(3, 7)).unwrap();
    assert_eq!(doc.layer(group_id).unwrap().offset, IVec2::new(8, 12));

    let after = composite_document(&doc, Rect::new(8, 12, 1, 1)).unwrap();
    assert_eq!(after[0], Rgba32F::new(0.0, 1.0, 0.0, 1.0));

    let old_spot = composite_document(&doc, Rect::new(5, 5, 1, 1)).unwrap();
    assert_eq!(old_spot[0], Rgba32F::new(1.0, 0.0, 0.0, 1.0));
}

#[test]
fn composite_document_extreme_layer_offset_returns_transparent() {
    let mut doc = Document::new(10, 10);
    let id = doc.add_raster_layer("L");
    doc.layer_mut(id).unwrap().offset = IVec2::new(i32::MAX, i32::MAX);
    doc.layer_mut(id)
        .unwrap()
        .buffer_mut()
        .unwrap()
        .put(IVec2::new(0, 0), Rgba32F::new(1.0, 0.0, 0.0, 1.0));

    let result = composite_document(&doc, Rect::new(0, 0, 10, 10)).unwrap();
    assert!(result.iter().all(|p| *p == Rgba32F::TRANSPARENT));
}

#[test]
fn composite_document_extreme_group_offset_returns_transparent() {
    let mut doc = Document::new(10, 10);
    let bg = doc.add_raster_layer("bg");
    doc.layer_mut(bg)
        .unwrap()
        .buffer_mut()
        .unwrap()
        .put(IVec2::new(5, 5), Rgba32F::new(1.0, 0.0, 0.0, 1.0));

    let group = Layer::new_group("group");
    let group_id = doc.insert_layer_above(group, bg).unwrap();
    doc.layer_mut(group_id).unwrap().offset = IVec2::new(i32::MAX, i32::MAX);

    let child = doc.add_raster_layer("child");
    doc.move_into_group(child, group_id, 0).unwrap();
    doc.layer_mut(child)
        .unwrap()
        .buffer_mut()
        .unwrap()
        .put(IVec2::new(0, 0), Rgba32F::new(0.0, 1.0, 0.0, 1.0));

    // The group's children should be transparent, leaving only the background.
    let result = composite_document(&doc, Rect::new(5, 5, 1, 1)).unwrap();
    assert_eq!(result[0], Rgba32F::new(1.0, 0.0, 0.0, 1.0));
}

#[test]
fn composite_document_propagates_cycle_error() {
    let mut doc = Document::new(10, 10);
    let bg = doc.add_raster_layer("bg");
    let parent = Layer::new_group("parent");
    let parent_id = doc.insert_layer_above(parent, bg).unwrap();
    let child = Layer::new_group("child");
    let child_id = doc.insert_layer_above(child, parent_id).unwrap();
    doc.move_into_group(child_id, parent_id, 0).unwrap();

    // Intentionally corrupt the tree to create p -> c -> p.
    doc.layer_mut(child_id).unwrap().content = LayerContent::Group {
        children: vec![parent_id],
    };

    assert!(matches!(
        composite_document(&doc, Rect::new(0, 0, 10, 10)),
        Err(OgreError::InvalidOperation("cycle in layer tree"))
    ));
}

// Adjustment layers

#[test]
fn adjustment_layer_invert_turns_red_to_cyan() {
    let mut doc = Document::new(10, 10);
    let bg = doc.add_raster_layer("bg");
    doc.layer_mut(bg)
        .unwrap()
        .buffer_mut()
        .unwrap()
        .put(IVec2::new(5, 5), Rgba32F::new(1.0, 0.0, 0.0, 1.0));

    doc.add_adjustment_layer("invert", AdjustmentKind::Invert);

    let result = composite_document(&doc, Rect::new(5, 5, 1, 1)).unwrap();
    assert_eq!(result[0], Rgba32F::new(0.0, 1.0, 1.0, 1.0));
}

#[test]
fn adjustment_with_nan_params_does_not_produce_nan() {
    // Adjustment parameters can arrive from a corrupt `.ogre` file. A NaN
    // must not propagate into composited pixels.
    let mut doc = Document::new(4, 4);
    let bg = doc.add_raster_layer("bg");
    for y in 0..4 {
        for x in 0..4 {
            doc.layer_mut(bg)
                .unwrap()
                .buffer_mut()
                .unwrap()
                .put(IVec2::new(x, y), Rgba32F::new(0.5, 0.5, 0.5, 1.0));
        }
    }
    doc.add_adjustment_layer(
        "levels",
        AdjustmentKind::Levels {
            input_black: b(f32::NAN),
            input_white: b(1.0),
            output_black: b(0.0),
            output_white: b(1.0),
            gamma: b(f32::NAN),
        },
    );

    let out = composite_document(&doc, Rect::new(0, 0, 4, 4)).unwrap();
    for px in &out {
        assert!(
            px.r.is_finite() && px.g.is_finite() && px.b.is_finite() && px.a.is_finite(),
            "adjustment must not produce NaN/inf pixels: {px:?}"
        );
    }
}

#[test]
fn adjustment_layer_desaturate_turns_red_to_gray() {
    let mut doc = Document::new(10, 10);
    let bg = doc.add_raster_layer("bg");
    doc.layer_mut(bg)
        .unwrap()
        .buffer_mut()
        .unwrap()
        .put(IVec2::new(5, 5), Rgba32F::new(1.0, 0.0, 0.0, 1.0));

    doc.add_adjustment_layer("desaturate", AdjustmentKind::Desaturate);

    let result = composite_document(&doc, Rect::new(5, 5, 1, 1)).unwrap()[0];
    let expected_luma = 0.2126;
    assert_pixel_approx_eq(
        result,
        Rgba32F::new(expected_luma, expected_luma, expected_luma, 1.0),
        1e-5,
    );
}

#[test]
fn adjustment_layer_brightness_contrast_identity_and_max_brightness() {
    let mut doc = Document::new(10, 10);
    let bg = doc.add_raster_layer("bg");
    doc.layer_mut(bg)
        .unwrap()
        .buffer_mut()
        .unwrap()
        .put(IVec2::new(5, 5), Rgba32F::new(1.0, 0.25, 0.5, 1.0));

    doc.add_adjustment_layer(
        "bc identity",
        AdjustmentKind::BrightnessContrast {
            brightness: b(0.0),
            contrast: b(1.0),
        },
    );

    let identity = composite_document(&doc, Rect::new(5, 5, 1, 1)).unwrap()[0];
    assert_pixel_approx_eq(identity, Rgba32F::new(1.0, 0.25, 0.5, 1.0), 1e-5);

    // Change the adjustment to maximum brightness; everything becomes white.
    let adjustment = doc.active.unwrap();
    doc.layer_mut(adjustment).unwrap().content =
        LayerContent::Adjustment(AdjustmentKind::BrightnessContrast {
            brightness: b(1.0),
            contrast: b(1.0),
        });

    let white = composite_document(&doc, Rect::new(5, 5, 1, 1)).unwrap()[0];
    assert_pixel_approx_eq(white, Rgba32F::new(1.0, 1.0, 1.0, 1.0), 1e-5);
}

#[test]
fn add_adjustment_layer_cmd_undo_restores_original_composite() {
    let mut doc = Document::new(10, 10);
    let bg = doc.add_raster_layer("bg");
    doc.layer_mut(bg)
        .unwrap()
        .buffer_mut()
        .unwrap()
        .put(IVec2::new(5, 5), Rgba32F::new(1.0, 0.0, 0.0, 1.0));

    let before = composite_document(&doc, Rect::new(5, 5, 1, 1)).unwrap();

    let mut history = History::new(0);
    history
        .do_command(
            &mut doc,
            Box::new(AddAdjustmentLayerCmd::new("invert", AdjustmentKind::Invert)),
        )
        .unwrap();

    let with_adjustment = composite_document(&doc, Rect::new(5, 5, 1, 1)).unwrap();
    assert_eq!(with_adjustment[0], Rgba32F::new(0.0, 1.0, 1.0, 1.0));

    history.undo(&mut doc);
    let after_undo = composite_document(&doc, Rect::new(5, 5, 1, 1)).unwrap();
    assert_eq!(before, after_undo);
}

#[test]
fn set_adjustment_cmd_undo_restores_previous_kind() {
    let mut doc = Document::new(10, 10);
    let bg = doc.add_raster_layer("bg");
    doc.layer_mut(bg)
        .unwrap()
        .buffer_mut()
        .unwrap()
        .put(IVec2::new(5, 5), Rgba32F::new(1.0, 0.0, 0.0, 1.0));

    let adj = doc.add_adjustment_layer("adj", AdjustmentKind::Invert);
    let inverted = composite_document(&doc, Rect::new(5, 5, 1, 1)).unwrap();

    let mut history = History::new(0);
    history
        .do_command(
            &mut doc,
            Box::new(SetAdjustmentCmd::new(adj, AdjustmentKind::Desaturate)),
        )
        .unwrap();

    let desaturated = composite_document(&doc, Rect::new(5, 5, 1, 1)).unwrap();
    assert!(
        (desaturated[0].r - desaturated[0].g).abs() < 1e-5
            && (desaturated[0].g - desaturated[0].b).abs() < 1e-5
    );
    assert_ne!(inverted, desaturated);

    history.undo(&mut doc);
    let restored = composite_document(&doc, Rect::new(5, 5, 1, 1)).unwrap();
    assert_eq!(inverted, restored);
}

// sample_document_pixel regression tests

fn assert_sample_matches_composite(doc: &Document, pos: IVec2) {
    let sample = sample_document_pixel(doc, pos);
    if !doc.canvas.contains(pos) {
        assert!(sample.is_none(), "expected None for {pos:?} outside canvas");
        return;
    }
    let composite = composite_document(doc, Rect::new(pos.x, pos.y, 1, 1)).unwrap();
    assert_eq!(composite.len(), 1);
    assert_pixel_approx_eq(sample.unwrap(), composite[0], 1e-5);
}

#[test]
fn sample_document_pixel_opaque_layer() {
    let mut doc = Document::new(10, 10);
    let bg = doc.add_raster_layer("bg");
    doc.layer_mut(bg)
        .unwrap()
        .buffer_mut()
        .unwrap()
        .put(IVec2::new(5, 5), Rgba32F::new(1.0, 0.0, 0.0, 1.0));
    assert_sample_matches_composite(&doc, IVec2::new(5, 5));
}

#[test]
fn sample_document_pixel_opacity_and_blend_mode() {
    let mut doc = Document::new(10, 10);
    let bg = doc.add_raster_layer("bg");
    doc.layer_mut(bg)
        .unwrap()
        .buffer_mut()
        .unwrap()
        .put(IVec2::new(3, 3), Rgba32F::new(1.0, 0.0, 0.0, 1.0));

    let fg = doc.add_raster_layer("fg");
    doc.layer_mut(fg).unwrap().opacity = b(0.5);
    doc.layer_mut(fg).unwrap().blend = BlendMode::Multiply;
    doc.layer_mut(fg)
        .unwrap()
        .buffer_mut()
        .unwrap()
        .put(IVec2::new(3, 3), Rgba32F::new(0.0, 0.0, 1.0, 1.0));

    assert_sample_matches_composite(&doc, IVec2::new(3, 3));
}

#[test]
fn sample_document_pixel_layer_offset() {
    let mut doc = Document::new(20, 20);
    let id = doc.add_raster_layer("L");
    doc.layer_mut(id).unwrap().offset = IVec2::new(5, 5);
    doc.layer_mut(id)
        .unwrap()
        .buffer_mut()
        .unwrap()
        .put(IVec2::new(0, 0), Rgba32F::new(0.0, 1.0, 0.0, 1.0));

    assert_sample_matches_composite(&doc, IVec2::new(5, 5));
    assert_sample_matches_composite(&doc, IVec2::new(0, 0));
}

#[test]
fn sample_document_pixel_raster_mask() {
    let mut doc = Document::new(10, 10);
    let id = doc.add_raster_layer("L");
    doc.layer_mut(id)
        .unwrap()
        .buffer_mut()
        .unwrap()
        .put(IVec2::new(3, 3), Rgba32F::new(1.0, 0.0, 0.0, 1.0));

    let mut mask = TiledBuffer::new();
    mask.put(IVec2::new(3, 3), Rgba32F::new(0.25, 0.0, 0.0, 1.0));
    if let LayerContent::Raster {
        mask: ref mut m, ..
    } = doc.layer_mut(id).unwrap().content
    {
        *m = Some(mask);
    }

    assert_sample_matches_composite(&doc, IVec2::new(3, 3));
}

#[test]
fn sample_document_pixel_group_with_opacity() {
    let mut doc = Document::new(10, 10);
    let bg = doc.add_raster_layer("bg");
    doc.layer_mut(bg)
        .unwrap()
        .buffer_mut()
        .unwrap()
        .put(IVec2::new(5, 5), Rgba32F::new(1.0, 0.0, 0.0, 1.0));

    let group = Layer::new_group("group");
    let group_id = doc.insert_layer_above(group, bg).unwrap();
    doc.layer_mut(group_id).unwrap().opacity = b(0.5);

    let child = doc.add_raster_layer("child");
    doc.move_into_group(child, group_id, 0).unwrap();
    doc.layer_mut(child)
        .unwrap()
        .buffer_mut()
        .unwrap()
        .put(IVec2::new(5, 5), Rgba32F::new(0.0, 0.0, 1.0, 1.0));

    assert_sample_matches_composite(&doc, IVec2::new(5, 5));
}

#[test]
fn sample_document_pixel_adjustment_layer() {
    let mut doc = Document::new(10, 10);
    let bg = doc.add_raster_layer("bg");
    doc.layer_mut(bg)
        .unwrap()
        .buffer_mut()
        .unwrap()
        .put(IVec2::new(5, 5), Rgba32F::new(1.0, 0.0, 0.0, 1.0));

    doc.add_adjustment_layer("invert", AdjustmentKind::Invert);
    assert_sample_matches_composite(&doc, IVec2::new(5, 5));
}

#[test]
fn sample_document_pixel_outside_canvas_is_none() {
    let doc = Document::new(10, 10);
    assert!(sample_document_pixel(&doc, IVec2::new(-1, 0)).is_none());
    assert!(sample_document_pixel(&doc, IVec2::new(0, -1)).is_none());
    assert!(sample_document_pixel(&doc, IVec2::new(10, 0)).is_none());
    assert!(sample_document_pixel(&doc, IVec2::new(0, 10)).is_none());
}

fn two_layer_doc() -> Document {
    let mut doc = Document::new(8, 6);
    let bg = doc.add_raster_layer("bg");
    let buf = doc.layer_mut(bg).unwrap().buffer_mut().unwrap();
    for y in 0..6 {
        for x in 0..8 {
            buf.put(IVec2::new(x, y), Rgba32F::new(0.0, 0.0, 1.0, 1.0));
        }
    }
    let top = doc.add_raster_layer("top");
    doc.layer_mut(top).unwrap().opacity = b(0.5);
    let buf = doc.layer_mut(top).unwrap().buffer_mut().unwrap();
    for y in 0..3 {
        for x in 0..4 {
            buf.put(IVec2::new(x, y), Rgba32F::new(1.0, 0.0, 0.0, 1.0));
        }
    }
    doc
}

#[test]
fn composite_region_matches_composite_document() {
    let doc = two_layer_doc();
    let region = Rect::new(0, 0, 4, 3);
    let tiled = composite_region(&doc, region).unwrap();
    let vec_form = composite_document(&doc, region).unwrap();
    assert_eq!(vec_form.len(), 12);
    for py in 0..3 {
        for px in 0..4 {
            let idx = (py * 4 + px) as usize;
            assert_eq!(
                tiled.px(IVec2::new(px, py)),
                vec_form[idx],
                "mismatch at ({px},{py})"
            );
        }
    }
    // Independent blend check: red@50% over blue = (0.5, 0, 0.5, 1).
    let expected = blend_pixel(
        BlendMode::Normal,
        Rgba32F::new(0.0, 0.0, 1.0, 1.0),
        Rgba32F::new(1.0, 0.0, 0.0, 1.0),
        0.5,
    );
    assert_eq!(tiled.px(IVec2::new(0, 0)), expected);
}

#[test]
fn composite_region_empty_for_out_of_canvas() {
    let doc = Document::new(4, 4);
    let tiled = composite_region(&doc, Rect::new(100, 100, 4, 4)).unwrap();
    assert!(tiled.is_empty());
}

#[test]
fn composite_region_zero_area_is_empty() {
    let doc = Document::new(4, 4);
    let tiled = composite_region(&doc, Rect::new(0, 0, 0, 5)).unwrap();
    assert!(tiled.is_empty());
}

#[test]
fn composite_region_clips_to_canvas() {
    let doc = two_layer_doc();
    // 10×10 region over an 8×6 canvas clips to the full canvas.
    let tiled = composite_region(&doc, Rect::new(0, 0, 10, 10)).unwrap();
    // Matches composite_document over the clipped (8×6) region.
    let vec_form = composite_document(&doc, Rect::new(0, 0, 8, 6)).unwrap();
    for py in 0..6 {
        for px in 0..8 {
            let idx = (py * 8 + px) as usize;
            assert_eq!(tiled.px(IVec2::new(px, py)), vec_form[idx]);
        }
    }
}

/// A vector layer composites identically to an equivalent
/// raster layer. The vector layer's scanline fill of an axis-aligned
/// integer rectangle must produce the same pixels as a raster layer with
/// the same rectangle filled directly.
#[test]
fn composite_document_vector_layer_matches_equivalent_raster() {
    let fill = Rgba32F::new(0.2, 0.4, 0.6, 1.0);
    let offset = IVec2::new(3, 4);
    let region = Rect::new(0, 0, 20, 20);

    // Vector document: one vector layer with a filled 8×6 rectangle path
    // (vertices in layer-local space).
    let mut vdoc = Document::new(20, 20);
    let vdata = VectorData {
        paths: vec![VectorPath {
            vertices: vec![
                IVec2::new(0, 0),
                IVec2::new(8, 0),
                IVec2::new(8, 6),
                IVec2::new(0, 6),
            ],
            fill: VectorFill::Solid(fill.bits()),
            stroke: VectorStroke {
                color: Rgba32F::TRANSPARENT.bits(),
                width: b(0.0),
                dash: Vec::new(),
                cap: StrokeCap::Butt,
                join: StrokeJoin::Miter,
            },
            closed: true,
        }],
        ..VectorData::new()
    };
    let vid = vdoc.add_vector_layer("Rect", vdata);
    vdoc.layer_mut(vid).unwrap().offset = offset;

    // Raster document: one raster layer with the same rectangle filled.
    let mut rdoc = Document::new(20, 20);
    let rid = rdoc.add_raster_layer("Rect");
    rdoc.layer_mut(rid).unwrap().offset = offset;
    for y in 0..6 {
        for x in 0..8 {
            rdoc.layer_mut(rid)
                .unwrap()
                .buffer_mut()
                .unwrap()
                .put(IVec2::new(x, y), fill);
        }
    }

    let v = composite_document(&vdoc, region).unwrap();
    let r = composite_document(&rdoc, region).unwrap();
    // Every pixel must match within the standard tolerance.
    let mut max_diff = 0.0f32;
    let mut mismatches = 0usize;
    for (vp, rp) in v.iter().zip(r.iter()) {
        let d = (vp.r - rp.r)
            .abs()
            .max((vp.g - rp.g).abs())
            .max((vp.b - rp.b).abs())
            .max((vp.a - rp.a).abs());
        if d > 1e-4 {
            mismatches += 1;
        }
        max_diff = max_diff.max(d);
    }
    assert_eq!(
        mismatches, 0,
        "vector composite must match raster composite within 1e-4 \
         (max per-channel diff was {max_diff})"
    );

    // Spot-check: the filled interior at the offset is the fill color,
    // and outside the rectangle is transparent.
    let at = |x: i32, y: i32| v[(y * 20 + x) as usize];
    assert_pixel_approx_eq(at(3, 4), fill, 1e-5);
    assert_pixel_approx_eq(at(10, 9), fill, 1e-5);
    assert_eq!(at(11, 10), Rgba32F::TRANSPARENT);
    assert_eq!(at(2, 3), Rgba32F::TRANSPARENT);
}

/// A stroked vector layer composites with the stroke color along its outline.
#[test]
fn composite_document_vector_layer_renders_stroke() {
    let stroke = Rgba32F::new(1.0, 0.0, 0.0, 1.0);
    let mut doc = Document::new(12, 12);
    let vdata = VectorData {
        paths: vec![VectorPath {
            vertices: vec![
                IVec2::new(2, 2),
                IVec2::new(9, 2),
                IVec2::new(9, 9),
                IVec2::new(2, 9),
            ],
            fill: VectorFill::NoFill,
            stroke: VectorStroke {
                color: stroke.bits(),
                width: b(1.0),
                dash: Vec::new(),
                cap: StrokeCap::Butt,
                join: StrokeJoin::Miter,
            },
            closed: true,
        }],
        ..VectorData::new()
    };
    let vid = doc.add_vector_layer("Frame", vdata);
    let _ = vid;
    let result = composite_document(&doc, Rect::new(0, 0, 12, 12)).unwrap();
    let at = |x: i32, y: i32| result[(y * 12 + x) as usize];
    // Top edge of the frame is stroked.
    assert_pixel_approx_eq(at(2, 2), stroke, 1e-5);
    assert_pixel_approx_eq(at(9, 2), stroke, 1e-5);
    // Interior is empty (transparent fill, no stroke reaches center).
    assert_eq!(at(5, 5), Rgba32F::TRANSPARENT);
}

fn composite_document(doc: &Document, region: Rect) -> Result<Vec<Rgba32F>, OgreError> {
    ogre_core::composite_document(&kern(), doc, region)
        .map(|v| v.into_iter().map(up).collect())
}

fn blend_pixel(mode: BlendMode, dst: Rgba32F, src: Rgba32F, opacity: f32) -> Rgba32F {
    up(ogre_core::blend_pixel(&math(), mode, dst.bits(), src.bits(), b(opacity)))
}

fn composite_region(doc: &Document, region: Rect) -> Result<TiledBuffer, OgreError> {
    ogre_core::composite_region(&kern(), doc, region)
}

fn sample_document_pixel(doc: &Document, pos: IVec2) -> Option<Rgba32F> {
    ogre_core::sample_document_pixel(&kern(), doc, pos).map(up)
}

fn apply_adjustment_pixel(kind: &AdjustmentKind, opacity: f32, px: Rgba32F) -> Rgba32F {
    up(ogre_core::adjust::apply_adjustment_pixel(&math(), *kind, b(opacity), px.bits()))
}

#[test]
fn levels_remap_exactly() {
    let kind = AdjustmentKind::Levels {
        input_black: b(0.25),
        input_white: b(0.75),
        output_black: b(0.0),
        output_white: b(0.5),
        gamma: b(1.0),
    };
    let out = apply_adjustment_pixel(&kind, 1.0, Rgba32F::new(0.5, 0.25, 1.0, 0.5));
    assert_eq!(out, Rgba32F::new(0.25, 0.0, 0.5, 0.5));
}

#[test]
fn curves_interpolate_between_their_points() {
    let points = [(0.0, 0.0), (0.5, 1.0), (0.75, 0.5), (1.0, 0.5)];
    let kind = AdjustmentKind::curves(points.map(|(i, o)| (b(i), b(o))));
    let out = apply_adjustment_pixel(&kind, 1.0, Rgba32F::new(0.25, 0.625, 0.875, 1.0));
    assert_eq!(out, Rgba32F::new(0.5, 0.75, 0.75, 1.0));
}

#[test]
fn posterize_threshold_and_gradient_map() {
    let px = Rgba32F::new(0.7, 0.2, 0.4, 1.0);
    let two = AdjustmentKind::Posterize { levels: 2 };
    assert_eq!(apply_adjustment_pixel(&two, 1.0, px), Rgba32F::new(1.0, 0.0, 0.0, 1.0));
    let low = AdjustmentKind::Threshold { level: b(0.9) };
    assert_eq!(apply_adjustment_pixel(&low, 1.0, px), Rgba32F::new(0.0, 0.0, 0.0, 1.0));
    let map = AdjustmentKind::GradientMap {
        fg: Rgba32F::new(0.25, 0.5, 0.75, 1.0).bits(),
        bg: Rgba32F::new(1.0, 1.0, 1.0, 1.0).bits(),
    };
    let black = Rgba32F::new(0.0, 0.0, 0.0, 0.5);
    assert_eq!(apply_adjustment_pixel(&map, 1.0, black), Rgba32F::new(0.25, 0.5, 0.75, 0.5));
}

#[test]
fn hue_rotation_turns_red_to_green() {
    let kind = AdjustmentKind::HueSat { hue: b(120.0), saturation: b(1.0), lightness: b(0.0) };
    let out = apply_adjustment_pixel(&kind, 1.0, Rgba32F::new(1.0, 0.0, 0.0, 1.0));
    assert_pixel_approx_eq(out, Rgba32F::new(0.0, 1.0, 0.0, 1.0), 1e-5);
}

#[test]
fn adjustments_of_no_opacity_keep_the_pixel() {
    let px = Rgba32F::new(0.7, 2.0, -0.4, 0.3);
    for o in [0.0, -1.0, f32::NAN] {
        assert_eq!(apply_adjustment_pixel(&AdjustmentKind::Invert, o, px), px);
    }
}

#[test]
fn blending_keeps_the_destination_where_the_source_is_not_visible() {
    let dst = Rgba32F::new(0.1, 0.2, 0.3, 0.4);
    let src = Rgba32F::new(0.9, 0.9, 0.9, 0.0);
    for mode in [BlendMode::Normal, BlendMode::Multiply, BlendMode::Add] {
        assert_eq!(blend_pixel(mode, dst, src, 1.0), dst);
        assert_eq!(blend_pixel(mode, dst, Rgba32F::new(1.0, 1.0, 1.0, 1.0), 0.0), dst);
    }
}

#[test]
fn cached_pixels_of_a_vector_layer_are_what_is_shown() {
    let mut cache = TiledBuffer::new();
    cache.put(IVec2::new(1, 1), Rgba32F::new(0.0, 1.0, 0.0, 1.0));
    let data = VectorData {
        paths: vec![VectorPath {
            vertices: vec![IVec2::new(0, 0), IVec2::new(4, 0), IVec2::new(0, 4)],
            fill: VectorFill::Solid(Rgba32F::new(1.0, 0.0, 0.0, 1.0).bits()),
            stroke: VectorStroke {
                color: Rgba32F::TRANSPARENT.bits(),
                width: b(0.0),
                dash: Vec::new(),
                cap: StrokeCap::Butt,
                join: StrokeJoin::Miter,
            },
            closed: true,
        }],
        rasterized: Some(cache),
        ..VectorData::new()
    };
    let shown = rasterize_vector_data(&kern(), &data);
    assert_eq!(shown.px(IVec2::new(1, 1)), Rgba32F::new(0.0, 1.0, 0.0, 1.0));
    assert_eq!(shown.px(IVec2::new(0, 0)), Rgba32F::TRANSPARENT);
    let drawn = rasterize_vector_paths(&kern(), &data);
    assert_eq!(drawn.px(IVec2::new(1, 1)), Rgba32F::new(1.0, 0.0, 0.0, 1.0));
    assert_eq!(drawn.px(IVec2::new(3, 3)), Rgba32F::TRANSPARENT);
}

#[test]
fn hue_shifts_wrap_around_the_full_turn() {
    let red = Rgba32F::new(1.0, 0.0, 0.0, 1.0);
    let shift = |hue: f32| {
        let kind = AdjustmentKind::HueSat { hue: b(hue), saturation: b(1.0), lightness: b(0.0) };
        apply_adjustment_pixel(&kind, 1.0, red)
    };
    for hue in [90.0, -270.0, 450.0, -630.0] {
        let out = shift(hue);
        assert!((out.r - 0.5).abs() < 1e-5 && (out.g - 1.0).abs() < 1e-5, "{hue}: {out:?}");
        assert!(out.b.abs() < 1e-5 && out.a == 1.0, "{hue}: {out:?}");
    }
}

#[test]
fn adjusted_colors_stay_between_zero_and_one() {
    let ends = [
        CurvePoint::new(b(0.0), b(-2.0)),
        CurvePoint::new(b(0.25), b(-1.0)),
        CurvePoint::new(b(0.75), b(3.0)),
        CurvePoint::new(b(1.0), b(4.0)),
    ];
    let loud = Rgba32F::new(5.0, -3.0, 0.5, 1.0);
    let kinds = [
        AdjustmentKind::Curves { points: ends },
        AdjustmentKind::GradientMap { fg: loud.bits(), bg: loud.bits() },
        AdjustmentKind::HueSat { hue: b(-123.0), saturation: b(9.0), lightness: b(0.3) },
    ];
    for kind in kinds {
        for v in [0.0, 0.3, 0.8, 1.0] {
            let out = apply_adjustment_pixel(&kind, 1.0, Rgba32F::new(v, 1.0 - v, 0.5, 1.0));
            for c in [out.r, out.g, out.b] {
                assert!((0.0..=1.0).contains(&c), "{kind:?}: {out:?}");
            }
        }
    }
}
