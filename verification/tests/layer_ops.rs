#![allow(dead_code)]
use std::sync::Arc;

use ogre_core::ops::merge::MAX_MERGE_TILES;
use ogre_core::Rgba32F as Pixel;
use ogre_core::{
    delete_layer, duplicate_layer, move_layer_by, move_layer_into_group, rename_layer,
    reorder_layer, set_layer_blend, set_layer_locked, set_layer_opacity, set_layer_visible,
    BinaryOp, BlendMode, Document, FloatKernel, FloatMath, IVec2, Layer, LayerContent, LayerId,
    OgreError, Rect, Tile, TileCoord, TiledBuffer, UnaryOp, WholeOp,
};

/// A pixel with its channels as numbers.
#[derive(Clone, Copy, Debug, PartialEq)]
struct Rgba32F {
    r: f32,
    g: f32,
    b: f32,
    a: f32,
}

impl Rgba32F {
    const TRANSPARENT: Rgba32F = Rgba32F { r: 0.0, g: 0.0, b: 0.0, a: 0.0 };

    fn new(r: f32, g: f32, b: f32, a: f32) -> Self {
        Rgba32F { r, g, b, a }
    }

    fn bits(self) -> Pixel {
        Pixel::new(self.r.to_bits(), self.g.to_bits(), self.b.to_bits(), self.a.to_bits())
    }
}

fn up(p: Pixel) -> Rgba32F {
    Rgba32F::new(f(p.r), f(p.g), f(p.b), f(p.a))
}

fn b(v: f32) -> u32 {
    v.to_bits()
}

fn f(v: u32) -> f32 {
    f32::from_bits(v)
}

/// Pixels as numbers.
trait Pixels {
    fn px(&self, p: IVec2) -> Rgba32F;
    fn put(&mut self, p: IVec2, c: Rgba32F);
    fn rect(&self, r: Rect) -> Vec<Rgba32F>;
}

impl Pixels for TiledBuffer {
    fn px(&self, p: IVec2) -> Rgba32F {
        up(self.get_pixel(p))
    }

    fn put(&mut self, p: IVec2, c: Rgba32F) {
        self.set_pixel(p, c.bits());
    }

    fn rect(&self, r: Rect) -> Vec<Rgba32F> {
        self.read_rect(r).into_iter().map(up).collect()
    }
}

type Math = FloatMath<
    fn(BinaryOp, u32, u32) -> u32,
    fn(UnaryOp, u32) -> u32,
    fn(WholeOp, u32) -> i32,
    fn(&Vec<u32>) -> u32,
>;

fn binary(op: BinaryOp, x: u32, y: u32) -> u32 {
    let (x, y) = (f32::from_bits(x), f32::from_bits(y));
    let r = match op {
        BinaryOp::Add => x + y,
        BinaryOp::Sub => x - y,
        BinaryOp::Mul => x * y,
        BinaryOp::Div => x / y,
        BinaryOp::Pow => x.powf(y),
        BinaryOp::RemEuclid => x.rem_euclid(y),
        BinaryOp::Atan2 => x.atan2(y),
    };
    r.to_bits()
}

fn unary(op: UnaryOp, x: u32) -> u32 {
    let x = f32::from_bits(x);
    let r = match op {
        UnaryOp::Sqrt => x.sqrt(),
        UnaryOp::Round => x.round(),
    };
    r.to_bits()
}

fn whole(op: WholeOp, x: u32) -> i32 {
    let x = f32::from_bits(x);
    match op {
        WholeOp::Floor => x.floor() as i32,
        WholeOp::Ceil => x.ceil() as i32,
    }
}

fn mean(numbers: &Vec<u32>) -> u32 {
    let sum: f64 = numbers.iter().map(|n| f32::from_bits(*n) as f64).sum();
    ((sum / numbers.len() as f64) as f32).to_bits()
}

fn math() -> Math {
    FloatMath { binary, unary, whole, mean }
}

fn kern() -> FloatKernel<Math> {
    FloatKernel { math: math() }
}


// Cheap duplicate

#[test]
fn duplicate_layer_shares_all_tiles_by_arc() {
    let mut doc = Document::new(200, 200);
    let src = doc.add_raster_layer("src");
    doc.layer_mut(src)
        .unwrap()
        .buffer_mut()
        .unwrap()
        .put(IVec2::new(10, 10), Rgba32F::new(1.0, 0.0, 0.0, 1.0));
    doc.layer_mut(src)
        .unwrap()
        .buffer_mut()
        .unwrap()
        .put(IVec2::new(300, 10), Rgba32F::new(0.0, 1.0, 0.0, 1.0));

    let dup = duplicate_layer(&mut doc, src).unwrap();

    let src_buffer = doc.layer(src).unwrap().buffer().unwrap();
    let dup_buffer = doc.layer(dup).unwrap().buffer().unwrap();

    for (coord, tile) in src_buffer.occupied_tiles() {
        assert!(
            Arc::ptr_eq(&tile, &dup_buffer.get_tile(coord).unwrap()),
            "tile {:?} was deep-copied",
            coord
        );
    }

    assert_eq!(doc.layer(dup).unwrap().name, "src copy");
    assert_eq!(doc.order, vec![src, dup]);
}

#[test]
fn duplicate_group_errors() {
    let mut doc = Document::new(100, 100);
    let raster = doc.add_raster_layer("raster");
    let group = Layer::new_group("group");
    let group_id = doc.insert_layer_above(group, raster).unwrap();

    assert!(matches!(
        duplicate_layer(&mut doc, group_id),
        Err(OgreError::NotRaster)
    ));
}

// Mutators

#[test]
fn delete_layer_removes_from_order_and_clears_active() {
    let mut doc = Document::new(100, 100);
    let a = doc.add_raster_layer("A");
    let bb = doc.add_raster_layer("B");
    assert_eq!(doc.active, Some(bb));

    delete_layer(&mut doc, bb).unwrap();
    assert_eq!(doc.order, vec![a]);
    assert_eq!(doc.active, None);
}

#[test]
fn delete_layer_inside_group_updates_parent() {
    let mut doc = Document::new(100, 100);
    let bg = doc.add_raster_layer("bg");
    let group = Layer::new_group("group");
    let group_id = doc.insert_layer_above(group, bg).unwrap();
    let child = doc.add_raster_layer("child");
    doc.move_into_group(child, group_id, 0).unwrap();

    delete_layer(&mut doc, child).unwrap();
    let children = match &doc.layer(group_id).unwrap().content {
        LayerContent::Group { children } => children.clone(),
        _ => panic!("expected a group"),
    };
    assert!(children.is_empty());
}

#[test]
fn mutators_update_layer_properties() {
    let mut doc = Document::new(100, 100);
    let id = doc.add_raster_layer("L");

    set_layer_visible(&mut doc, id, false).unwrap();
    assert!(!doc.layer(id).unwrap().visible);

    set_layer_opacity(&mut doc, id, b(1.5)).unwrap();
    assert_eq!(f(doc.layer(id).unwrap().opacity), 1.0);
    set_layer_opacity(&mut doc, id, b(-0.5)).unwrap();
    assert_eq!(f(doc.layer(id).unwrap().opacity), 0.0);
    set_layer_opacity(&mut doc, id, b(0.75)).unwrap();
    assert_eq!(f(doc.layer(id).unwrap().opacity), 0.75);

    set_layer_blend(&mut doc, id, BlendMode::Multiply).unwrap();
    assert_eq!(doc.layer(id).unwrap().blend, BlendMode::Multiply);

    set_layer_locked(&mut doc, id, true).unwrap();
    assert!(doc.layer(id).unwrap().locked);

    rename_layer(&mut doc, id, "Renamed").unwrap();
    assert_eq!(doc.layer(id).unwrap().name, "Renamed");
}

#[test]
fn reorder_layer_preserves_other_layers() {
    let mut doc = Document::new(100, 100);
    let a = doc.add_raster_layer("A");
    let bb = doc.add_raster_layer("B");
    let c = doc.add_raster_layer("C");

    reorder_layer(&mut doc, a, 2).unwrap();
    assert_eq!(doc.order, vec![bb, c, a]);
}

#[test]
fn move_layer_into_group_preserves_other_layers() {
    let mut doc = Document::new(100, 100);
    let bg = doc.add_raster_layer("bg");
    let group = Layer::new_group("group");
    let group_id = doc.insert_layer_above(group, bg).unwrap();
    let a = doc.add_raster_layer("A");
    let bb = doc.add_raster_layer("B");

    move_layer_into_group(&mut doc, a, group_id, 0).unwrap();
    assert_eq!(doc.order, vec![bg, group_id, bb]);
    assert_eq!(doc.parent_of(a), Some(group_id));
}

#[test]
fn mutators_return_not_found_for_missing_layer() {
    let mut doc = Document::new(100, 100);
    let missing = LayerId::null();

    assert!(matches!(
        delete_layer(&mut doc, missing),
        Err(OgreError::LayerNotFound(_))
    ));
    assert!(matches!(
        set_layer_visible(&mut doc, missing, false),
        Err(OgreError::LayerNotFound(_))
    ));
    assert!(matches!(
        set_layer_opacity(&mut doc, missing, b(0.5)),
        Err(OgreError::LayerNotFound(_))
    ));
    assert!(matches!(
        move_layer_by(&mut doc, missing, IVec2::new(1, 1)),
        Err(OgreError::LayerNotFound(_))
    ));
}

#[test]
fn move_layer_by_rejects_locked_layer() {
    let mut doc = Document::new(100, 100);
    let id = doc.add_raster_layer("L");
    doc.layer_mut(id).unwrap().locked = true;

    assert!(matches!(
        move_layer_by(&mut doc, id, IVec2::new(5, 5)),
        Err(OgreError::LayerLocked(_))
    ));
}

// Merge & move

#[test]
fn merge_down_equals_composite_document() {
    let mut doc = Document::new(100, 100);
    let lower = doc.add_raster_layer("lower");
    let upper = doc.add_raster_layer("upper");

    doc.layer_mut(lower)
        .unwrap()
        .buffer_mut()
        .unwrap()
        .put(IVec2::new(5, 5), Rgba32F::new(1.0, 0.0, 0.0, 1.0));
    doc.layer_mut(upper)
        .unwrap()
        .buffer_mut()
        .unwrap()
        .put(IVec2::new(5, 5), Rgba32F::new(0.0, 0.0, 1.0, 0.5));

    // Compute the expected merged appearance over the union bounds.
    let lower_bounds = doc
        .layer(lower)
        .unwrap()
        .buffer()
        .unwrap()
        .bounds()
        .unwrap();
    let upper_bounds = doc
        .layer(upper)
        .unwrap()
        .buffer()
        .unwrap()
        .bounds()
        .unwrap();
    let union = lower_bounds.union(upper_bounds);
    let expected = composite_document(&doc, union).unwrap();

    let merged = merge_down(&mut doc, upper).unwrap();
    assert_eq!(merged, lower);
    assert_eq!(doc.order, vec![lower]);

    let actual = doc.layer(lower).unwrap().buffer().unwrap().rect(union);
    assert_eq!(actual, expected);
}

#[test]
fn merge_down_with_offsets_equals_composite_document() {
    let mut doc = Document::new(200, 200);
    let lower = doc.add_raster_layer("lower");
    let upper = doc.add_raster_layer("upper");

    doc.layer_mut(lower).unwrap().offset = IVec2::new(10, 10);
    doc.layer_mut(lower)
        .unwrap()
        .buffer_mut()
        .unwrap()
        .put(IVec2::new(0, 0), Rgba32F::new(1.0, 0.0, 0.0, 1.0));

    doc.layer_mut(upper).unwrap().offset = IVec2::new(8, 8);
    doc.layer_mut(upper)
        .unwrap()
        .buffer_mut()
        .unwrap()
        .put(IVec2::new(2, 2), Rgba32F::new(0.0, 0.0, 1.0, 0.5));

    let lower_bounds = doc
        .layer(lower)
        .unwrap()
        .buffer()
        .unwrap()
        .bounds()
        .unwrap();
    let upper_bounds = doc
        .layer(upper)
        .unwrap()
        .buffer()
        .unwrap()
        .bounds()
        .unwrap();
    let lower_offset = doc.layer(lower).unwrap().offset;
    let upper_offset = doc.layer(upper).unwrap().offset;
    let union = Rect::new(
        lower_bounds.x + lower_offset.x,
        lower_bounds.y + lower_offset.y,
        lower_bounds.w,
        lower_bounds.h,
    )
    .union(Rect::new(
        upper_bounds.x + upper_offset.x,
        upper_bounds.y + upper_offset.y,
        upper_bounds.w,
        upper_bounds.h,
    ));

    let expected = composite_document(&doc, union).unwrap();
    merge_down(&mut doc, upper).unwrap();

    let actual = doc.layer(lower).unwrap().buffer().unwrap().rect(union);
    assert_eq!(actual, expected);
}

#[test]
fn merge_down_respects_lower_opacity() {
    let mut doc = Document::new(100, 100);
    let lower = doc.add_raster_layer("lower");
    let upper = doc.add_raster_layer("upper");

    doc.layer_mut(lower)
        .unwrap()
        .buffer_mut()
        .unwrap()
        .put(IVec2::new(5, 5), Rgba32F::new(1.0, 0.0, 0.0, 1.0));
    doc.layer_mut(lower).unwrap().opacity = b(0.25);

    doc.layer_mut(upper)
        .unwrap()
        .buffer_mut()
        .unwrap()
        .put(IVec2::new(5, 5), Rgba32F::new(0.0, 0.0, 1.0, 0.5));

    let lower_bounds = doc
        .layer(lower)
        .unwrap()
        .buffer()
        .unwrap()
        .bounds()
        .unwrap();
    let upper_bounds = doc
        .layer(upper)
        .unwrap()
        .buffer()
        .unwrap()
        .bounds()
        .unwrap();
    let union = lower_bounds.union(upper_bounds);
    let expected = composite_document(&doc, union).unwrap();

    let merged = merge_down(&mut doc, upper).unwrap();
    assert_eq!(merged, lower);

    let actual = doc.layer(lower).unwrap().buffer().unwrap().rect(union);
    assert_eq!(actual, expected);
}

#[test]
fn merge_down_removes_upper_and_keeps_lower_position() {
    let mut doc = Document::new(100, 100);
    let lower = doc.add_raster_layer("lower");
    let upper = doc.add_raster_layer("upper");
    let unrelated = doc.add_raster_layer("unrelated");

    doc.layer_mut(upper)
        .unwrap()
        .buffer_mut()
        .unwrap()
        .put(IVec2::new(7, 7), Rgba32F::new(0.0, 1.0, 0.0, 1.0));

    let merged = merge_down(&mut doc, upper).unwrap();
    assert_eq!(merged, lower);
    assert_eq!(doc.order, vec![lower, unrelated]);
    assert!(matches!(doc.layer(upper), Err(OgreError::LayerNotFound(_))));
}

#[test]
fn merge_down_errors_when_nothing_below() {
    let mut doc = Document::new(100, 100);
    let only = doc.add_raster_layer("only");
    assert!(matches!(
        merge_down(&mut doc, only),
        Err(OgreError::InvalidOperation(_))
    ));
}

#[test]
fn merge_down_errors_on_group_source_or_target() {
    let mut doc = Document::new(100, 100);
    let raster = doc.add_raster_layer("raster");
    let group = Layer::new_group("group");
    let group_id = doc.insert_layer_above(group, raster).unwrap();

    assert!(matches!(
        merge_down(&mut doc, group_id),
        Err(OgreError::NotRaster)
    ));

    let upper = doc.add_raster_layer("upper");
    assert!(matches!(
        merge_down(&mut doc, upper),
        Err(OgreError::NotRaster)
    ));
}

#[test]
fn merge_down_rejects_locked_layer() {
    let mut doc = Document::new(100, 100);
    let lower = doc.add_raster_layer("lower");
    let upper = doc.add_raster_layer("upper");
    doc.layer_mut(upper).unwrap().locked = true;

    assert!(matches!(
        merge_down(&mut doc, upper),
        Err(OgreError::LayerLocked(_))
    ));

    doc.layer_mut(upper).unwrap().locked = false;
    doc.layer_mut(lower).unwrap().locked = true;
    assert!(matches!(
        merge_down(&mut doc, upper),
        Err(OgreError::LayerLocked(_))
    ));
}

#[test]
fn move_layer_by_shifts_composited_result_exactly() {
    let mut doc = Document::new(100, 100);
    let id = doc.add_raster_layer("L");
    doc.layer_mut(id).unwrap().offset = IVec2::new(5, 5);
    doc.layer_mut(id)
        .unwrap()
        .buffer_mut()
        .unwrap()
        .put(IVec2::new(0, 0), Rgba32F::new(1.0, 0.0, 0.0, 1.0));

    let before = composite_document(&doc, Rect::new(5, 5, 1, 1)).unwrap();
    assert_eq!(before[0], Rgba32F::new(1.0, 0.0, 0.0, 1.0));

    move_layer_by(&mut doc, id, IVec2::new(10, 20)).unwrap();
    assert_eq!(doc.layer(id).unwrap().offset, IVec2::new(15, 25));

    let after = composite_document(&doc, Rect::new(15, 25, 1, 1)).unwrap();
    assert_eq!(after[0], Rgba32F::new(1.0, 0.0, 0.0, 1.0));

    let old_spot = composite_document(&doc, Rect::new(5, 5, 1, 1)).unwrap();
    assert_eq!(old_spot[0], Rgba32F::TRANSPARENT);
}

#[test]
fn merge_down_respects_selection_like_mask_on_source() {
    let mut doc = Document::new(100, 100);
    let lower = doc.add_raster_layer("lower");
    let upper = doc.add_raster_layer("upper");

    doc.layer_mut(lower)
        .unwrap()
        .buffer_mut()
        .unwrap()
        .put(IVec2::new(5, 5), Rgba32F::new(1.0, 0.0, 0.0, 1.0));
    doc.layer_mut(upper)
        .unwrap()
        .buffer_mut()
        .unwrap()
        .put(IVec2::new(5, 5), Rgba32F::new(0.0, 0.0, 1.0, 1.0));

    // Add a layer mask to the upper layer that masks out half the pixel.
    let mut mask = TiledBuffer::new();
    mask.put(IVec2::new(5, 5), Rgba32F::new(0.5, 0.0, 0.0, 1.0));
    doc.layer_mut(upper).unwrap().content = LayerContent::Raster {
        buffer: doc.layer(upper).unwrap().buffer().unwrap().clone(),
        mask: Some(mask),
    };

    merge_down(&mut doc, upper).unwrap();

    // Expected: upper contributes 50% alpha blue over red.
    let expected = blend_pixel(
        BlendMode::Normal,
        Rgba32F::new(1.0, 0.0, 0.0, 1.0),
        Rgba32F::new(0.0, 0.0, 1.0, 0.5),
        1.0,
    );
    let actual = doc
        .layer(lower)
        .unwrap()
        .buffer()
        .unwrap()
        .px(IVec2::new(5, 5));
    assert_pixel_approx_eq(actual, expected, 1e-5);
}

#[test]
fn merge_down_preserves_lower_layer_id() {
    let mut doc = Document::new(100, 100);
    let lower = doc.add_raster_layer("lower");
    let upper = doc.add_raster_layer("upper");

    doc.layer_mut(lower)
        .unwrap()
        .buffer_mut()
        .unwrap()
        .put(IVec2::new(5, 5), Rgba32F::new(1.0, 0.0, 0.0, 1.0));
    doc.layer_mut(upper)
        .unwrap()
        .buffer_mut()
        .unwrap()
        .put(IVec2::new(5, 5), Rgba32F::new(0.0, 0.0, 1.0, 0.5));

    let merged = merge_down(&mut doc, upper).unwrap();
    assert_eq!(merged, lower);
    assert_eq!(doc.layer(lower).unwrap().id, lower);
}

#[test]
fn merge_down_rejects_non_normal_lower_blend() {
    let mut doc = Document::new(100, 100);
    let lower = doc.add_raster_layer("lower");
    let upper = doc.add_raster_layer("upper");
    doc.layer_mut(lower).unwrap().blend = BlendMode::Multiply;

    assert!(matches!(
        merge_down(&mut doc, upper),
        Err(OgreError::InvalidOperation(_))
    ));
}

#[test]
fn merge_down_with_upper_opacity_less_than_one() {
    let mut doc = Document::new(100, 100);
    let lower = doc.add_raster_layer("lower");
    let upper = doc.add_raster_layer("upper");

    doc.layer_mut(lower)
        .unwrap()
        .buffer_mut()
        .unwrap()
        .put(IVec2::new(5, 5), Rgba32F::new(1.0, 0.0, 0.0, 1.0));
    doc.layer_mut(upper)
        .unwrap()
        .buffer_mut()
        .unwrap()
        .put(IVec2::new(5, 5), Rgba32F::new(0.0, 0.0, 1.0, 1.0));
    doc.layer_mut(upper).unwrap().opacity = b(0.25);

    let lower_bounds = doc
        .layer(lower)
        .unwrap()
        .buffer()
        .unwrap()
        .bounds()
        .unwrap();
    let upper_bounds = doc
        .layer(upper)
        .unwrap()
        .buffer()
        .unwrap()
        .bounds()
        .unwrap();
    let union = lower_bounds.union(upper_bounds);
    let expected = composite_document(&doc, union).unwrap();

    let merged = merge_down(&mut doc, upper).unwrap();
    assert_eq!(merged, lower);

    let actual = doc.layer(lower).unwrap().buffer().unwrap().rect(union);
    assert_eq!(actual, expected);
}

#[test]
fn merge_down_with_lower_layer_mask() {
    let mut doc = Document::new(100, 100);
    let lower = doc.add_raster_layer("lower");
    let upper = doc.add_raster_layer("upper");

    doc.layer_mut(lower)
        .unwrap()
        .buffer_mut()
        .unwrap()
        .put(IVec2::new(5, 5), Rgba32F::new(1.0, 0.0, 0.0, 1.0));
    doc.layer_mut(upper)
        .unwrap()
        .buffer_mut()
        .unwrap()
        .put(IVec2::new(5, 5), Rgba32F::new(0.0, 0.0, 1.0, 1.0));

    // Mask the lower layer so it contributes only 50% alpha.
    let mut mask = TiledBuffer::new();
    mask.put(IVec2::new(5, 5), Rgba32F::new(0.5, 0.0, 0.0, 1.0));
    doc.layer_mut(lower).unwrap().content = LayerContent::Raster {
        buffer: doc.layer(lower).unwrap().buffer().unwrap().clone(),
        mask: Some(mask),
    };

    let lower_bounds = doc
        .layer(lower)
        .unwrap()
        .buffer()
        .unwrap()
        .bounds()
        .unwrap();
    let upper_bounds = doc
        .layer(upper)
        .unwrap()
        .buffer()
        .unwrap()
        .bounds()
        .unwrap();
    let union = lower_bounds.union(upper_bounds);
    let expected = composite_document(&doc, union).unwrap();

    let merged = merge_down(&mut doc, upper).unwrap();
    assert_eq!(merged, lower);

    let actual = doc.layer(lower).unwrap().buffer().unwrap().rect(union);
    assert_eq!(actual, expected);
}

#[test]
fn merge_down_when_both_layers_are_empty() {
    let mut doc = Document::new(100, 100);
    let lower = doc.add_raster_layer("lower");
    let upper = doc.add_raster_layer("upper");

    let merged = merge_down(&mut doc, upper).unwrap();
    assert_eq!(merged, lower);
    assert_eq!(doc.order, vec![lower]);
    assert_eq!(doc.layer(lower).unwrap().id, lower);
    assert!(doc.layer(lower).unwrap().buffer().unwrap().is_empty());
}

#[test]
fn merge_down_uses_exact_pixel_bounds() {
    let mut doc = Document::new(300, 300);
    let lower = doc.add_raster_layer("lower");
    let upper = doc.add_raster_layer("upper");

    doc.layer_mut(lower)
        .unwrap()
        .buffer_mut()
        .unwrap()
        .put(IVec2::new(10, 10), Rgba32F::new(1.0, 0.0, 0.0, 1.0));
    doc.layer_mut(upper)
        .unwrap()
        .buffer_mut()
        .unwrap()
        .put(IVec2::new(15, 12), Rgba32F::new(0.0, 0.0, 1.0, 1.0));

    merge_down(&mut doc, upper).unwrap();

    let merged = doc.layer(lower).unwrap().buffer().unwrap();
    assert_eq!(merged.exact_bounds(), Some(Rect::new(10, 10, 6, 3)));
}

#[test]
fn move_layer_by_rejects_overflowing_offset() {
    let mut doc = Document::new(100, 100);
    let id = doc.add_raster_layer("L");
    doc.layer_mut(id).unwrap().offset = IVec2::new(i32::MAX, 0);

    assert!(matches!(
        move_layer_by(&mut doc, id, IVec2::new(1, 0)),
        Err(OgreError::InvalidOperation("layer offset out of range"))
    ));
    // The offset must remain unchanged after a rejected move.
    assert_eq!(doc.layer(id).unwrap().offset, IVec2::new(i32::MAX, 0));
}

#[test]
fn merge_down_rejects_overflowing_offsets() {
    let mut doc = Document::new(100, 100);
    let lower = doc.add_raster_layer("lower");
    let upper = doc.add_raster_layer("upper");

    // An offset of i32::MAX pushes the 256-wide tile rect past i32::MAX.
    doc.layer_mut(lower).unwrap().offset = IVec2::new(i32::MAX, 0);
    doc.layer_mut(lower)
        .unwrap()
        .buffer_mut()
        .unwrap()
        .put(IVec2::new(0, 0), Rgba32F::new(1.0, 0.0, 0.0, 1.0));

    doc.layer_mut(upper)
        .unwrap()
        .buffer_mut()
        .unwrap()
        .put(IVec2::new(0, 0), Rgba32F::new(0.0, 1.0, 0.0, 1.0));

    assert!(matches!(
        merge_down(&mut doc, upper),
        Err(OgreError::InvalidOperation("layer offset out of range"))
    ));
}

#[test]
fn merge_down_rejects_extreme_tile_budget() {
    let mut doc = Document::new(100, 100);
    let lower = doc.add_raster_layer("lower");
    let upper = doc.add_raster_layer("upper");

    // Fill just enough tiles in the lower layer to exceed the merge budget.
    // All of them are one shared tile.
    let mut tile = Tile::transparent();
    tile.set(0, 0, Rgba32F::new(1.0, 0.0, 0.0, 1.0).bits());
    let tile = Arc::new(tile);
    for i in 0..=MAX_MERGE_TILES {
        doc.layer_mut(lower)
            .unwrap()
            .buffer_mut()
            .unwrap()
            .restore_tile(TileCoord { x: i as i32, y: 0 }, Some(tile.clone()));
    }

    assert!(matches!(
        merge_down(&mut doc, upper),
        Err(OgreError::InvalidOperation(
            "merged region exceeds tile budget"
        ))
    ));
}

fn assert_pixel_approx_eq(a: Rgba32F, b: Rgba32F, eps: f32) {
    assert!(
        (a.r - b.r).abs() < eps
            && (a.g - b.g).abs() < eps
            && (a.b - b.b).abs() < eps
            && (a.a - b.a).abs() < eps,
        "{:?} != {:?} within {}",
        a,
        b,
        eps
    );
}

fn composite_document(doc: &Document, region: Rect) -> Result<Vec<Rgba32F>, OgreError> {
    ogre_core::composite_document(&kern(), doc, region)
        .map(|v| v.into_iter().map(up).collect())
}

fn merge_down(doc: &mut Document, upper: LayerId) -> Result<LayerId, OgreError> {
    ogre_core::merge_down(&kern(), doc, upper)
}

fn blend_pixel(mode: BlendMode, dst: Rgba32F, src: Rgba32F, opacity: f32) -> Rgba32F {
    up(ogre_core::blend_pixel(&math(), mode, dst.bits(), src.bits(), b(opacity)))
}
