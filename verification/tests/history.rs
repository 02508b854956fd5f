#![allow(dead_code)]
use std::collections::HashSet;
use std::sync::Arc;

use ogre_core::Vec2 as Point;
use ogre_core::Rgba32F as Pixel;
use ogre_core::{
    sample_document_pixel, AddLayerMaskCmd, AddRasterLayerCmd, AdjustmentKind, Affine2,
    ApplyLayerMaskCmd, BinaryOp, BrushSettings, BrushStrokeCmd, Command, CopyToNewLayerCmd,
    CutToNewLayerCmd, DEFAULT_FILL_TOLERANCE, DEFAULT_MATTE_TOLERANCE, DeleteLayerCmd,
    DeleteLayerMaskCmd, Document, FeatherSelectionCmd, FillSelectionCmd, FlipAxis, FlipLayerCmd,
    FloatKernel, FloatMath, GrowSelectionCmd, History, IVec2, InputSample, InvertSelectionCmd,
    Layer, LayerId, MagicWandCmd, MaskInit, MergeDownCmd, MoveLayerByCmd, OgreError,
    PaintBucketCmd, PaintCmd, PaintMode, PaintStrokeCmd, Rect, RemoveBackgroundCmd, ReorderCmd,
    Selection, SelectionKind, SelectionMode, SetLayerBufferCmd, SetLayerMaskCmd, SetSelectionCmd,
    ShrinkSelectionCmd, StrokeSelectionCmd, TileCoord, TiledBuffer, TransformLayerCmd,
    TransformMath, UnaryOp, WarpGrid, WholeOp,
};

/// A pixel with its channels as numbers.
#[derive(Clone, Copy, Debug, PartialEq)]
struct Rgba32F {
    r: f32,
    g: f32,
    b: f32,
    a: f32,
}

impl Rgba32F {
    const TRANSPARENT: Rgba32F = Rgba32F { r: 0.0, g: 0.0, b: 0.0, a: 0.0 };

    fn new(r: f32, g: f32, b: f32, a: f32) -> Self {
        Rgba32F { r, g, b, a }
    }

    fn bits(self) -> Pixel {
        Pixel::new(self.r.to_bits(), self.g.to_bits(), self.b.to_bits(), self.a.to_bits())
    }
}

fn up(p: Pixel) -> Rgba32F {
    Rgba32F::new(f(p.r), f(p.g), f(p.b), f(p.a))
}

fn b(v: f32) -> u32 {
    v.to_bits()
}

fn f(v: u32) -> f32 {
    f32::from_bits(v)
}

/// Pixels as numbers.
trait Pixels {
    fn px(&self, p: IVec2) -> Rgba32F;
    fn put(&mut self, p: IVec2, c: Rgba32F);
}

impl Pixels for TiledBuffer {
    fn px(&self, p: IVec2) -> Rgba32F {
        up(self.get_pixel(p))
    }

    fn put(&mut self, p: IVec2, c: Rgba32F) {
        self.set_pixel(p, c.bits());
    }
}

/// How much of a pixel is selected, as a number.
trait Covers {
    fn cov(&self, p: IVec2) -> f32;
}

impl Covers for Selection {
    fn cov(&self, p: IVec2) -> f32 {
        f(self.coverage_at(p))
    }
}

/// Two buffers hold the same tiles.
fn same_buffer(x: &TiledBuffer, y: &TiledBuffer) -> bool {
    let tiles = x.occupied_tiles();
    tiles.len() == y.occupied_tiles().len()
        && tiles.iter().all(|(c, t)| match y.get_tile(*c) {
            Some(u) => (0..256).all(|j| (0..256).all(|i| t.get(i, j) == u.get(i, j))),
            None => false,
        })
}

/// Two selections select the same pixels of the same bounds.
fn same_selection(x: &Selection, y: &Selection) -> bool {
    match (x.bounds(), y.bounds()) {
        (Some(u), Some(v)) => {
            u == v
                && (u.y..u.y + u.h as i32).all(|j| {
                    (u.x..u.x + u.w as i32)
                        .all(|i| x.cov(IVec2::new(i, j)) == y.cov(IVec2::new(i, j)))
                })
        }
        (None, None) => true,
        _ => false,
    }
}

/// Two layers agree in everything that is shown of them.
fn same_layer(x: &Layer, y: &Layer) -> bool {
    x.id == y.id
        && x.name == y.name
        && x.offset == y.offset
        && x.opacity == y.opacity
        && x.blend == y.blend
        && x.visible == y.visible
        && x.locked == y.locked
        && match (x.buffer(), y.buffer()) {
            (Some(p), Some(q)) => same_buffer(p, q),
            (None, None) => true,
            _ => false,
        }
}

/// A point with its coordinates as numbers.
#[derive(Clone, Copy, Debug, PartialEq)]
struct Vec2 {
    x: f32,
    y: f32,
}

impl Vec2 {
    fn new(x: f32, y: f32) -> Self {
        Vec2 { x, y }
    }

    fn bits(self) -> Point {
        Point { x: b(self.x), y: b(self.y) }
    }
}

type Math = FloatMath<
    fn(BinaryOp, u32, u32) -> u32,
    fn(UnaryOp, u32) -> u32,
    fn(WholeOp, u32) -> i32,
    fn(&Vec<u32>) -> u32,
>;

fn binary(op: BinaryOp, x: u32, y: u32) -> u32 {
    let (x, y) = (f32::from_bits(x), f32::from_bits(y));
    let r = match op {
        BinaryOp::Add => x + y,
        BinaryOp::Sub => x - y,
        BinaryOp::Mul => x * y,
        BinaryOp::Div => x / y,
        BinaryOp::Pow => x.powf(y),
        BinaryOp::RemEuclid => x.rem_euclid(y),
        BinaryOp::Atan2 => x.atan2(y),
    };
    r.to_bits()
}

fn unary(op: UnaryOp, x: u32) -> u32 {
    let x = f32::from_bits(x);
    let r = match op {
        UnaryOp::Sqrt => x.sqrt(),
        UnaryOp::Round => x.round(),
    };
    r.to_bits()
}

fn whole(op: WholeOp, x: u32) -> i32 {
    let x = f32::from_bits(x);
    match op {
        WholeOp::Floor => x.floor() as i32,
        WholeOp::Ceil => x.ceil() as i32,
    }
}

fn mean(numbers: &Vec<u32>) -> u32 {
    let sum: f64 = numbers.iter().map(|n| f32::from_bits(*n) as f64).sum();
    ((sum / numbers.len() as f64) as f32).to_bits()
}

fn math() -> Math {
    FloatMath { binary, unary, whole, mean }
}

fn kern() -> FloatKernel<Math> {
    FloatKernel { math: math() }
}


// BrushStrokeCmd

#[test]
fn brush_stroke_cmd_writes_edits_and_round_trips_byte_identical() {
    let mut doc = Document::new(16, 16);
    let layer = doc.add_raster_layer("L");
    // Seed two pixels so undo has something to restore.
    {
        let buf = doc.layer_mut(layer).unwrap().buffer_mut().unwrap();
        buf.put(IVec2::new(0, 0), Rgba32F::new(0.0, 0.0, 0.0, 1.0));
        buf.put(IVec2::new(1, 0), Rgba32F::new(0.0, 0.0, 0.0, 1.0));
    }
    let before = doc.layer(layer).unwrap().buffer().unwrap().clone();

    let edits = vec![
        (IVec2::new(0, 0), Rgba32F::new(1.0, 0.0, 0.0, 1.0)),
        (IVec2::new(1, 0), Rgba32F::new(0.0, 1.0, 0.0, 1.0)),
    ];
    let mut cmd = brush_stroke_cmd(layer, edits);
    cmd.apply(&mut doc).unwrap();
    assert_eq!(
        doc.layer(layer)
            .unwrap()
            .buffer()
            .unwrap()
            .px(IVec2::new(0, 0)),
        Rgba32F::new(1.0, 0.0, 0.0, 1.0)
    );
    assert_eq!(
        doc.layer(layer)
            .unwrap()
            .buffer()
            .unwrap()
            .px(IVec2::new(1, 0)),
        Rgba32F::new(0.0, 1.0, 0.0, 1.0)
    );
    // Outside the edits: unchanged.
    assert_eq!(
        doc.layer(layer)
            .unwrap()
            .buffer()
            .unwrap()
            .px(IVec2::new(5, 5)),
        Rgba32F::TRANSPARENT,
    );

    // Undo restores the touched tiles byte-for-byte.
    cmd.undo(&mut doc);
    assert!(same_buffer(doc.layer(layer).unwrap().buffer().unwrap(), &before));

    // Redo is byte-identical to the first apply.
    cmd.apply(&mut doc).unwrap();
    assert_eq!(
        doc.layer(layer)
            .unwrap()
            .buffer()
            .unwrap()
            .px(IVec2::new(0, 0)),
        Rgba32F::new(1.0, 0.0, 0.0, 1.0)
    );
}

#[test]
fn brush_stroke_cmd_empty_edits_and_non_raster_rejection() {
    let mut doc = Document::new(8, 8);
    let layer = doc.add_raster_layer("L");
    // Empty edits: no-op but sets active and snapshots nothing.
    let mut cmd = brush_stroke_cmd(layer, Vec::new());
    cmd.apply(&mut doc).unwrap();
    assert_eq!(doc.active, Some(layer));
    cmd.undo(&mut doc); // no-op undo is safe.

    // Non-raster (adjustment) layer → NotRaster error, no pixels touched.
    let adj = doc.add_adjustment_layer("A", AdjustmentKind::Invert);
    let mut bad = brush_stroke_cmd(adj, vec![(IVec2::new(0, 0), Rgba32F::TRANSPARENT)]);
    assert!(bad.apply(&mut doc).is_err());
}

#[test]
fn brush_stroke_cmd_referenced_layers_is_target() {
    let layer = LayerId::null();
    let cmd = brush_stroke_cmd(layer, Vec::new());
    assert_eq!(cmd.referenced_layers(), vec![layer]);
    assert_eq!(cmd.label(), "Brush stroke");
}

// Command trait

struct SetOpacityCmd {
    layer: LayerId,
    old_opacity: Option<u32>,
    new_opacity: u32,
}

impl SetOpacityCmd {
    fn new(layer: LayerId, opacity: f32) -> Self {
        Self {
            layer,
            old_opacity: None,
            new_opacity: b(opacity),
        }
    }
}

impl Command for SetOpacityCmd {
    fn label(&self) -> &'static str {
        "Set opacity"
    }

    fn apply(&mut self, doc: &mut Document) -> Result<(), OgreError> {
        let layer = doc.layer_mut(self.layer)?;
        self.old_opacity = Some(layer.opacity);
        layer.opacity = self.new_opacity;
        Ok(())
    }

    fn undo(&mut self, doc: &mut Document) {
        if let Some(opacity) = self.old_opacity {
            if let Ok(layer) = doc.layer_mut(self.layer) {
                layer.opacity = opacity;
            }
        }
    }

    fn cleanup(&self, _doc: &mut Document) {}

    fn referenced_layers(&self) -> Vec<LayerId> {
        Vec::new()
    }
}

#[test]
fn set_opacity_cmd_applies_and_undoes() {
    let mut doc = Document::new(100, 100);
    let id = doc.add_raster_layer("L");
    assert_eq!(f(doc.layer(id).unwrap().opacity), 1.0);

    let mut cmd = SetOpacityCmd::new(id, 0.5);
    cmd.apply(&mut doc).unwrap();
    assert_eq!(f(doc.layer(id).unwrap().opacity), 0.5);

    cmd.undo(&mut doc);
    assert_eq!(f(doc.layer(id).unwrap().opacity), 1.0);
}

// History stack

#[test]
fn history_push_undo_redo_restores_state() {
    let mut doc = Document::new(100, 100);
    let id = doc.add_raster_layer("L");

    let mut history = History::new(0);
    history
        .do_command(&mut doc, Box::new(SetOpacityCmd::new(id, 0.25)))
        .unwrap();
    history
        .do_command(&mut doc, Box::new(SetOpacityCmd::new(id, 0.75)))
        .unwrap();

    assert_eq!(f(doc.layer(id).unwrap().opacity), 0.75);
    history.undo(&mut doc);
    assert_eq!(f(doc.layer(id).unwrap().opacity), 0.25);
    history.undo(&mut doc);
    assert_eq!(f(doc.layer(id).unwrap().opacity), 1.0);
    history.redo(&mut doc);
    assert_eq!(f(doc.layer(id).unwrap().opacity), 0.25);
    history.redo(&mut doc);
    assert_eq!(f(doc.layer(id).unwrap().opacity), 0.75);
}

#[test]
fn history_push_after_undo_clears_redo_stack() {
    let mut doc = Document::new(100, 100);
    let id = doc.add_raster_layer("L");

    let mut history = History::new(0);
    history
        .do_command(&mut doc, Box::new(SetOpacityCmd::new(id, 0.25)))
        .unwrap();
    history
        .do_command(&mut doc, Box::new(SetOpacityCmd::new(id, 0.75)))
        .unwrap();
    history.undo(&mut doc);

    history
        .do_command(&mut doc, Box::new(SetOpacityCmd::new(id, 0.5)))
        .unwrap();

    assert_eq!(history.redo_len(), 0);
    assert_eq!(f(doc.layer(id).unwrap().opacity), 0.5);
    history.redo(&mut doc);
    assert_eq!(f(doc.layer(id).unwrap().opacity), 0.5);
}

#[test]
fn history_depth_limit_evicts_oldest() {
    let mut doc = Document::new(100, 100);
    let id = doc.add_raster_layer("L");

    let mut history = History::new(2);
    history
        .do_command(&mut doc, Box::new(SetOpacityCmd::new(id, 0.1)))
        .unwrap();
    history
        .do_command(&mut doc, Box::new(SetOpacityCmd::new(id, 0.2)))
        .unwrap();
    history
        .do_command(&mut doc, Box::new(SetOpacityCmd::new(id, 0.3)))
        .unwrap();

    assert_eq!(history.undo_len(), 2);
    history.undo(&mut doc);
    history.undo(&mut doc);
    // The oldest command (0.1) was evicted, so only two undos are possible
    // and we end at 0.1 (the untouched state).
    assert_eq!(f(doc.layer(id).unwrap().opacity), 0.1);
}

#[test]
fn history_clear_drops_both_stacks() {
    let mut doc = Document::new(100, 100);
    let id = doc.add_raster_layer("L");

    let mut history = History::new(0);
    history
        .do_command(&mut doc, Box::new(SetOpacityCmd::new(id, 0.5)))
        .unwrap();
    history.undo(&mut doc);
    history.clear(&mut doc);

    assert_eq!(history.undo_len(), 0);
    assert_eq!(history.redo_len(), 0);
}

// Snapshot efficiency

#[test]
fn paint_cmd_snapshots_exactly_one_tile_and_no_deep_copy() {
    let mut doc = Document::new(100, 100);
    let layer = doc.add_raster_layer("Paint");

    // Materialise exactly one tile.
    doc.layer_mut(layer)
        .unwrap()
        .buffer_mut()
        .unwrap()
        .put(IVec2::new(0, 0), Rgba32F::new(1.0, 0.0, 0.0, 1.0));

    let pre_edit_tile = doc
        .layer(layer)
        .unwrap()
        .buffer()
        .unwrap()
        .get_tile(TileCoord { x: 0, y: 0 })
        .unwrap();

    let mut cmd = paint_cmd(
        layer,
        vec![(IVec2::new(1, 1), Rgba32F::new(0.0, 1.0, 0.0, 1.0))],
    );

    // Snapshotting happens during apply, not construction.
    cmd.apply(&mut doc).unwrap();

    // The command should have captured exactly one tile snapshot.
    assert_eq!(cmd.snapshots.len(), 1);
    assert_eq!(cmd.snapshots[0].0, TileCoord { x: 0, y: 0 });
    assert!(Arc::ptr_eq(
        cmd.snapshots[0].1.as_ref().unwrap(),
        &pre_edit_tile
    ));
}

// Command wrappers (smoke tests)

#[test]
fn paint_cmd_round_trips() {
    let mut doc = Document::new(100, 100);
    let layer = doc.add_raster_layer("Paint");

    let mut history = History::new(0);
    history
        .do_command(
            &mut doc,
            Box::new(paint_cmd(
                layer,
                vec![(IVec2::new(5, 5), Rgba32F::new(1.0, 0.0, 0.0, 1.0))],
            )),
        )
        .unwrap();

    assert_eq!(
        doc.layer(layer)
            .unwrap()
            .buffer()
            .unwrap()
            .px(IVec2::new(5, 5)),
        Rgba32F::new(1.0, 0.0, 0.0, 1.0)
    );

    history.undo(&mut doc);
    assert_eq!(
        doc.layer(layer)
            .unwrap()
            .buffer()
            .unwrap()
            .px(IVec2::new(5, 5)),
        Rgba32F::TRANSPARENT
    );
}

#[test]
fn paint_stroke_cmd_round_trips() {

    let mut doc = Document::new(2000, 1500);
    let layer = doc.add_raster_layer("Stroke");

    // Seed a tile that the stroke will not touch so we can verify that
    // untouched tiles keep their original Arc after undo.
    doc.layer_mut(layer)
        .unwrap()
        .buffer_mut()
        .unwrap()
        .put(IVec2::new(0, 0), Rgba32F::new(0.0, 1.0, 0.0, 1.0));

    let settings = BrushSettings {
        size: b(20.0),
        hardness: b(1.0),
        opacity: b(1.0),
        pressure_size: false,
        pressure_opacity: false,
        ..Default::default()
    };

    let samples = vec![
        InputSample::new(Vec2::new(1000.0, 700.0).bits()),
        InputSample::new(Vec2::new(1010.0, 700.0).bits()),
    ];
    let red = Rgba32F::new(1.0, 0.0, 0.0, 1.0);

    let mut history = History::new(0);
    history
        .do_command(
            &mut doc,
            Box::new(paint_stroke_cmd(
                layer,
                samples,
                settings,
                red,
                PaintMode::Brush,
            )),
        )
        .unwrap();

    assert!(
        doc.layer(layer)
            .unwrap()
            .buffer()
            .unwrap()
            .px(IVec2::new(1000, 700))
            .a
            > 0.0
    );

    let before_undo = doc.layer(layer).unwrap().buffer().unwrap().clone();
    history.undo(&mut doc);
    assert_eq!(
        doc.layer(layer)
            .unwrap()
            .buffer()
            .unwrap()
            .px(IVec2::new(1000, 700)),
        Rgba32F::TRANSPARENT
    );

    // Tiles that were never touched must still share the original Arc.
    let tile = TileCoord { x: 0, y: 0 };
    assert!(Arc::ptr_eq(
        &before_undo.get_tile(tile).unwrap(),
        &doc.layer(layer)
            .unwrap()
            .buffer()
            .unwrap()
            .get_tile(tile)
            .unwrap()
    ));

    // The touched tile was restored to its pre-stroke state.
    let touched = TileCoord { x: 3, y: 2 };
    assert_eq!(
        doc.layer(layer)
            .unwrap()
            .buffer()
            .unwrap()
            .px(IVec2::new(1000, 700)),
        Rgba32F::TRANSPARENT
    );
    assert!(doc
        .layer(layer)
        .unwrap()
        .buffer()
        .unwrap()
        .get_tile(touched)
        .is_none());
}

#[test]
fn paint_stroke_cmd_paints_and_restores_beyond_the_samples() {
    let mut doc = Document::new(600, 200);
    let layer = doc.add_raster_layer("Stroke");
    let settings = BrushSettings {
        size: b(20.0),
        hardness: b(1.0),
        opacity: b(1.0),
        spacing: b(0.25),
        pressure_size: true,
        pressure_opacity: false,
        ..Default::default()
    };
    // The pressure passes one right after the first sample, so that a stamp of full
    // width reaches to the left of it, into the tile next to it.
    let samples = vec![
        InputSample::with_pressure(Vec2::new(258.0, 100.0).bits(), b(0.0)),
        InputSample::with_pressure(Vec2::new(358.0, 100.0).bits(), b(100.0)),
    ];
    let red = Rgba32F::new(1.0, 0.0, 0.0, 1.0);
    let beyond = IVec2::new(254, 100);
    let mut cmd = paint_stroke_cmd(layer, samples, settings, red, PaintMode::Brush);
    cmd.apply(&mut doc).unwrap();
    let buffer = doc.layer(layer).unwrap().buffer().unwrap();
    assert_eq!(buffer.px(beyond), red);
    assert!(buffer.get_tile(TileCoord { x: 0, y: 0 }).is_some());
    cmd.undo(&mut doc);
    assert!(doc.layer(layer).unwrap().buffer().unwrap().is_empty());
}

#[test]
fn copy_to_new_layer_cmd_round_trips() {
    let mut doc = Document::new(2000, 1500);
    let src = doc.add_raster_layer("src");
    let target = IVec2::new(1000, 700);
    doc.layer_mut(src)
        .unwrap()
        .buffer_mut()
        .unwrap()
        .put(target, Rgba32F::new(0.2, 0.4, 0.9, 1.0));

    let mut history = History::new(0);
    let sel = Selection::rect(Rect::new(990, 690, 40, 40));
    history
        .do_command(&mut doc, Box::new(CopyToNewLayerCmd::new(kern(), src, sel)))
        .unwrap();

    let new_id = doc.active.unwrap();
    assert_eq!(
        doc.layer(new_id)
            .unwrap()
            .buffer()
            .unwrap()
            .px(target),
        Rgba32F::new(0.2, 0.4, 0.9, 1.0)
    );

    history.undo(&mut doc);
    assert!(matches!(
        doc.layer(new_id),
        Err(OgreError::LayerNotFound(_))
    ));
    assert_eq!(doc.active, Some(src));
}

#[test]
fn cut_to_new_layer_cmd_round_trips() {
    let mut doc = Document::new(2000, 1500);
    let src = doc.add_raster_layer("src");
    let target = IVec2::new(1000, 700);
    doc.layer_mut(src)
        .unwrap()
        .buffer_mut()
        .unwrap()
        .put(target, Rgba32F::new(0.2, 0.4, 0.9, 1.0));

    let mut history = History::new(0);
    let sel = Selection::rect(Rect::new(990, 690, 40, 40));
    history
        .do_command(&mut doc, Box::new(CutToNewLayerCmd::new(kern(), src, sel)))
        .unwrap();

    let new_id = doc.active.unwrap();
    assert_eq!(
        doc.layer(new_id)
            .unwrap()
            .buffer()
            .unwrap()
            .px(target),
        Rgba32F::new(0.2, 0.4, 0.9, 1.0)
    );
    assert_eq!(
        doc.layer(src).unwrap().buffer().unwrap().px(target),
        Rgba32F::TRANSPARENT
    );

    history.undo(&mut doc);
    // The cut command now soft-deletes the new layer so later commands that
    // reference it (e.g. MoveLayerByCmd) remain valid across undo/redo.
    assert!(doc.layer(new_id).is_ok());
    assert!(doc.is_removed(new_id));
    assert!(!doc.order.contains(&new_id));
    assert_eq!(
        doc.layer(src).unwrap().buffer().unwrap().px(target),
        Rgba32F::new(0.2, 0.4, 0.9, 1.0)
    );
}

#[test]
fn delete_layer_cmd_round_trips() {
    let mut doc = Document::new(100, 100);
    let a = doc.add_raster_layer("A");
    let bb = doc.add_raster_layer("B");

    let mut history = History::new(0);
    history
        .do_command(&mut doc, Box::new(DeleteLayerCmd::new(a)))
        .unwrap();

    // Soft delete keeps the layer in the arena but marks it removed and
    // takes it out of the render tree.
    assert!(doc.layer(a).is_ok());
    assert!(doc.is_removed(a));
    assert_eq!(doc.order, vec![bb]);

    history.undo(&mut doc);
    assert!(!doc.is_removed(a));
    assert_eq!(doc.layer(a).unwrap().name, "A");
    assert_eq!(doc.order, vec![a, bb]);
}

#[test]
fn delete_after_paint_undoes_with_stable_id() {
    let mut doc = Document::new(100, 100);
    let a = doc.add_raster_layer("A");

    let mut history = History::new(0);
    history
        .do_command(
            &mut doc,
            Box::new(paint_cmd(
                a,
                vec![(IVec2::new(5, 5), Rgba32F::new(1.0, 0.0, 0.0, 1.0))],
            )),
        )
        .unwrap();
    history
        .do_command(&mut doc, Box::new(DeleteLayerCmd::new(a)))
        .unwrap();

    // Undo delete first, then paint; the paint command must still find
    // layer `a` because the soft delete preserved its id.
    history.undo(&mut doc);
    history.undo(&mut doc);
    assert_eq!(
        doc.layer(a)
            .unwrap()
            .buffer()
            .unwrap()
            .px(IVec2::new(5, 5)),
        Rgba32F::TRANSPARENT
    );
}

#[test]
fn reorder_cmd_round_trips() {
    let mut doc = Document::new(100, 100);
    let a = doc.add_raster_layer("A");
    let bb = doc.add_raster_layer("B");
    let c = doc.add_raster_layer("C");

    let mut history = History::new(0);
    history
        .do_command(&mut doc, Box::new(ReorderCmd::new(a, 2)))
        .unwrap();

    assert_eq!(doc.order, vec![bb, c, a]);

    history.undo(&mut doc);
    assert_eq!(doc.order, vec![a, bb, c]);
}

// Redo-after-undo for layer commands

#[test]
fn delete_layer_cmd_redo_after_undo() {
    let mut doc = Document::new(100, 100);
    let a = doc.add_raster_layer("A");
    let bb = doc.add_raster_layer("B");

    let mut history = History::new(0);
    history
        .do_command(&mut doc, Box::new(DeleteLayerCmd::new(a)))
        .unwrap();

    history.undo(&mut doc);
    assert!(!doc.is_removed(a));
    assert_eq!(doc.order, vec![a, bb]);

    history.redo(&mut doc);
    assert!(doc.is_removed(a));
    assert_eq!(doc.order, vec![bb]);
}

#[test]
fn copy_to_new_layer_cmd_redo_after_undo() {
    let mut doc = Document::new(2000, 1500);
    let src = doc.add_raster_layer("src");
    let target = IVec2::new(1000, 700);
    doc.layer_mut(src)
        .unwrap()
        .buffer_mut()
        .unwrap()
        .put(target, Rgba32F::new(0.2, 0.4, 0.9, 1.0));

    let mut history = History::new(0);
    let sel = Selection::rect(Rect::new(990, 690, 40, 40));
    history
        .do_command(&mut doc, Box::new(CopyToNewLayerCmd::new(kern(), src, sel)))
        .unwrap();

    let first_id = doc.active.unwrap();
    history.undo(&mut doc);
    assert!(matches!(
        doc.layer(first_id),
        Err(OgreError::LayerNotFound(_))
    ));

    history.redo(&mut doc);
    let second_id = doc.active.unwrap();
    assert_eq!(
        doc.layer(second_id)
            .unwrap()
            .buffer()
            .unwrap()
            .px(target),
        Rgba32F::new(0.2, 0.4, 0.9, 1.0)
    );
}

#[test]
fn cut_to_new_layer_cmd_redo_after_undo() {
    let mut doc = Document::new(2000, 1500);
    let src = doc.add_raster_layer("src");
    let target = IVec2::new(1000, 700);
    doc.layer_mut(src)
        .unwrap()
        .buffer_mut()
        .unwrap()
        .put(target, Rgba32F::new(0.2, 0.4, 0.9, 1.0));

    let mut history = History::new(0);
    let sel = Selection::rect(Rect::new(990, 690, 40, 40));
    history
        .do_command(&mut doc, Box::new(CutToNewLayerCmd::new(kern(), src, sel)))
        .unwrap();

    let first_id = doc.active.unwrap();
    history.undo(&mut doc);
    assert!(doc.layer(first_id).is_ok());
    assert!(doc.is_removed(first_id));
    assert_eq!(
        doc.layer(src).unwrap().buffer().unwrap().px(target),
        Rgba32F::new(0.2, 0.4, 0.9, 1.0)
    );

    history.redo(&mut doc);
    let second_id = doc.active.unwrap();
    assert_eq!(second_id, first_id, "redo must restore the same layer id");
    assert_eq!(
        doc.layer(second_id)
            .unwrap()
            .buffer()
            .unwrap()
            .px(target),
        Rgba32F::new(0.2, 0.4, 0.9, 1.0)
    );
    assert_eq!(
        doc.layer(src).unwrap().buffer().unwrap().px(target),
        Rgba32F::TRANSPARENT
    );
}

#[test]
fn reorder_cmd_redo_after_undo() {
    let mut doc = Document::new(100, 100);
    let a = doc.add_raster_layer("A");
    let bb = doc.add_raster_layer("B");
    let c = doc.add_raster_layer("C");

    let mut history = History::new(0);
    history
        .do_command(&mut doc, Box::new(ReorderCmd::new(a, 2)))
        .unwrap();

    history.undo(&mut doc);
    assert_eq!(doc.order, vec![a, bb, c]);

    history.redo(&mut doc);
    assert_eq!(doc.order, vec![bb, c, a]);
}

#[test]
fn evicted_add_does_not_hard_remove_layer_referenced_by_later_delete() {
    let mut doc = Document::new(100, 100);
    let _a = doc.add_raster_layer("A");
    let bb = doc.add_raster_layer("B");

    let mut history = History::new(2);
    history
        .do_command(&mut doc, Box::new(AddRasterLayerCmd::new("A")))
        .unwrap();
    let added = doc.active.unwrap();
    history
        .do_command(&mut doc, Box::new(DeleteLayerCmd::new(added)))
        .unwrap();

    // Pushing a third command evicts the add. The delete still references
    // the soft-removed layer, so cleanup must be skipped.
    history
        .do_command(&mut doc, Box::new(SetOpacityCmd::new(bb, 0.5)))
        .unwrap();

    history.undo(&mut doc); // undo set opacity
    history.undo(&mut doc); // undo delete -> layer restored
    assert!(doc.order.contains(&added));
    assert!(!doc.is_removed(added));
}

#[test]
fn history_depth_evicts_delete_and_reclaims_soft_deleted_layers() {
    let mut doc = Document::new(100, 100);
    let a = doc.add_raster_layer("A");
    let bb = doc.add_raster_layer("B");

    let mut history = History::new(2);
    // Fill the stack with cheap commands.
    history
        .do_command(&mut doc, Box::new(SetOpacityCmd::new(a, 0.5)))
        .unwrap();
    history
        .do_command(&mut doc, Box::new(SetOpacityCmd::new(bb, 0.5)))
        .unwrap();
    // Pushing the delete evicts the oldest opacity command.
    history
        .do_command(&mut doc, Box::new(DeleteLayerCmd::new(a)))
        .unwrap();

    // Two more commands push the soft delete off the undo stack; its
    // cleanup hook hard-removes the reclaimed layer ids.
    history
        .do_command(&mut doc, Box::new(SetOpacityCmd::new(bb, 0.25)))
        .unwrap();
    history
        .do_command(&mut doc, Box::new(SetOpacityCmd::new(bb, 0.75)))
        .unwrap();

    assert!(matches!(doc.layer(a), Err(OgreError::LayerNotFound(_))));
    assert!(doc.order.contains(&bb));
}

#[test]
fn paint_then_delete_then_undo_both_orders() {
    let mut doc = Document::new(100, 100);
    let a = doc.add_raster_layer("A");

    let mut history = History::new(0);
    history
        .do_command(
            &mut doc,
            Box::new(paint_cmd(
                a,
                vec![(IVec2::new(5, 5), Rgba32F::new(1.0, 0.0, 0.0, 1.0))],
            )),
        )
        .unwrap();
    history
        .do_command(&mut doc, Box::new(DeleteLayerCmd::new(a)))
        .unwrap();

    // Undo delete first.
    history.undo(&mut doc);
    history.undo(&mut doc);
    assert_eq!(
        doc.layer(a)
            .unwrap()
            .buffer()
            .unwrap()
            .px(IVec2::new(5, 5)),
        Rgba32F::TRANSPARENT
    );

    // Redo paint then delete.
    history.redo(&mut doc);
    history.redo(&mut doc);
    assert!(doc.is_removed(a));

    // Undo paint first (while layer is deleted) then delete.
    history.undo(&mut doc);
    history.undo(&mut doc);
    assert_eq!(
        doc.layer(a)
            .unwrap()
            .buffer()
            .unwrap()
            .px(IVec2::new(5, 5)),
        Rgba32F::TRANSPARENT
    );
}

#[test]
fn move_layer_by_cmd_rejects_overflowing_offset() {
    let mut doc = Document::new(100, 100);
    let id = doc.add_raster_layer("L");
    doc.layer_mut(id).unwrap().offset = IVec2::new(i32::MAX, 0);

    let mut cmd = MoveLayerByCmd::new(id, IVec2::new(1, 0));
    assert!(matches!(
        cmd.apply(&mut doc),
        Err(OgreError::InvalidOperation("layer offset out of range"))
    ));
    assert_eq!(doc.layer(id).unwrap().offset, IVec2::new(i32::MAX, 0));
}

#[test]
fn set_selection_cmd_round_trips() {
    let mut doc = Document::new(100, 100);
    let mut history = History::new(0);
    let r = Rect::new(10, 10, 50, 50);

    history
        .do_command(&mut doc, Box::new(SetSelectionCmd::new(Selection::rect(r))))
        .unwrap();
    assert!(same_selection(&doc.selection, &Selection::rect(r)));

    history.undo(&mut doc);
    assert!(doc.selection.is_empty());

    history.redo(&mut doc);
    assert!(same_selection(&doc.selection, &Selection::rect(r)));
}

#[test]
fn set_selection_cmd_add_mode_combines_and_restores() {
    let mut doc = Document::new(100, 100);
    let mut history = History::new(0);
    let a = Rect::new(0, 0, 10, 10);
    let other = Rect::new(5, 5, 10, 10);

    history
        .do_command(&mut doc, Box::new(SetSelectionCmd::new(Selection::rect(a))))
        .unwrap();
    history
        .do_command(
            &mut doc,
            Box::new(SetSelectionCmd::with_mode(
                Selection::rect(other),
                SelectionMode::Add,
            )),
        )
        .unwrap();
    assert!(doc.selection.cov(IVec2::new(2, 2)) > 0.0);
    assert!(doc.selection.cov(IVec2::new(12, 12)) > 0.0);

    history.undo(&mut doc);
    assert!(same_selection(&doc.selection, &Selection::rect(a)));

    history.redo(&mut doc);
    assert!(doc.selection.cov(IVec2::new(12, 12)) > 0.0);
}

#[test]
fn set_selection_cmd_subtract_mode_removes_region() {
    let mut doc = Document::new(100, 100);
    let mut history = History::new(0);
    let a = Rect::new(0, 0, 10, 10);
    let other = Rect::new(5, 0, 10, 10);

    history
        .do_command(&mut doc, Box::new(SetSelectionCmd::new(Selection::rect(a))))
        .unwrap();
    history
        .do_command(
            &mut doc,
            Box::new(SetSelectionCmd::with_mode(
                Selection::rect(other),
                SelectionMode::Subtract,
            )),
        )
        .unwrap();
    assert!(doc.selection.cov(IVec2::new(2, 2)) > 0.0);
    assert_eq!(doc.selection.cov(IVec2::new(7, 2)), 0.0);

    history.undo(&mut doc);
    assert!(same_selection(&doc.selection, &Selection::rect(a)));

    history.redo(&mut doc);
    assert_eq!(doc.selection.cov(IVec2::new(7, 2)), 0.0);
}

#[test]
fn set_selection_cmd_intersect_mode_keeps_overlap() {
    let mut doc = Document::new(100, 100);
    let mut history = History::new(0);
    let a = Rect::new(0, 0, 10, 10);
    let other = Rect::new(5, 5, 10, 10);

    history
        .do_command(&mut doc, Box::new(SetSelectionCmd::new(Selection::rect(a))))
        .unwrap();
    history
        .do_command(
            &mut doc,
            Box::new(SetSelectionCmd::with_mode(
                Selection::rect(other),
                SelectionMode::Intersect,
            )),
        )
        .unwrap();
    assert_eq!(doc.selection.cov(IVec2::new(7, 7)), 1.0);
    assert_eq!(doc.selection.cov(IVec2::new(2, 2)), 0.0);

    history.undo(&mut doc);
    assert!(same_selection(&doc.selection, &Selection::rect(a)));

    history.redo(&mut doc);
    assert_eq!(doc.selection.cov(IVec2::new(7, 7)), 1.0);
}

#[test]
fn magic_wand_cmd_selects_and_restores() {

    let mut doc = Document::new(100, 100);
    let id = doc.add_raster_layer("L");
    doc.layer_mut(id)
        .unwrap()
        .buffer_mut()
        .unwrap()
        .put(IVec2::new(5, 5), Rgba32F::new(1.0, 0.0, 0.0, 1.0));
    doc.layer_mut(id)
        .unwrap()
        .buffer_mut()
        .unwrap()
        .put(IVec2::new(6, 5), Rgba32F::new(1.0, 0.0, 0.0, 1.0));

    let mut history = History::new(0);
    history
        .do_command(
            &mut doc,
            Box::new(magic_wand_cmd(
                IVec2::new(5, 5),
                0.1,
                true,
                SelectionMode::Replace,
            )),
        )
        .unwrap();
    assert!(doc.selection.cov(IVec2::new(5, 5)) > 0.0);
    assert!(doc.selection.cov(IVec2::new(6, 5)) > 0.0);

    history.undo(&mut doc);
    assert!(doc.selection.is_empty());

    history.redo(&mut doc);
    assert!(doc.selection.cov(IVec2::new(5, 5)) > 0.0);
}

#[test]
fn invert_selection_cmd_round_trips() {
    let mut doc = Document::new(100, 100);
    doc.selection = Selection::rect(Rect::new(10, 10, 20, 20));
    let original = doc.selection.clone();

    let mut history = History::new(0);
    history
        .do_command(&mut doc, Box::new(InvertSelectionCmd::new()))
        .unwrap();

    assert_eq!(doc.selection.cov(IVec2::new(0, 0)), 1.0);
    assert_eq!(doc.selection.cov(IVec2::new(15, 15)), 0.0);

    history.undo(&mut doc);
    assert!(same_selection(&doc.selection, &original));

    history.redo(&mut doc);
    assert_eq!(doc.selection.cov(IVec2::new(0, 0)), 1.0);
}

#[test]
fn feather_selection_cmd_round_trips() {
    let mut doc = Document::new(100, 100);
    doc.selection = Selection::rect(Rect::new(20, 20, 20, 20));
    let original = doc.selection.clone();

    let mut history = History::new(0);
    history
        .do_command(&mut doc, Box::new(FeatherSelectionCmd::new(soften, b(2.0))))
        .unwrap();

    assert!(doc.selection.bounds().unwrap().x < 20);
    assert!((doc.selection.cov(IVec2::new(30, 30)) - 1.0).abs() < 1e-5);

    history.undo(&mut doc);
    assert!(same_selection(&doc.selection, &original));
}

#[test]
fn grow_selection_cmd_round_trips() {
    let mut doc = Document::new(100, 100);
    doc.selection = Selection::rect(Rect::new(20, 20, 10, 10));
    let original = doc.selection.clone();

    let mut history = History::new(0);
    history
        .do_command(&mut doc, Box::new(GrowSelectionCmd::new(3)))
        .unwrap();

    assert_eq!(doc.selection.cov(IVec2::new(17, 25)), 1.0);

    history.undo(&mut doc);
    assert!(same_selection(&doc.selection, &original));
}

#[test]
fn shrink_selection_cmd_round_trips() {
    let mut doc = Document::new(100, 100);
    doc.selection = Selection::rect(Rect::new(20, 20, 10, 10));
    let original = doc.selection.clone();

    let mut history = History::new(0);
    history
        .do_command(&mut doc, Box::new(ShrinkSelectionCmd::new(2)))
        .unwrap();

    assert_eq!(doc.selection.cov(IVec2::new(22, 22)), 1.0);
    assert_eq!(doc.selection.cov(IVec2::new(20, 22)), 0.0);

    history.undo(&mut doc);
    assert!(same_selection(&doc.selection, &original));
}

// TransformLayerCmd

#[test]
fn transform_layer_cmd_resamples_and_undo_restores() {

    let mut doc = Document::new(100, 100);
    let id = doc.add_raster_layer("L");
    for y in 0..5 {
        for x in 0..5 {
            doc.layer_mut(id)
                .unwrap()
                .buffer_mut()
                .unwrap()
                .put(IVec2::new(x, y), Rgba32F::new(1.0, 0.0, 0.0, 1.0));
        }
    }

    let original_buffer = doc.layer(id).unwrap().buffer().unwrap().clone();
    let original_offset = doc.layer(id).unwrap().offset;

    // 5x5 block at (0,0)-(4,4); centre is (2,2). Scale 2x about centre.
    let centre = Vec2::new(2.0, 2.0);
    let affine = affine([2.0, 0.0, 0.0, 2.0, centre.x * (1.0 - 2.0), centre.y * (1.0 - 2.0)]);

    let mut history = History::new(0);
    history
        .do_command(&mut doc, Box::new(TransformLayerCmd::new(sampling(), id, affine)))
        .unwrap();

    let layer = doc.layer(id).unwrap();
    // Source corner (0,0) maps to (-2,-2); new offset is floor of that.
    assert_eq!(layer.offset, IVec2::new(-2, -2));
    // Source (2,2) is the centre of the 5x5 block; scaling about that centre
    // maps it to dest doc (2,2), which with offset (-2,-2) is local (4,4).
    assert_eq!(
        layer.buffer().unwrap().px(IVec2::new(4, 4)),
        Rgba32F::new(1.0, 0.0, 0.0, 1.0)
    );
    // Bounds grew substantially (the 5x5 interior scaled to 10x10).
    let bounds = layer.buffer().unwrap().exact_bounds().unwrap();
    assert!(bounds.w >= 10 && bounds.h >= 10);

    history.undo(&mut doc);
    let layer = doc.layer(id).unwrap();
    assert!(same_buffer(layer.buffer().unwrap(), &original_buffer));
    assert_eq!(layer.offset, original_offset);
}

/// Writes the numbers of a map down in two pixels.
fn recorded(_source: &TiledBuffer, map: Affine2) -> TiledBuffer {
    let mut out = TiledBuffer::new();
    let (x, y, t) = (map.x_axis, map.y_axis, map.translation);
    out.set_pixel(IVec2::new(0, 0), Pixel::new(x.x, x.y, y.x, y.y));
    out.set_pixel(IVec2::new(1, 0), Pixel::new(t.x, t.y, b(0.0), b(1.0)));
    out
}

#[test]
fn transforms_resample_through_the_local_map() {
    let mut doc = Document::new(100, 100);
    let id = doc.add_raster_layer("L");
    let layer = doc.layer_mut(id).unwrap();
    layer.offset = IVec2::new(10, 20);
    layer.buffer_mut().unwrap().put(IVec2::new(0, 0), Rgba32F::new(1.0, 0.0, 0.0, 1.0));
    let sampling =
        TransformMath { math: math(), resample: recorded, project: keystone, warp: unwarped };
    let map = affine([2.0, 0.0, 0.0, 3.0, 5.5, 7.25]);
    TransformLayerCmd::new(sampling, id, map).apply(&mut doc).unwrap();
    let layer = doc.layer(id).unwrap();
    // The corner (10, 20) goes to (25.5, 67.25).
    assert_eq!(layer.offset, IVec2::new(25, 67));
    let buffer = layer.buffer().unwrap();
    assert_eq!(buffer.px(IVec2::new(0, 0)), Rgba32F::new(2.0, 0.0, 0.0, 3.0));
    assert_eq!(buffer.px(IVec2::new(1, 0)), Rgba32F::new(0.5, 0.25, 0.0, 1.0));
}

#[test]
fn transform_layer_cmd_rejects_locked_layer() {

    let mut doc = Document::new(100, 100);
    let id = doc.add_raster_layer("L");
    doc.layer_mut(id).unwrap().locked = true;

    let mut cmd = TransformLayerCmd::new(sampling(), id, affine([1.0, 0.0, 0.0, 1.0, 5.0, 5.0]));
    assert!(matches!(
        cmd.apply(&mut doc),
        Err(OgreError::LayerLocked(_))
    ));
}

#[test]
fn transform_layer_cmd_undo_redo_round_trips() {

    let mut doc = Document::new(100, 100);
    let id = doc.add_raster_layer("L");
    for y in 0..5 {
        for x in 0..5 {
            doc.layer_mut(id)
                .unwrap()
                .buffer_mut()
                .unwrap()
                .put(IVec2::new(x, y), Rgba32F::new(1.0, 0.0, 0.0, 1.0));
        }
    }

    let affine = affine([1.0, 0.0, 0.0, 1.0, 3.5, 4.0]);
    let mut history = History::new(0);
    history
        .do_command(&mut doc, Box::new(TransformLayerCmd::new(sampling(), id, affine)))
        .unwrap();

    let transformed_buffer = doc.layer(id).unwrap().buffer().unwrap().clone();
    let transformed_offset = doc.layer(id).unwrap().offset;

    history.undo(&mut doc);
    assert_eq!(doc.layer(id).unwrap().offset, IVec2::zero());

    history.redo(&mut doc);
    let layer = doc.layer(id).unwrap();
    assert!(same_buffer(layer.buffer().unwrap(), &transformed_buffer));
    assert_eq!(layer.offset, transformed_offset);
}

#[test]
fn transform_layer_cmd_rejects_non_raster_layer() {

    let mut doc = Document::new(100, 100);
    let bg = doc.add_raster_layer("bg");
    let group = Layer::new_group("G");
    let id = doc.insert_layer_above(group, bg).unwrap();

    let mut cmd = TransformLayerCmd::new(sampling(), id, affine([1.0, 0.0, 0.0, 1.0, 5.0, 5.0]));
    assert!(matches!(cmd.apply(&mut doc), Err(OgreError::NotRaster)));
}

#[test]
fn transform_layer_cmd_identity_is_no_op() {

    let mut doc = Document::new(100, 100);
    let id = doc.add_raster_layer("L");
    for y in 0..5 {
        for x in 0..5 {
            doc.layer_mut(id)
                .unwrap()
                .buffer_mut()
                .unwrap()
                .put(IVec2::new(x, y), Rgba32F::new(1.0, 0.0, 0.0, 1.0));
        }
    }
    doc.active = None;

    let original_buffer = doc.layer(id).unwrap().buffer().unwrap().clone();
    let original_offset = doc.layer(id).unwrap().offset;

    let mut history = History::new(0);
    history
        .do_command(
            &mut doc,
            Box::new(TransformLayerCmd::new(sampling(), id, affine([1.0, 0.0, 0.0, 1.0, 0.0, 0.0]))),
        )
        .unwrap();

    let layer = doc.layer(id).unwrap();
    assert!(same_buffer(layer.buffer().unwrap(), &original_buffer));
    assert_eq!(layer.offset, original_offset);
    assert_eq!(doc.active, Some(id));
}

#[test]
fn transform_layer_cmd_perspective_keystone_maps_corners() {

    let mut doc = Document::new(100, 100);
    let id = doc.add_raster_layer("L");
    for y in 0..5 {
        for x in 0..5 {
            doc.layer_mut(id)
                .unwrap()
                .buffer_mut()
                .unwrap()
                .put(IVec2::new(x, y), Rgba32F::new(1.0, 0.0, 0.0, 1.0));
        }
    }

    let original_buffer = doc.layer(id).unwrap().buffer().unwrap().clone();
    let original_offset = doc.layer(id).unwrap().offset;

    // Source occupied bounds are (0,0)-(4,4) in local, so document bounds
    // corners are (0,0), (5,0), (5,5), (0,5). Apply a simple horizontal
    // keystone: top edge stays width 5, bottom edge shrinks to width 3.
    let dst_quad = [
        IVec2::new(0, 0), // TL
        IVec2::new(5, 0), // TR
        IVec2::new(4, 5), // BR
        IVec2::new(1, 5), // BL
    ];

    let mut history = History::new(0);
    history
        .do_command(
            &mut doc,
            Box::new(TransformLayerCmd::new_perspective(sampling(), id, dst_quad)),
        )
        .unwrap();

    let layer = doc.layer(id).unwrap();
    // Offset should be the min quad corner (0,0).
    assert_eq!(layer.offset, IVec2::new(0, 0));
    // The interior should still contain red pixels after the warp.
    let bounds = layer.buffer().unwrap().exact_bounds().unwrap();
    assert!(bounds.w >= 3 && bounds.h >= 5);

    history.undo(&mut doc);
    let layer = doc.layer(id).unwrap();
    assert!(same_buffer(layer.buffer().unwrap(), &original_buffer));
    assert_eq!(layer.offset, original_offset);
}

#[test]
fn transform_layer_cmd_warp_identity_preserves_buffer() {

    let mut doc = Document::new(100, 100);
    let id = doc.add_raster_layer("L");
    for y in 0..5 {
        for x in 0..5 {
            doc.layer_mut(id)
                .unwrap()
                .buffer_mut()
                .unwrap()
                .put(IVec2::new(x, y), Rgba32F::new(1.0, 0.0, 0.0, 1.0));
        }
    }

    let original_buffer = doc.layer(id).unwrap().buffer().unwrap().clone();
    let original_offset = doc.layer(id).unwrap().offset;

    // Identity 4x4 grid over the document-space occupied bounds (0,0)-(5,5).
    let grid = even_grid(Rect::new(0, 0, 5, 5), 4, 4);

    let mut history = History::new(0);
    history
        .do_command(&mut doc, Box::new(TransformLayerCmd::new_warp(sampling(), id, grid)))
        .unwrap();

    let layer = doc.layer(id).unwrap();
    assert_eq!(layer.offset, original_offset);
    // Bicubic sampling of an identity warp should be nearly identical.
    let bounds = layer.buffer().unwrap().exact_bounds().unwrap();
    assert_eq!(bounds, Rect::new(0, 0, 5, 5));

    history.undo(&mut doc);
    let layer = doc.layer(id).unwrap();
    assert!(same_buffer(layer.buffer().unwrap(), &original_buffer));
    assert_eq!(layer.offset, original_offset);
}

// Remove background (fake-transparency matte) command.

fn fill_white(doc: &mut Document, id: LayerId, w: i32, h: i32) {
    let buffer = doc.layer_mut(id).unwrap().buffer_mut().unwrap();
    for y in 0..h {
        for x in 0..w {
            buffer.put(IVec2::new(x, y), Rgba32F::new(1.0, 1.0, 1.0, 1.0));
        }
    }
}

#[test]
fn remove_background_cmd_round_trips() {
    let mut doc = Document::new(40, 40);
    let id = doc.add_raster_layer("L");
    fill_white(&mut doc, id, 40, 40);
    // Opaque subject block.
    for y in 15..25 {
        for x in 15..25 {
            doc.layer_mut(id)
                .unwrap()
                .buffer_mut()
                .unwrap()
                .put(IVec2::new(x, y), Rgba32F::new(1.0, 0.0, 0.0, 1.0));
        }
    }
    let original = doc.layer(id).unwrap().buffer().unwrap().clone();

    let mut history = History::new(0);
    history
        .do_command(
            &mut doc,
            Box::new(RemoveBackgroundCmd::new(kern(), DEFAULT_MATTE_TOLERANCE,
            )),
        )
        .unwrap();

    assert_eq!(
        doc.layer(id)
            .unwrap()
            .buffer()
            .unwrap()
            .px(IVec2::new(2, 2)),
        Rgba32F::TRANSPARENT
    );
    assert_eq!(
        doc.layer(id)
            .unwrap()
            .buffer()
            .unwrap()
            .px(IVec2::new(20, 20)),
        Rgba32F::new(1.0, 0.0, 0.0, 1.0)
    );

    history.undo(&mut doc);
    assert!(same_buffer(doc.layer(id).unwrap().buffer().unwrap(), &original));
}

#[test]
fn remove_background_cmd_errors_when_no_matte() {
    let mut doc = Document::new(16, 16);
    let id = doc.add_raster_layer("L");
    // A gradient: no uniform or checker matte.
    for y in 0..16 {
        for x in 0..16 {
            let v = x as f32 / 15.0;
            doc.layer_mut(id).unwrap().buffer_mut().unwrap().put(
                IVec2::new(x, y),
                Rgba32F::new(v, 1.0 - v, (v * 0.5).fract(), 1.0),
            );
        }
    }
    let mut cmd = RemoveBackgroundCmd::new(kern(), DEFAULT_MATTE_TOLERANCE);
    assert!(matches!(
        cmd.apply(&mut doc),
        Err(OgreError::InvalidOperation(_))
    ));
}

#[test]
fn remove_background_cmd_requires_active_raster() {
    let mut doc = Document::new(16, 16);
    let id = doc.add_raster_layer("L");
    fill_white(&mut doc, id, 16, 16);
    doc.active = None;
    let mut cmd = RemoveBackgroundCmd::new(kern(), DEFAULT_MATTE_TOLERANCE);
    assert!(matches!(cmd.apply(&mut doc), Err(OgreError::NoActiveLayer)));
}

#[test]
fn remove_background_cmd_errors_on_locked_layer() {
    let mut doc = Document::new(16, 16);
    let id = doc.add_raster_layer("L");
    fill_white(&mut doc, id, 16, 16);
    doc.layer_mut(id).unwrap().locked = true;
    let mut cmd = RemoveBackgroundCmd::new(kern(), DEFAULT_MATTE_TOLERANCE);
    assert!(matches!(
        cmd.apply(&mut doc),
        Err(OgreError::LayerLocked(locked)) if locked == id
    ));
}

// Paint bucket command.

#[test]
fn fill_selection_cmd_round_trips() {
    let mut doc = Document::new(16, 16);
    let id = doc.add_raster_layer("L");
    fill_white(&mut doc, id, 16, 16);
    let original = doc.layer(id).unwrap().buffer().unwrap().clone();
    let red = Rgba32F::new(1.0, 0.0, 0.0, 1.0);
    let sel = Selection::rect(Rect::new(2, 2, 4, 4));

    let mut history = History::new(0);
    history
        .do_command(
            &mut doc,
            Box::new(fill_selection_cmd(red, 1.0, sel.clone())),
        )
        .unwrap();
    // Inside selection: red; outside: unchanged.
    assert_eq!(
        doc.layer(id)
            .unwrap()
            .buffer()
            .unwrap()
            .px(IVec2::new(3, 3)),
        red
    );
    assert_eq!(
        doc.layer(id)
            .unwrap()
            .buffer()
            .unwrap()
            .px(IVec2::new(0, 0)),
        Rgba32F::new(1.0, 1.0, 1.0, 1.0)
    );

    history.undo(&mut doc);
    assert!(same_buffer(doc.layer(id).unwrap().buffer().unwrap(), &original));
    history.redo(&mut doc);
    assert_eq!(
        doc.layer(id)
            .unwrap()
            .buffer()
            .unwrap()
            .px(IVec2::new(3, 3)),
        red
    );
}

#[test]
fn fill_selection_cmd_requires_active_raster() {
    let mut doc = Document::new(8, 8);
    doc.active = None;
    let mut cmd = fill_selection_cmd(
        Rgba32F::new(1.0, 0.0, 0.0, 1.0),
        1.0,
        Selection::rect(Rect::new(0, 0, 4, 4)),
    );
    assert!(matches!(cmd.apply(&mut doc), Err(OgreError::NoActiveLayer)));
}

#[test]
fn fill_selection_cmd_with_no_selection_fills_canvas() {
    let mut doc = Document::new(8, 8);
    let id = doc.add_raster_layer("L");
    fill_white(&mut doc, id, 8, 8);
    let red = Rgba32F::new(1.0, 0.0, 0.0, 1.0);
    let mut history = History::new(0);
    history
        .do_command(
            &mut doc,
            Box::new(fill_selection_cmd(red, 1.0, Selection::none())),
        )
        .unwrap();
    assert_eq!(
        doc.layer(id)
            .unwrap()
            .buffer()
            .unwrap()
            .px(IVec2::new(5, 5)),
        red
    );
}

#[test]
fn merge_down_cmd_merges_and_undo_restores_both_layers() {
    let mut doc = Document::new(8, 8);
    let lower = doc.add_raster_layer("lower");
    // Paint red on the lower, green on the upper (above it).
    doc.layer_mut(lower)
        .unwrap()
        .buffer_mut()
        .unwrap()
        .put(IVec2::new(2, 2), Rgba32F::new(1.0, 0.0, 0.0, 1.0));
    let upper = doc.add_raster_layer("upper");
    doc.layer_mut(upper)
        .unwrap()
        .buffer_mut()
        .unwrap()
        .put(IVec2::new(2, 2), Rgba32F::new(0.0, 1.0, 0.0, 1.0));
    let lower_before = doc.layer(lower).unwrap().clone();
    let upper_before = doc.layer(upper).unwrap().clone();
    let order_before = doc.order.clone();

    let mut history = History::new(0);
    history
        .do_command(&mut doc, Box::new(MergeDownCmd::new(kern(), upper)))
        .unwrap();
    // Upper is soft-removed (kept for undo): it must not appear in the
    // render order, though its slotmap entry is preserved.
    let order: HashSet<LayerId> = doc
        .render_order()
        .unwrap()
        .into_iter()
        .map(|(id, _)| id)
        .collect();
    assert!(
        !order.contains(&upper),
        "upper removed from render path after merge"
    );
    let merged_pixel = doc
        .layer(lower)
        .unwrap()
        .buffer()
        .unwrap()
        .px(IVec2::new(2, 2));
    assert_eq!(merged_pixel, Rgba32F::new(0.0, 1.0, 0.0, 1.0));

    // Undo restores both layers exactly (content + tree order).
    history.undo(&mut doc);
    assert!(same_layer(doc.layer(lower).unwrap(), &lower_before));
    assert!(same_layer(doc.layer(upper).unwrap(), &upper_before));
    assert_eq!(doc.order, order_before);
}

#[test]
fn merge_down_cmd_errors_when_no_layer_below() {
    let mut doc = Document::new(8, 8);
    let only = doc.add_raster_layer("only");
    let mut cmd = MergeDownCmd::new(kern(), only);
    assert!(matches!(
        cmd.apply(&mut doc),
        Err(OgreError::InvalidOperation(_))
    ));
}

#[test]
fn flip_layer_cmd_mirrors_exactly_and_preserves_offset() {
    let mut doc = Document::new(16, 16);
    let id = doc.add_raster_layer("L");
    // Place three distinguishable pixels in local x = 1, 2, 3 at y = 0.
    let layer = doc.layer_mut(id).unwrap();
    let buf = layer.buffer_mut().unwrap();
    buf.put(IVec2::new(1, 0), Rgba32F::new(0.1, 0.0, 0.0, 1.0));
    buf.put(IVec2::new(2, 0), Rgba32F::new(0.2, 0.0, 0.0, 1.0));
    buf.put(IVec2::new(3, 0), Rgba32F::new(0.3, 0.0, 0.0, 1.0));
    layer.offset = IVec2::new(10, 20);
    let original = doc.layer(id).unwrap().buffer().unwrap().clone();
    let prior_offset = doc.layer(id).unwrap().offset;

    let mut history = History::new(0);
    history
        .do_command(
            &mut doc,
            Box::new(FlipLayerCmd::new(id, FlipAxis::Horizontal)),
        )
        .unwrap();
    // Content bounds = local x 1..=3 → mirror: x=1↔3, x=2 stays.
    let buf = doc.layer(id).unwrap().buffer().unwrap();
    assert_eq!(
        buf.px(IVec2::new(1, 0)),
        Rgba32F::new(0.3, 0.0, 0.0, 1.0)
    );
    assert_eq!(
        buf.px(IVec2::new(3, 0)),
        Rgba32F::new(0.1, 0.0, 0.0, 1.0)
    );
    assert_eq!(
        buf.px(IVec2::new(2, 0)),
        Rgba32F::new(0.2, 0.0, 0.0, 1.0)
    );
    // Offset unchanged (doc-space bounding box preserved).
    assert_eq!(doc.layer(id).unwrap().offset, prior_offset);

    // Undo restores the buffer byte-for-byte.
    history.undo(&mut doc);
    assert!(same_buffer(doc.layer(id).unwrap().buffer().unwrap(), &original));
    // Redo is identical to the first apply.
    history.redo(&mut doc);
    assert_eq!(
        doc.layer(id)
            .unwrap()
            .buffer()
            .unwrap()
            .px(IVec2::new(1, 0)),
        Rgba32F::new(0.3, 0.0, 0.0, 1.0)
    );
}

#[test]
fn flip_layer_cmd_rejects_non_raster_and_locked() {
    let mut doc = Document::new(8, 8);
    let anchor = doc.add_raster_layer("anchor");
    let group = doc
        .insert_layer_above(Layer::new_group("G"), anchor)
        .unwrap();
    let mut cmd = FlipLayerCmd::new(group, FlipAxis::Vertical);
    assert!(matches!(cmd.apply(&mut doc), Err(OgreError::NotRaster)));

    doc.layer_mut(anchor).unwrap().locked = true;
    let mut cmd = FlipLayerCmd::new(anchor, FlipAxis::Vertical);
    assert!(matches!(
        cmd.apply(&mut doc),
        Err(OgreError::LayerLocked(id)) if id == anchor
    ));
}

#[test]
fn flip_layer_cmd_no_op_on_empty_buffer() {
    let mut doc = Document::new(8, 8);
    let id = doc.add_raster_layer("L");
    // Empty buffer: flip is a no-op (no error, no pixels written).
    let mut history = History::new(0);
    history
        .do_command(
            &mut doc,
            Box::new(FlipLayerCmd::new(id, FlipAxis::Horizontal)),
        )
        .unwrap();
    assert!(doc.layer(id).unwrap().buffer().unwrap().is_empty());
}

#[test]
fn stroke_selection_cmd_round_trips_rect() {
    let mut doc = Document::new(16, 16);
    let id = doc.add_raster_layer("L");
    fill_white(&mut doc, id, 16, 16);
    let original = doc.layer(id).unwrap().buffer().unwrap().clone();
    let red = Rgba32F::new(1.0, 0.0, 0.0, 1.0);
    let sel = Selection::rect(Rect::new(2, 2, 6, 6));

    let mut history = History::new(0);
    history
        .do_command(
            &mut doc,
            Box::new(stroke_selection_cmd(red, 2.0, 1.0, sel)),
        )
        .unwrap();
    // Border stroked red; interior unchanged.
    assert_eq!(
        doc.layer(id)
            .unwrap()
            .buffer()
            .unwrap()
            .px(IVec2::new(2, 2)),
        red
    );
    assert_eq!(
        doc.layer(id)
            .unwrap()
            .buffer()
            .unwrap()
            .px(IVec2::new(4, 4)),
        Rgba32F::new(1.0, 1.0, 1.0, 1.0)
    );

    history.undo(&mut doc);
    assert!(same_buffer(doc.layer(id).unwrap().buffer().unwrap(), &original));
}

#[test]
fn paint_bucket_cmd_round_trips() {
    let mut doc = Document::new(16, 16);
    let id = doc.add_raster_layer("L");
    fill_white(&mut doc, id, 16, 16);
    let original = doc.layer(id).unwrap().buffer().unwrap().clone();

    let red = Rgba32F::new(1.0, 0.0, 0.0, 1.0);
    let mut history = History::new(0);
    history
        .do_command(
            &mut doc,
            Box::new(paint_bucket_cmd(
                IVec2::new(8, 8),
                red,
                f(DEFAULT_FILL_TOLERANCE),
            )),
        )
        .unwrap();

    assert_eq!(
        doc.layer(id)
            .unwrap()
            .buffer()
            .unwrap()
            .px(IVec2::new(8, 8)),
        red
    );
    assert_eq!(
        doc.layer(id)
            .unwrap()
            .buffer()
            .unwrap()
            .px(IVec2::new(0, 0)),
        red
    );

    history.undo(&mut doc);
    assert!(same_buffer(doc.layer(id).unwrap().buffer().unwrap(), &original));
}

#[test]
fn set_layer_buffer_cmd_round_trips() {
    let mut doc = Document::new(16, 16);
    let id = doc.add_raster_layer("L");
    fill_white(&mut doc, id, 16, 16);
    let original = doc.layer(id).unwrap().buffer().unwrap().clone();

    // A replacement buffer with a single red pixel.
    let mut replacement = TiledBuffer::new();
    replacement.put(IVec2::new(1, 1), Rgba32F::new(1.0, 0.0, 0.0, 1.0));

    let mut history = History::new(0);
    history
        .do_command(
            &mut doc,
            Box::new(SetLayerBufferCmd::new(
                id,
                replacement.clone(),
                "Remove background",
            )),
        )
        .unwrap();
    assert!(same_buffer(doc.layer(id).unwrap().buffer().unwrap(), &replacement));

    history.undo(&mut doc);
    assert!(same_buffer(doc.layer(id).unwrap().buffer().unwrap(), &original));

    history.redo(&mut doc);
    assert!(same_buffer(doc.layer(id).unwrap().buffer().unwrap(), &replacement));
}

#[test]
fn paint_bucket_cmd_requires_active_raster() {
    let mut doc = Document::new(16, 16);
    let id = doc.add_raster_layer("L");
    fill_white(&mut doc, id, 16, 16);
    doc.active = None;
    let mut cmd = paint_bucket_cmd(IVec2::new(8, 8), Rgba32F::new(1.0, 0.0, 0.0, 1.0), 0.1);
    assert!(matches!(cmd.apply(&mut doc), Err(OgreError::NoActiveLayer)));
}

#[test]
fn paint_bucket_cmd_errors_on_locked_layer() {
    let mut doc = Document::new(16, 16);
    let id = doc.add_raster_layer("L");
    fill_white(&mut doc, id, 16, 16);
    doc.layer_mut(id).unwrap().locked = true;
    let mut cmd = paint_bucket_cmd(IVec2::new(8, 8), Rgba32F::new(1.0, 0.0, 0.0, 1.0), 0.1);
    assert!(matches!(
        cmd.apply(&mut doc),
        Err(OgreError::LayerLocked(locked)) if locked == id
    ));
}

// Layer-mask commands.

fn sample(doc: &Document, p: IVec2) -> Rgba32F {
    sample_document_pixel(&kern(), doc, p).map_or(Rgba32F::TRANSPARENT, up)
}

#[test]
fn add_layer_mask_reveal_selection_round_trips() {
    let mut doc = Document::new(16, 16);
    let id = doc.add_raster_layer("L");
    fill_white(&mut doc, id, 16, 16);
    // Mask reveals only the top-left 4×4 region (doc space).
    let sel = Selection::rect(Rect::new(0, 0, 4, 4));
    let mut history = History::new(0);
    history
        .do_command(
            &mut doc,
            Box::new(AddLayerMaskCmd::new(
                id,
                MaskInit::RevealSelection(sel),
            )),
        )
        .unwrap();

    // Mask present; content inside the selection is visible, outside hidden.
    assert!(doc.layer(id).unwrap().mask().is_some());
    let opaque = Rgba32F::new(1.0, 1.0, 1.0, 1.0);
    assert_eq!(sample(&doc, IVec2::new(2, 2)), opaque);
    assert_eq!(sample(&doc, IVec2::new(10, 10)), Rgba32F::TRANSPARENT);

    let after_add = doc.layer(id).unwrap().mask().unwrap().clone();
    history.undo(&mut doc);
    assert!(doc.layer(id).unwrap().mask().is_none(), "undo removes mask");
    // Without a mask, all content is visible again.
    assert_eq!(sample(&doc, IVec2::new(10, 10)), opaque);

    history.redo(&mut doc);
    // Redo restores the *same* mask byte-for-byte (stable across redo).
    assert!(same_buffer(doc.layer(id).unwrap().mask().unwrap(), &after_add));
}

#[test]
fn add_layer_mask_hide_all_hides_content() {
    let mut doc = Document::new(8, 8);
    let id = doc.add_raster_layer("L");
    fill_white(&mut doc, id, 8, 8);
    let mut history = History::new(0);
    history
        .do_command(
            &mut doc,
            Box::new(AddLayerMaskCmd::new(id, MaskInit::HideAll)),
        )
        .unwrap();
    // Empty mask → coverage 0 everywhere → fully hidden.
    assert!(doc.layer(id).unwrap().mask().unwrap().is_empty());
    assert_eq!(sample(&doc, IVec2::new(4, 4)), Rgba32F::TRANSPARENT);
}

#[test]
fn add_layer_mask_reveal_all_covers_content_tiles() {
    let mut doc = Document::new(8, 8);
    let id = doc.add_raster_layer("L");
    fill_white(&mut doc, id, 8, 8);
    let mut history = History::new(0);
    history
        .do_command(
            &mut doc,
            Box::new(AddLayerMaskCmd::new(id, MaskInit::RevealAll)),
        )
        .unwrap();
    // RevealAll has no effect: content still fully visible.
    let opaque = Rgba32F::new(1.0, 1.0, 1.0, 1.0);
    assert_eq!(sample(&doc, IVec2::new(4, 4)), opaque);
}

#[test]
fn add_layer_mask_rejects_non_raster_and_locked() {
    let mut doc = Document::new(8, 8);
    let raster = doc.add_raster_layer("anchor");
    let group = doc
        .insert_layer_above(Layer::new_group("G"), raster)
        .unwrap();
    let mut cmd = AddLayerMaskCmd::new(group, MaskInit::HideAll);
    assert!(matches!(cmd.apply(&mut doc), Err(OgreError::NotRaster)));

    fill_white(&mut doc, raster, 8, 8);
    doc.layer_mut(raster).unwrap().locked = true;
    let mut cmd = AddLayerMaskCmd::new(raster, MaskInit::HideAll);
    assert!(matches!(
        cmd.apply(&mut doc),
        Err(OgreError::LayerLocked(id)) if id == raster
    ));
}

#[test]
fn add_layer_mask_errors_on_existing_mask() {
    let mut doc = Document::new(8, 8);
    let id = doc.add_raster_layer("L");
    fill_white(&mut doc, id, 8, 8);
    let mut history = History::new(0);
    history
        .do_command(
            &mut doc,
            Box::new(AddLayerMaskCmd::new(id, MaskInit::HideAll)),
        )
        .unwrap();
    // Second add is rejected (must delete or set first).
    let mut second = AddLayerMaskCmd::new(id, MaskInit::RevealAll);
    assert!(matches!(
        second.apply(&mut doc),
        Err(OgreError::InvalidOperation(_))
    ));
}

#[test]
fn delete_layer_mask_round_trips() {
    let mut doc = Document::new(8, 8);
    let id = doc.add_raster_layer("L");
    fill_white(&mut doc, id, 8, 8);
    let mut history = History::new(0);
    history
        .do_command(
            &mut doc,
            Box::new(AddLayerMaskCmd::new(id, MaskInit::HideAll)),
        )
        .unwrap();
    let mask_before = doc.layer(id).unwrap().mask().unwrap().clone();

    history
        .do_command(&mut doc, Box::new(DeleteLayerMaskCmd::new(id)))
        .unwrap();
    assert!(doc.layer(id).unwrap().mask().is_none());

    history.undo(&mut doc);
    // Restored exactly.
    assert!(same_buffer(doc.layer(id).unwrap().mask().unwrap(), &mask_before));
}

#[test]
fn delete_layer_mask_errors_without_mask() {
    let mut doc = Document::new(8, 8);
    let id = doc.add_raster_layer("L");
    let mut cmd = DeleteLayerMaskCmd::new(id);
    assert!(matches!(
        cmd.apply(&mut doc),
        Err(OgreError::InvalidOperation(_))
    ));
}

#[test]
fn apply_layer_mask_bakes_alpha_and_removes_mask() {
    let mut doc = Document::new(16, 16);
    let id = doc.add_raster_layer("L");
    fill_white(&mut doc, id, 16, 16);
    let original_buffer = doc.layer(id).unwrap().buffer().unwrap().clone();
    // Reveal only (0..4, 0..4); apply should bake alpha=0 elsewhere.
    let sel = Selection::rect(Rect::new(0, 0, 4, 4));
    let mut history = History::new(0);
    history
        .do_command(
            &mut doc,
            Box::new(AddLayerMaskCmd::new(
                id,
                MaskInit::RevealSelection(sel),
            )),
        )
        .unwrap();
    let mask_before = doc.layer(id).unwrap().mask().unwrap().clone();

    history
        .do_command(&mut doc, Box::new(ApplyLayerMaskCmd::new(kern(), id)))
        .unwrap();
    // Mask is gone; its effect is baked into the buffer.
    assert!(doc.layer(id).unwrap().mask().is_none());
    let baked_buffer = doc.layer(id).unwrap().buffer().unwrap().clone();
    // Inside selection: opaque; outside: transparent.
    assert_eq!(baked_buffer.px(IVec2::new(2, 2)).a, 1.0);
    assert_eq!(baked_buffer.px(IVec2::new(10, 10)).a, 0.0);

    // Undo restores the pre-apply buffer AND the mask exactly.
    history.undo(&mut doc);
    assert!(same_buffer(doc.layer(id).unwrap().buffer().unwrap(), &original_buffer));
    assert!(same_buffer(doc.layer(id).unwrap().mask().unwrap(), &mask_before));
}

#[test]
fn apply_layer_mask_errors_without_mask() {
    let mut doc = Document::new(8, 8);
    let id = doc.add_raster_layer("L");
    let mut cmd = ApplyLayerMaskCmd::new(kern(), id);
    assert!(matches!(
        cmd.apply(&mut doc),
        Err(OgreError::InvalidOperation(_))
    ));
}

#[test]
fn set_layer_mask_round_trips() {
    let mut doc = Document::new(8, 8);
    let id = doc.add_raster_layer("L");
    fill_white(&mut doc, id, 8, 8);

    // Install a HideAll mask via the primitive.
    let mut history = History::new(0);
    history
        .do_command(
            &mut doc,
            Box::new(SetLayerMaskCmd::new(id, Some(TiledBuffer::new()))),
        )
        .unwrap();
    assert!(doc.layer(id).unwrap().mask().is_some());

    // Replace with None (detach) — old is captured for undo.
    history
        .do_command(&mut doc, Box::new(SetLayerMaskCmd::new(id, None)))
        .unwrap();
    assert!(doc.layer(id).unwrap().mask().is_none());

    // Two undos restore the Some mask.
    history.undo(&mut doc);
    assert!(doc.layer(id).unwrap().mask().is_some());
    history.undo(&mut doc);
    assert!(doc.layer(id).unwrap().mask().is_none(), "no mask initially");
}

#[test]
fn mask_add_delete_history_loop_is_stable() {
    // Mask add/delete must leave the layer buffer byte-identical, and a full
    // undo-all / redo-all loop must return to the same state. This guards the
    // killer-feature-style byte-identity invariant for the mask lifecycle.
    let mut doc = Document::new(16, 16);
    let id = doc.add_raster_layer("L");
    fill_white(&mut doc, id, 16, 16);
    let sel = Selection::rect(Rect::new(2, 2, 4, 4));
    let buffer_before = doc.layer(id).unwrap().buffer().unwrap().clone();

    let mut history = History::new(0);
    history
        .do_command(
            &mut doc,
            Box::new(AddLayerMaskCmd::new(
                id,
                MaskInit::RevealSelection(sel),
            )),
        )
        .unwrap();
    // While a mask is attached, the *buffer* is untouched (mask is separate).
    assert!(same_buffer(doc.layer(id).unwrap().buffer().unwrap(), &buffer_before));
    history
        .do_command(&mut doc, Box::new(DeleteLayerMaskCmd::new(id)))
        .unwrap();
    assert!(doc.layer(id).unwrap().mask().is_none());
    assert!(same_buffer(doc.layer(id).unwrap().buffer().unwrap(), &buffer_before));

    // Full undo back to the pristine state, then full redo.
    while history.undo(&mut doc).is_some() {}
    assert!(doc.layer(id).unwrap().mask().is_none());
    assert!(same_buffer(doc.layer(id).unwrap().buffer().unwrap(), &buffer_before));
    while history.redo(&mut doc).is_some() {}
    assert!(doc.layer(id).unwrap().mask().is_none());
    assert!(same_buffer(doc.layer(id).unwrap().buffer().unwrap(), &buffer_before));
}

fn edits(v: Vec<(IVec2, Rgba32F)>) -> Vec<(IVec2, Pixel)> {
    v.into_iter().map(|(p, c)| (p, c.bits())).collect()
}

fn paint_cmd(layer: LayerId, points: Vec<(IVec2, Rgba32F)>) -> PaintCmd {
    PaintCmd::new(layer, edits(points))
}

fn brush_stroke_cmd(layer: LayerId, points: Vec<(IVec2, Rgba32F)>) -> BrushStrokeCmd {
    BrushStrokeCmd::new(layer, edits(points))
}

fn paint_stroke_cmd(
    layer: LayerId,
    samples: Vec<InputSample>,
    settings: BrushSettings,
    color: Rgba32F,
    mode: PaintMode,
) -> PaintStrokeCmd<FloatKernel<Math>, FloatKernel<Math>> {
    PaintStrokeCmd::new(kern(), kern(), layer, samples, settings, color.bits(), mode)
}

fn fill_selection_cmd(
    color: Rgba32F,
    opacity: f32,
    selection: Selection,
) -> FillSelectionCmd<FloatKernel<Math>> {
    FillSelectionCmd::new(kern(), color.bits(), b(opacity), selection)
}

fn stroke_selection_cmd(
    color: Rgba32F,
    width: f32,
    opacity: f32,
    selection: Selection,
) -> StrokeSelectionCmd<FloatKernel<Math>> {
    StrokeSelectionCmd::new(kern(), color.bits(), b(width), b(opacity), selection)
}

fn paint_bucket_cmd(
    seed: IVec2,
    color: Rgba32F,
    tolerance: f32,
) -> PaintBucketCmd<FloatKernel<Math>, Math> {
    PaintBucketCmd::new(kern(), math(), seed, color.bits(), b(tolerance))
}

fn magic_wand_cmd(
    seed: IVec2,
    tolerance: f32,
    contiguous: bool,
    mode: SelectionMode,
) -> MagicWandCmd<Math> {
    MagicWandCmd::with_mode(math(), seed, b(tolerance), contiguous, mode)
}

fn affine(m: [f32; 6]) -> Affine2 {
    let v = |x: f32, y: f32| Point { x: b(x), y: b(y) };
    Affine2 { x_axis: v(m[0], m[1]), y_axis: v(m[2], m[3]), translation: v(m[4], m[5]) }
}

/// Spreads a selection by three radii with full coverage inside and half outside.
fn soften(s: &Selection, radius: u32) -> Selection {
    let r = (f(radius) * 3.0).ceil() as i32;
    let Some(inner) = s.bounds() else {
        return s.clone();
    };
    let bounds = Rect::new(
        inner.x - r,
        inner.y - r,
        inner.w + 2 * r as u32,
        inner.h + 2 * r as u32,
    );
    let mut coverage = TiledBuffer::new();
    for y in bounds.y..bounds.y + bounds.h as i32 {
        for x in bounds.x..bounds.x + bounds.w as i32 {
            let p = IVec2::new(x, y);
            let c = if inner.contains(p) { s.cov(p) } else { 0.5 };
            coverage.put(p, Rgba32F::new(c, c, c, 1.0));
        }
    }
    Selection { kind: SelectionKind::Mask { coverage, bounds } }
}

type Sampling = TransformMath<
    Math,
    fn(&TiledBuffer, Affine2) -> TiledBuffer,
    fn(&TiledBuffer, Rect, [IVec2; 4]) -> TiledBuffer,
    fn(&TiledBuffer, &WarpGrid) -> TiledBuffer,
>;

/// Takes the nearest source pixel of every pixel of the mapped box.
fn nearest(source: &TiledBuffer, map: Affine2) -> TiledBuffer {
    let mut out = TiledBuffer::new();
    let Some(r) = source.exact_bounds() else {
        return out;
    };
    let (ax, ay) = (f(map.x_axis.x), f(map.x_axis.y));
    let (bx, by) = (f(map.y_axis.x), f(map.y_axis.y));
    let (tx, ty) = (f(map.translation.x), f(map.translation.y));
    let det = ax * by - ay * bx;
    let reach = 4 * (r.w.max(r.h) as i32 + 8);
    for y in 0..reach {
        for x in 0..reach {
            let dx = x as f32 + 0.5 - tx;
            let dy = y as f32 + 0.5 - ty;
            let sx = ((by * dx - bx * dy) / det).floor() as i32;
            let sy = ((ax * dy - ay * dx) / det).floor() as i32;
            let c = source.get_pixel(IVec2::new(sx, sy));
            if c != Pixel::transparent() {
                out.set_pixel(IVec2::new(x, y), c);
            }
        }
    }
    out
}

/// Maps rows to rows between the left and the right edge of a quadrilateral.
fn keystone(source: &TiledBuffer, from: Rect, quad: [IVec2; 4]) -> TiledBuffer {
    let mut out = TiledBuffer::new();
    let height = (quad[3].y - quad[0].y).max(1);
    for y in 0..height {
        let v = (y as f32 + 0.5) / height as f32;
        let left = quad[0].x as f32 + (quad[3].x - quad[0].x) as f32 * v;
        let right = quad[1].x as f32 + (quad[2].x - quad[1].x) as f32 * v;
        for x in left.floor() as i32..right.ceil() as i32 {
            let u = ((x as f32 + 0.5 - left) / (right - left)).clamp(0.0, 0.999);
            let p = IVec2::new(
                from.x + (u * from.w as f32) as i32,
                from.y + (v * from.h as f32) as i32,
            );
            out.set_pixel(IVec2::new(x, y), source.get_pixel(p));
        }
    }
    out
}

fn unwarped(source: &TiledBuffer, _grid: &WarpGrid) -> TiledBuffer {
    source.clone()
}

fn sampling() -> Sampling {
    TransformMath { math: math(), resample: nearest, project: keystone, warp: unwarped }
}

fn even_grid(r: Rect, cols: usize, rows: usize) -> WarpGrid {
    let mut points = Vec::new();
    for j in 0..rows {
        for i in 0..cols {
            points.push(IVec2::new(
                r.x + (r.w as usize * i / (cols - 1)) as i32,
                r.y + (r.h as usize * j / (rows - 1)) as i32,
            ));
        }
    }
    WarpGrid { cols, rows, points }
}
