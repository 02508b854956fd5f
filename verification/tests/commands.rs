#![allow(dead_code)]
use ogre_core::Rgba32F as Pixel;
use ogre_core::{
    AddRasterLayerCmd, AddVectorLayerCmd, BatchCmd, BlendMode, CanvasAnchor, Command, CropCmd,
    Document, DuplicateLayerCmd, IVec2, LayerContent, LayerId, OgreError, PasteImageLayerCmd, Rect,
    RenameCmd, ResizeCanvasCmd, SetBlendCmd, SetOpacityCmd, SetVisibleCmd, StrokeCap, StrokeJoin,
    TiledBuffer, VectorData, VectorFill, VectorPath, VectorStroke,
};

/// A pixel with its channels as numbers.
#[derive(Clone, Copy, Debug, PartialEq)]
struct Rgba32F {
    r: f32,
    g: f32,
    b: f32,
    a: f32,
}

impl Rgba32F {
    const TRANSPARENT: Rgba32F = Rgba32F { r: 0.0, g: 0.0, b: 0.0, a: 0.0 };

    fn new(r: f32, g: f32, b: f32, a: f32) -> Self {
        Rgba32F { r, g, b, a }
    }

    fn bits(self) -> Pixel {
        Pixel::new(self.r.to_bits(), self.g.to_bits(), self.b.to_bits(), self.a.to_bits())
    }
}

fn up(p: Pixel) -> Rgba32F {
    Rgba32F::new(f(p.r), f(p.g), f(p.b), f(p.a))
}

fn b(v: f32) -> u32 {
    v.to_bits()
}

fn f(v: u32) -> f32 {
    f32::from_bits(v)
}

/// Pixels as numbers.
trait Pixels {
    fn px(&self, p: IVec2) -> Rgba32F;
    fn put(&mut self, p: IVec2, c: Rgba32F);
}

impl Pixels for TiledBuffer {
    fn px(&self, p: IVec2) -> Rgba32F {
        up(self.get_pixel(p))
    }

    fn put(&mut self, p: IVec2, c: Rgba32F) {
        self.set_pixel(p, c.bits());
    }
}

#[test]
fn set_visible_cmd_round_trips() {
    let mut doc = Document::new(100, 100);
    let id = doc.add_raster_layer("L");

    let mut cmd = SetVisibleCmd::new(id, false);
    cmd.apply(&mut doc).unwrap();
    assert!(!doc.layer(id).unwrap().visible);

    cmd.undo(&mut doc);
    assert!(doc.layer(id).unwrap().visible);
}

#[test]
fn set_opacity_cmd_round_trips() {
    let mut doc = Document::new(100, 100);
    let id = doc.add_raster_layer("L");

    let mut cmd = SetOpacityCmd::new(id, b(0.5));
    cmd.apply(&mut doc).unwrap();
    assert_eq!(f(doc.layer(id).unwrap().opacity), 0.5);

    cmd.undo(&mut doc);
    assert_eq!(f(doc.layer(id).unwrap().opacity), 1.0);
}

#[test]
fn set_opacity_cmd_clamps_out_of_range() {
    let mut doc = Document::new(100, 100);
    let id = doc.add_raster_layer("L");

    let mut cmd = SetOpacityCmd::new(id, b(1.5));
    cmd.apply(&mut doc).unwrap();
    assert_eq!(f(doc.layer(id).unwrap().opacity), 1.0);

    cmd.undo(&mut doc);
    assert_eq!(f(doc.layer(id).unwrap().opacity), 1.0);
}

#[test]
fn set_opacity_cmd_sanitizes_nan() {
    let mut doc = Document::new(100, 100);
    let id = doc.add_raster_layer("L");

    let mut cmd = SetOpacityCmd::new(id, b(f32::NAN));
    cmd.apply(&mut doc).unwrap();
    assert_eq!(f(doc.layer(id).unwrap().opacity), 0.0);

    cmd.undo(&mut doc);
    assert_eq!(f(doc.layer(id).unwrap().opacity), 1.0);
}

#[test]
fn set_blend_cmd_round_trips() {
    let mut doc = Document::new(100, 100);
    let id = doc.add_raster_layer("L");

    let mut cmd = SetBlendCmd::new(id, BlendMode::Multiply);
    cmd.apply(&mut doc).unwrap();
    assert_eq!(doc.layer(id).unwrap().blend, BlendMode::Multiply);

    cmd.undo(&mut doc);
    assert_eq!(doc.layer(id).unwrap().blend, BlendMode::Normal);
}

#[test]
fn rename_cmd_round_trips() {
    let mut doc = Document::new(100, 100);
    let id = doc.add_raster_layer("L");

    let mut cmd = RenameCmd::new(id, "Renamed");
    cmd.apply(&mut doc).unwrap();
    assert_eq!(doc.layer(id).unwrap().name, "Renamed");

    cmd.undo(&mut doc);
    assert_eq!(doc.layer(id).unwrap().name, "L");
}

#[test]
fn add_raster_layer_cmd_round_trips() {
    let mut doc = Document::new(100, 100);
    let bg = doc.add_raster_layer("Background");
    doc.active = Some(bg);

    let mut cmd = AddRasterLayerCmd::new("New");
    cmd.apply(&mut doc).unwrap();
    let new_id = doc.active.unwrap();
    assert_ne!(new_id, bg);
    assert_eq!(doc.layer(new_id).unwrap().name, "New");
    assert_eq!(doc.order, vec![bg, new_id]);

    cmd.undo(&mut doc);
    assert_eq!(doc.active, Some(bg));
    assert!(!doc.order.contains(&new_id));

    cmd.apply(&mut doc).unwrap();
    assert_eq!(doc.active, Some(new_id));
    assert!(doc.order.contains(&new_id));
}

#[test]
fn duplicate_layer_cmd_round_trips() {
    let mut doc = Document::new(100, 100);
    let src = doc.add_raster_layer("Source");

    let mut cmd = DuplicateLayerCmd::new(src);
    cmd.apply(&mut doc).unwrap();
    let dup = doc.active.unwrap();
    assert_ne!(dup, src);
    assert_eq!(doc.layer(dup).unwrap().name, "Source copy");
    assert_eq!(doc.order, vec![src, dup]);

    cmd.undo(&mut doc);
    assert_eq!(doc.active, Some(src));
    assert!(!doc.order.contains(&dup));

    cmd.apply(&mut doc).unwrap();
    assert_eq!(doc.active, Some(dup));
    assert!(doc.order.contains(&dup));
}

#[test]
fn crop_cmd_changes_canvas_and_preserves_layers() {
    let mut doc = Document::new(100, 100);
    let id = doc.add_raster_layer("L");
    doc.layer_mut(id).unwrap().offset = IVec2::new(10, 20);

    let mut cmd = CropCmd::new(Rect::new(25, 30, 50, 60));
    cmd.apply(&mut doc).unwrap();
    assert_eq!(doc.canvas, Rect::new(25, 30, 50, 60));
    assert_eq!(doc.layer(id).unwrap().offset, IVec2::new(10, 20));

    cmd.undo(&mut doc);
    assert_eq!(doc.canvas, Rect::new(0, 0, 100, 100));
    assert_eq!(doc.layer(id).unwrap().offset, IVec2::new(10, 20));
}

#[test]
fn crop_cmd_rejects_empty_rectangle() {
    let mut doc = Document::new(100, 100);
    let mut cmd = CropCmd::new(Rect::new(10, 10, 0, 50));
    assert!(cmd.apply(&mut doc).is_err());
}

#[test]
fn resize_canvas_cmd_shifts_layers_by_anchor() {
    let mut doc = Document::new(100, 100);
    let a = doc.add_raster_layer("A");
    let bb = doc.add_raster_layer("B");
    doc.layer_mut(a).unwrap().offset = IVec2::new(0, 0);
    doc.layer_mut(bb).unwrap().offset = IVec2::new(50, 50);

    let mut cmd = ResizeCanvasCmd::new(200, 150, CanvasAnchor::Center);
    cmd.apply(&mut doc).unwrap();
    assert_eq!(doc.canvas, Rect::new(0, 0, 200, 150));
    // Center anchor: content shifts by ((200-100)/2, (150-100)/2) = (50, 25).
    assert_eq!(doc.layer(a).unwrap().offset, IVec2::new(50, 25));
    assert_eq!(doc.layer(bb).unwrap().offset, IVec2::new(100, 75));

    cmd.undo(&mut doc);
    assert_eq!(doc.canvas, Rect::new(0, 0, 100, 100));
    assert_eq!(doc.layer(a).unwrap().offset, IVec2::new(0, 0));
    assert_eq!(doc.layer(bb).unwrap().offset, IVec2::new(50, 50));
}

#[test]
fn resize_canvas_cmd_rejects_zero_dimension() {
    let mut doc = Document::new(100, 100);
    let mut cmd = ResizeCanvasCmd::new(0, 150, CanvasAnchor::TopLeft);
    assert!(cmd.apply(&mut doc).is_err());
}

#[test]
fn resize_canvas_cmd_corner_anchor_keeps_corner_fixed() {
    let mut doc = Document::new(100, 100);
    let id = doc.add_raster_layer("L");
    doc.layer_mut(id).unwrap().offset = IVec2::new(5, 10);

    let mut cmd = ResizeCanvasCmd::new(120, 140, CanvasAnchor::TopLeft);
    cmd.apply(&mut doc).unwrap();
    // Top-left anchor: content does not shift.
    assert_eq!(doc.layer(id).unwrap().offset, IVec2::new(5, 10));
    assert_eq!(doc.canvas, Rect::new(0, 0, 120, 140));

    cmd.undo(&mut doc);
    assert_eq!(doc.layer(id).unwrap().offset, IVec2::new(5, 10));
    assert_eq!(doc.canvas, Rect::new(0, 0, 100, 100));
}

#[test]
fn resize_canvas_cmd_shrinking_shifts_layers_correctly() {
    let mut doc = Document::new(100, 100);
    let id = doc.add_raster_layer("L");
    doc.layer_mut(id).unwrap().offset = IVec2::new(40, 40);

    // Shrink by 20 px on each axis with center anchor -> shift by (-10,-10).
    let mut cmd = ResizeCanvasCmd::new(80, 80, CanvasAnchor::Center);
    cmd.apply(&mut doc).unwrap();
    assert_eq!(doc.canvas, Rect::new(0, 0, 80, 80));
    assert_eq!(doc.layer(id).unwrap().offset, IVec2::new(30, 30));

    cmd.undo(&mut doc);
    assert_eq!(doc.canvas, Rect::new(0, 0, 100, 100));
    assert_eq!(doc.layer(id).unwrap().offset, IVec2::new(40, 40));
}

#[test]
fn resize_canvas_cmd_preserves_origin_after_crop() {
    let mut doc = Document::new(100, 100);
    let id = doc.add_raster_layer("L");
    doc.layer_mut(id).unwrap().offset = IVec2::new(0, 0);

    // Crop to a non-zero origin.
    let mut crop = CropCmd::new(Rect::new(25, 30, 50, 60));
    crop.apply(&mut doc).unwrap();
    assert_eq!(doc.canvas, Rect::new(25, 30, 50, 60));

    // Resize back to 100x100 centered on the cropped canvas.
    let mut resize = ResizeCanvasCmd::new(100, 100, CanvasAnchor::Center);
    resize.apply(&mut doc).unwrap();
    // New canvas keeps the old origin (25,30).
    assert_eq!(doc.canvas, Rect::new(25, 30, 100, 100));
    // Width grew by 50, height by 40 -> center shift (25,20).
    assert_eq!(doc.layer(id).unwrap().offset, IVec2::new(25, 20));

    resize.undo(&mut doc);
    assert_eq!(doc.canvas, Rect::new(25, 30, 50, 60));
    assert_eq!(doc.layer(id).unwrap().offset, IVec2::new(0, 0));
}

#[test]
fn resize_canvas_cmd_undo_does_not_touch_layers_added_after_apply() {
    let mut doc = Document::new(100, 100);
    let a = doc.add_raster_layer("A");
    doc.layer_mut(a).unwrap().offset = IVec2::new(10, 10);

    let mut cmd = ResizeCanvasCmd::new(120, 120, CanvasAnchor::TopLeft);
    cmd.apply(&mut doc).unwrap();

    let bb = doc.add_raster_layer("B");
    doc.layer_mut(bb).unwrap().offset = IVec2::new(5, 5);

    cmd.undo(&mut doc);
    assert_eq!(doc.layer(a).unwrap().offset, IVec2::new(10, 10));
    assert_eq!(doc.layer(bb).unwrap().offset, IVec2::new(5, 5));
}

#[test]
fn batch_cmd_applies_and_undoes_subcommands_as_one() {
    let mut doc = Document::new(10, 10);
    let id = doc.add_raster_layer("L");
    doc.layer_mut(id).unwrap().opacity = b(0.5);
    doc.layer_mut(id).unwrap().visible = false;

    let mut batch = BatchCmd::new("Set opacity and visible");
    batch.push(Box::new(SetOpacityCmd::new(id, b(0.9))));
    batch.push(Box::new(SetVisibleCmd::new(id, true)));

    batch.apply(&mut doc).unwrap();
    assert!((f(doc.layer(id).unwrap().opacity) - 0.9).abs() < 1e-6);
    assert!(doc.layer(id).unwrap().visible);

    batch.undo(&mut doc);
    assert!((f(doc.layer(id).unwrap().opacity) - 0.5).abs() < 1e-6);
    assert!(!doc.layer(id).unwrap().visible);
}

struct AlwaysFailCmd;

impl Command for AlwaysFailCmd {
    fn label(&self) -> &'static str {
        "Fail"
    }
    fn apply(&mut self, _doc: &mut Document) -> Result<(), OgreError> {
        Err(OgreError::InvalidOperation("always fails"))
    }
    fn undo(&mut self, _doc: &mut Document) {}
    fn cleanup(&self, _doc: &mut Document) {}
    fn referenced_layers(&self) -> Vec<LayerId> {
        Vec::new()
    }
}

#[test]
fn batch_cmd_rolls_back_applied_commands_on_failure() {
    let mut doc = Document::new(10, 10);
    let id = doc.add_raster_layer("L");
    doc.layer_mut(id).unwrap().opacity = b(0.5);

    let mut batch = BatchCmd::new("Partial then fail");
    batch.push(Box::new(SetOpacityCmd::new(id, b(0.9))));
    batch.push(Box::new(AlwaysFailCmd));

    assert!(batch.apply(&mut doc).is_err());
    assert!((f(doc.layer(id).unwrap().opacity) - 0.5).abs() < 1e-6);
}

#[test]
fn paste_image_layer_cmd_round_trips() {
    let mut doc = Document::new(4, 4);

    // Four distinct pixels for a 2×2 paste.
    let pixels = vec![
        Rgba32F::new(1.0, 0.0, 0.0, 1.0),
        Rgba32F::new(0.0, 1.0, 0.0, 1.0),
        Rgba32F::new(0.0, 0.0, 1.0, 1.0),
        Rgba32F::new(1.0, 1.0, 0.0, 1.0),
    ];
    let mut cmd = PasteImageLayerCmd::new("P", 2, 2, pixels.iter().map(|c| c.bits()).collect());

    cmd.apply(&mut doc).unwrap();
    let new_id = cmd.new_id.unwrap();
    assert!(doc.order.contains(&new_id));
    assert_eq!(doc.layer(new_id).unwrap().name, "P");

    // Verify the pixel at (1, 0) was written correctly.
    let buf = doc.layer(new_id).unwrap().buffer().unwrap();
    let px = buf.px(IVec2::new(1, 0));
    assert!((px.g - 1.0).abs() < 1e-6);

    // Undo should soft-remove the layer.
    cmd.undo(&mut doc);
    assert!(!doc.order.contains(&new_id));

    // Redo (second apply) restores it from soft-removed state.
    cmd.apply(&mut doc).unwrap();
    assert!(doc.order.contains(&new_id));
}

#[test]
fn pasted_images_start_at_the_canvas_origin() {
    let mut doc = Document::new(100, 100);
    CropCmd::new(Rect::new(25, 30, 50, 60)).apply(&mut doc).unwrap();
    let red = Rgba32F::new(1.0, 0.0, 0.0, 1.0);
    let mut cmd = PasteImageLayerCmd::new("P", 1, 1, vec![red.bits()]);
    cmd.apply(&mut doc).unwrap();
    let layer = doc.layer(cmd.new_id.unwrap()).unwrap();
    assert_eq!(layer.offset, IVec2::new(25, 30));
    assert_eq!(layer.buffer().unwrap().px(IVec2::new(0, 0)), red);
}

#[test]
fn batch_cmd_referenced_layers_is_union() {
    let mut doc = Document::new(10, 10);
    let a = doc.add_raster_layer("A");
    let bb = doc.add_raster_layer("B");

    let mut batch = BatchCmd::new("Group");
    batch.push(Box::new(SetOpacityCmd::new(a, b(0.5))));
    batch.push(Box::new(SetVisibleCmd::new(bb, false)));

    let mut refs = batch.referenced_layers();
    refs.sort();
    assert_eq!(refs, vec![a, bb]);
}

#[test]
fn add_vector_layer_cmd_round_trips() {
    let mut doc = Document::new(100, 100);
    let bg = doc.add_raster_layer("Background");
    doc.active = Some(bg);

    let data = VectorData {
        paths: vec![VectorPath {
            vertices: vec![
                IVec2::new(0, 0),
                IVec2::new(10, 0),
                IVec2::new(10, 10),
                IVec2::new(0, 10),
            ],
            fill: VectorFill::Solid(Rgba32F::new(1.0, 0.0, 0.0, 1.0).bits()),
            stroke: VectorStroke {
                color: Rgba32F::TRANSPARENT.bits(),
                width: b(0.0),
                dash: Vec::new(),
                cap: StrokeCap::Butt,
                join: StrokeJoin::Miter,
            },
            closed: true,
        }],
        rasterized: None,
        svg_source: None,
        version: 0,
    };

    let mut cmd = AddVectorLayerCmd::new("Vector", data.clone());
    cmd.apply(&mut doc).unwrap();
    let new_id = doc.active.unwrap();
    assert_ne!(new_id, bg);
    assert_eq!(doc.layer(new_id).unwrap().name, "Vector");
    assert!(matches!(
        doc.layer(new_id).unwrap().content,
        LayerContent::Vector(_)
    ));
    assert_eq!(doc.layer(new_id).unwrap().offset, IVec2::zero());

    cmd.undo(&mut doc);
    assert_eq!(doc.active, Some(bg));
    assert!(!doc.order.contains(&new_id));

    cmd.apply(&mut doc).unwrap();
    assert_eq!(doc.active, Some(new_id));
    assert!(doc.order.contains(&new_id));
}

#[test]
fn add_vector_layer_cmd_with_offset_positions_layer() {
    let mut doc = Document::new(100, 100);
    let bg = doc.add_raster_layer("Background");
    doc.active = Some(bg);

    let data = VectorData {
        paths: vec![VectorPath {
            vertices: vec![IVec2::new(0, 0), IVec2::new(5, 0), IVec2::new(5, 5)],
            fill: VectorFill::Solid(Rgba32F::new(0.0, 0.0, 1.0, 1.0).bits()),
            stroke: VectorStroke {
                color: Rgba32F::TRANSPARENT.bits(),
                width: b(0.0),
                dash: Vec::new(),
                cap: StrokeCap::Butt,
                join: StrokeJoin::Miter,
            },
            closed: true,
        }],
        rasterized: None,
        svg_source: None,
        version: 0,
    };

    let mut cmd = AddVectorLayerCmd::new("Vector", data).with_offset(IVec2::new(12, 34));
    cmd.apply(&mut doc).unwrap();
    let new_id = doc.active.unwrap();
    assert_eq!(doc.layer(new_id).unwrap().offset, IVec2::new(12, 34));
}
