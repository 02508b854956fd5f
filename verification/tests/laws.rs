#![allow(dead_code)]
use ogre_core::brush::stamp;
use ogre_core::coord::pixel_to_tile;
use ogre_core::scanline::scanline_fill;
use ogre_core::vector_raster::bresenham_line;
use ogre_core::Rgba32F as Pixel;
use ogre_core::{
    composite_document, merge_down, move_layer_into_group, sample_document_pixel, tile_rect,
    AddRasterLayerCmd, BatchCmd, BinaryOp, BrushSettings, CanvasAnchor, ColorSpace, Command,
    CropCmd, CutToNewLayerCmd, DeleteLayerCmd, Document, DuplicateLayerCmd, FillSelectionCmd,
    FlipAxis, FlipLayerCmd, FloatKernel, FloatMath, GrowSelectionCmd, History, IVec2, InputSample,
    InsertLayerSubtreeCmd, InvertSelectionCmd, Layer, LayerId, MergeDownCmd, OgreError,
    PaintBucketCmd, PaintCmd, PaintMode, PaintStrokeCmd, Rect, ReorderCmd, ResizeCanvasCmd,
    Selection, SelectionMode, SetLayerLockedCmd, SetOpacityCmd, SetSelectionCmd,
    ShrinkSelectionCmd, SliceRect, StrokeSelectionCmd, TileCoord, TiledBuffer, UnaryOp, Vec2,
    WholeOp,
};

/// A pixel with its channels as numbers.
#[derive(Clone, Copy, Debug, PartialEq)]
struct Rgba32F {
    r: f32,
    g: f32,
    b: f32,
    a: f32,
}

impl Rgba32F {
    const TRANSPARENT: Rgba32F = Rgba32F { r: 0.0, g: 0.0, b: 0.0, a: 0.0 };

    fn new(r: f32, g: f32, b: f32, a: f32) -> Self {
        Rgba32F { r, g, b, a }
    }

    fn bits(self) -> Pixel {
        Pixel::new(self.r.to_bits(), self.g.to_bits(), self.b.to_bits(), self.a.to_bits())
    }
}

fn up(p: Pixel) -> Rgba32F {
    Rgba32F::new(f(p.r), f(p.g), f(p.b), f(p.a))
}

fn b(v: f32) -> u32 {
    v.to_bits()
}

fn f(v: u32) -> f32 {
    f32::from_bits(v)
}

/// Pixels as numbers.
trait Pixels {
    fn px(&self, p: IVec2) -> Rgba32F;
    fn put(&mut self, p: IVec2, c: Rgba32F);
}

impl Pixels for TiledBuffer {
    fn px(&self, p: IVec2) -> Rgba32F {
        up(self.get_pixel(p))
    }

    fn put(&mut self, p: IVec2, c: Rgba32F) {
        self.set_pixel(p, c.bits());
    }
}

/// How much of a pixel is selected, as a number.
trait Covers {
    fn cov(&self, p: IVec2) -> f32;
}

impl Covers for Selection {
    fn cov(&self, p: IVec2) -> f32 {
        f(self.coverage_at(p))
    }
}

type Math = FloatMath<
    fn(BinaryOp, u32, u32) -> u32,
    fn(UnaryOp, u32) -> u32,
    fn(WholeOp, u32) -> i32,
    fn(&Vec<u32>) -> u32,
>;

fn binary(op: BinaryOp, x: u32, y: u32) -> u32 {
    let (x, y) = (f32::from_bits(x), f32::from_bits(y));
    let r = match op {
        BinaryOp::Add => x + y,
        BinaryOp::Sub => x - y,
        BinaryOp::Mul => x * y,
        BinaryOp::Div => x / y,
        BinaryOp::Pow => x.powf(y),
        BinaryOp::RemEuclid => x.rem_euclid(y),
        BinaryOp::Atan2 => x.atan2(y),
    };
    r.to_bits()
}

fn unary(op: UnaryOp, x: u32) -> u32 {
    let x = f32::from_bits(x);
    let r = match op {
        UnaryOp::Sqrt => x.sqrt(),
        UnaryOp::Round => x.round(),
    };
    r.to_bits()
}

fn whole(op: WholeOp, x: u32) -> i32 {
    let x = f32::from_bits(x);
    match op {
        WholeOp::Floor => x.floor() as i32,
        WholeOp::Ceil => x.ceil() as i32,
    }
}

fn mean(numbers: &Vec<u32>) -> u32 {
    let sum: f64 = numbers.iter().map(|n| f32::from_bits(*n) as f64).sum();
    ((sum / numbers.len() as f64) as f32).to_bits()
}

fn math() -> Math {
    FloatMath { binary, unary, whole, mean }
}

fn kern() -> FloatKernel<Math> {
    FloatKernel { math: math() }
}

#[test]
fn rectangles_share_exactly_their_common_points() {
    let x = Rect::new(-3, 2, 7, 5);
    let y = Rect::new(0, -1, 9, 6);
    let both = x.intersect(y).unwrap();
    let all = x.union(y);
    for j in -5..12 {
        for i in -6..14 {
            let p = IVec2::new(i, j);
            assert_eq!(both.contains(p), x.contains(p) && y.contains(p));
            assert!(!(x.contains(p) || y.contains(p)) || all.contains(p));
        }
    }
}

#[test]
fn covered_tiles_hold_every_pixel_of_the_rectangle() {
    let r = Rect::new(-300, 250, 600, 20);
    let tiles = r.tiles_covered();
    assert_eq!(tiles.len(), 8);
    for p in [IVec2::new(-300, 250), IVec2::new(299, 269), IVec2::new(0, 255), IVec2::new(0, 256)] {
        assert!(tiles.contains(&pixel_to_tile(p).0));
    }
    let rect = Rect::new(-256, 512, 256, 256);
    assert_eq!(tile_rect(TileCoord { x: -1, y: 2 }), Some(rect));
}

#[test]
fn reading_gives_back_what_was_written() {
    let mut buffer = TiledBuffer::new();
    let r = Rect::new(-2, 254, 4, 3);
    let data: Vec<Pixel> = (0..12)
        .map(|i| Rgba32F::new(i as f32 / 16.0, 0.5, 0.25, 1.0).bits())
        .collect();
    buffer.blit_rect(r, &data);
    assert!(buffer.read_rect(r) == data);
    buffer.clear_rect(Rect::new(-2, 254, 2, 3));
    assert_eq!(buffer.px(IVec2::new(-1, 255)), Rgba32F::TRANSPARENT);
    assert_eq!(buffer.px(IVec2::new(0, 254)), Rgba32F::new(2.0 / 16.0, 0.5, 0.25, 1.0));
    buffer.prune_empty_tiles();
    assert_eq!(buffer.px(IVec2::new(1, 256)), Rgba32F::new(11.0 / 16.0, 0.5, 0.25, 1.0));
}

#[test]
fn a_clone_is_not_touched_by_writes_to_the_other() {
    let mut one = TiledBuffer::new();
    one.put(IVec2::new(1, 1), Rgba32F::new(1.0, 0.0, 0.0, 1.0));
    let two = one.clone();
    one.put(IVec2::new(1, 1), Rgba32F::new(0.0, 0.0, 1.0, 1.0));
    assert_eq!(two.px(IVec2::new(1, 1)), Rgba32F::new(1.0, 0.0, 0.0, 1.0));
    assert_eq!(one.px(IVec2::new(1, 1)), Rgba32F::new(0.0, 0.0, 1.0, 1.0));
}

#[test]
fn inverting_a_rectangle_selects_the_rest_of_the_canvas() {
    let canvas = Rect::new(0, 0, 12, 9);
    let sel = Selection::rect(Rect::new(3, 2, 4, 4));
    let inv = sel.invert(canvas);
    for y in -2..12 {
        for x in -2..14 {
            let p = IVec2::new(x, y);
            let want = if canvas.contains(p) { 1.0 - sel.cov(p) } else { 0.0 };
            assert_eq!(inv.cov(p), want, "{p:?}");
        }
    }
}

#[test]
fn growing_and_shrinking_a_rectangle_moves_its_edges() {
    let sel = Selection::rect(Rect::new(10, 10, 6, 6));
    let big = sel.grow(2);
    assert_eq!(big.bounds(), Some(Rect::new(8, 8, 10, 10)));
    assert_eq!(big.cov(IVec2::new(8, 17)), 1.0);
    assert_eq!(big.shrink(2).bounds(), Some(Rect::new(10, 10, 6, 6)));
    assert!(sel.shrink(3).is_empty());
}

#[test]
fn selections_combine_pixel_by_pixel() {
    let x = Selection::rect(Rect::new(0, 0, 6, 6));
    let y = Selection::rect(Rect::new(3, 3, 6, 6));
    let modes = [
        SelectionMode::Replace,
        SelectionMode::Add,
        SelectionMode::Subtract,
        SelectionMode::Intersect,
    ];
    for mode in modes {
        let c = x.combine(&y, mode);
        for j in 0..10 {
            for i in 0..10 {
                let p = IVec2::new(i, j);
                let (u, v) = (x.cov(p) > 0.0, y.cov(p) > 0.0);
                let want = match mode {
                    SelectionMode::Replace => v,
                    SelectionMode::Add => u || v,
                    SelectionMode::Subtract => u && !v,
                    SelectionMode::Intersect => u && v,
                };
                assert_eq!(c.cov(p) > 0.0, want, "{p:?}");
            }
        }
    }
}

#[test]
fn selected_tiles_hold_every_selected_pixel() {
    let sel = Selection::rect(Rect::new(250, 250, 10, 10));
    let tiles = sel.selected_tiles(IVec2::new(-300, 0));
    for p in [IVec2::new(250, 250), IVec2::new(259, 259)] {
        let local = IVec2::new(p.x + 300, p.y);
        assert!(tiles.contains(&pixel_to_tile(local).0));
    }
    assert!(Selection::none().selected_tiles(IVec2::zero()).is_empty());
}

#[test]
fn restoring_takes_a_soft_removal_back() {
    let mut doc = Document::new(8, 8);
    let bg = doc.add_raster_layer("bg");
    let group = doc.insert_layer_above(Layer::new_group("g"), bg).unwrap();
    let child = doc.add_raster_layer("child");
    doc.move_into_group(child, group, 0).unwrap();
    let before = doc.render_order().unwrap();
    let (parent, index) = doc.sibling_index(group).unwrap();
    let ids = doc.remove_layer_soft(group).unwrap();
    assert_eq!(doc.render_order().unwrap(), vec![(bg, 0)]);
    assert!(doc.is_removed(group) && doc.is_removed(child));
    doc.restore_layer_soft(parent, index, group, &ids);
    assert_eq!(doc.render_order().unwrap(), before);
    assert!(!doc.is_removed(group) && !doc.is_removed(child));
}

#[test]
fn lines_start_and_end_at_their_ends() {
    let line = bresenham_line((2, -3), (-5, 9));
    assert_eq!(line.first(), Some(&(2, -3)));
    assert_eq!(line.last(), Some(&(-5, 9)));
    assert_eq!(line.len(), 13);
    for w in line.windows(2) {
        assert!((w[0].0 - w[1].0).abs() <= 1 && (w[0].1 - w[1].1).abs() <= 1 && w[0] != w[1]);
    }
}

#[test]
fn polygons_fill_between_pairs_of_crossings() {
    // A square with a notch: row 1 is crossed four times.
    let points = vec![
        IVec2::new(0, 0),
        IVec2::new(2, 0),
        IVec2::new(2, 2),
        IVec2::new(4, 2),
        IVec2::new(4, 0),
        IVec2::new(6, 0),
        IVec2::new(6, 4),
        IVec2::new(0, 4),
    ];
    let pixels = scanline_fill(&math(), &points);
    let row = |y: i32| {
        let mut xs: Vec<i32> = pixels.iter().filter(|p| p.y == y).map(|p| p.x).collect();
        xs.sort();
        xs
    };
    assert_eq!(row(1), vec![0, 1, 4, 5]);
    assert_eq!(row(3), vec![0, 1, 2, 3, 4, 5]);
    assert!(row(4).is_empty());
    assert!(scanline_fill(&math(), &vec![IVec2::new(0, 0), IVec2::new(5, 5)]).is_empty());
}

#[test]
fn a_sample_is_what_compositing_shows() {
    let mut doc = Document::new(6, 6);
    let bg = doc.add_raster_layer("bg");
    doc.layer_mut(bg)
        .unwrap()
        .buffer_mut()
        .unwrap()
        .put(IVec2::new(2, 3), Rgba32F::new(0.25, 0.5, 0.75, 1.0));
    let top = doc.add_raster_layer("top");
    doc.layer_mut(top).unwrap().opacity = b(0.5);
    doc.layer_mut(top).unwrap().offset = IVec2::new(1, 1);
    doc.layer_mut(top)
        .unwrap()
        .buffer_mut()
        .unwrap()
        .put(IVec2::new(1, 2), Rgba32F::new(1.0, 0.0, 0.0, 0.5));
    for y in 0..6 {
        for x in 0..6 {
            let one = sample_document_pixel(&kern(), &doc, IVec2::new(x, y)).unwrap();
            let all = composite_document(&kern(), &doc, Rect::new(x, y, 1, 1)).unwrap();
            assert!(one == all[0]);
        }
    }
}

#[test]
fn undoing_everything_brings_back_the_document() {
    let mut doc = Document::new(32, 32);
    let bg = doc.add_raster_layer("bg");
    doc.layer_mut(bg)
        .unwrap()
        .buffer_mut()
        .unwrap()
        .put(IVec2::new(4, 4), Rgba32F::new(0.5, 0.5, 0.5, 1.0));
    let order = doc.order.clone();
    let shown = composite_document(&kern(), &doc, Rect::new(0, 0, 32, 32)).unwrap();

    let mut history = History::new(0);
    let red = Rgba32F::new(1.0, 0.0, 0.0, 1.0).bits();
    let steps: Vec<Box<dyn Command>> = vec![
        Box::new(SetOpacityCmd::new(bg, b(0.5))),
        Box::new(AddRasterLayerCmd::new("new")),
        Box::new(PaintCmd::new(bg, vec![(IVec2::new(4, 4), red)])),
        Box::new(DuplicateLayerCmd::new(bg)),
        Box::new(SetSelectionCmd::new(Selection::rect(Rect::new(1, 1, 9, 9)))),
        Box::new(CutToNewLayerCmd::new(kern(), bg, Selection::rect(Rect::new(1, 1, 9, 9)))),
        Box::new(CropCmd::new(Rect::new(2, 2, 10, 10))),
        Box::new(DeleteLayerCmd::new(bg)),
    ];
    let n = steps.len();
    for cmd in steps {
        history.do_command(&mut doc, cmd).unwrap();
    }
    assert_eq!(history.undo_len(), n);
    let late = doc.order.clone();
    let end = composite_document(&kern(), &doc, doc.canvas).unwrap();

    while history.undo(&mut doc).is_some() {}
    assert_eq!(doc.order, order);
    assert_eq!(doc.canvas, Rect::new(0, 0, 32, 32));
    assert_eq!(doc.active, Some(bg));
    assert!(doc.selection.is_empty());
    assert_eq!(f(doc.layer(bg).unwrap().opacity), 1.0);
    assert!(composite_document(&kern(), &doc, Rect::new(0, 0, 32, 32)).unwrap() == shown);

    while history.redo(&mut doc).is_some() {}
    assert_eq!(doc.order, late);
    assert_eq!(doc.canvas, Rect::new(2, 2, 10, 10));
    assert!(composite_document(&kern(), &doc, doc.canvas).unwrap() == end);
}

#[test]
fn a_failed_command_leaves_the_document_and_the_history() {
    let mut doc = Document::new(8, 8);
    let bg = doc.add_raster_layer("bg");
    let mut history = History::new(0);
    history.do_command(&mut doc, Box::new(SetOpacityCmd::new(bg, b(0.25)))).unwrap();
    let gone = LayerId::null();
    let r = history.do_command(&mut doc, Box::new(SetOpacityCmd::new(gone, b(0.5))));
    assert_eq!(r, Err(OgreError::LayerNotFound(gone)));
    assert_eq!(history.undo_len(), 1);
    assert_eq!(f(doc.layer(bg).unwrap().opacity), 0.25);
}

#[test]
fn a_copied_subtree_is_inserted_and_taken_out_again() {
    let mut source = Document::new(8, 8);
    let base = source.add_raster_layer("base");
    let group = source.insert_layer_above(Layer::new_group("g"), base).unwrap();
    let child = source.add_raster_layer("child");
    source.move_into_group(child, group, 0).unwrap();
    source
        .layer_mut(child)
        .unwrap()
        .buffer_mut()
        .unwrap()
        .put(IVec2::new(1, 1), Rgba32F::new(0.0, 1.0, 0.0, 1.0));

    let mut doc = Document::new(8, 8);
    let bg = doc.add_raster_layer("bg");
    let mut history = History::new(0);
    let cmd = InsertLayerSubtreeCmd::new_from_source(&source, group, 1).unwrap();
    history.do_command(&mut doc, Box::new(cmd)).unwrap();
    let order = doc.render_order().unwrap();
    assert_eq!(order.len(), 3);
    assert_eq!(order[0], (bg, 0));
    assert_eq!(doc.layer(order[1].0).unwrap().name, "g");
    let copy = doc.layer(order[2].0).unwrap();
    assert_eq!(copy.name, "child");
    assert_eq!(copy.buffer().unwrap().px(IVec2::new(1, 1)), Rgba32F::new(0.0, 1.0, 0.0, 1.0));
    history.undo(&mut doc);
    assert_eq!(doc.render_order().unwrap(), vec![(bg, 0)]);
    history.redo(&mut doc);
    assert_eq!(doc.render_order().unwrap().len(), 3);
}

#[test]
fn opacity_edits_of_one_layer_coalesce() {
    let mut doc = Document::new(8, 8);
    let bg = doc.add_raster_layer("bg");
    let mut history = History::new(0);
    history.do_command(&mut doc, Box::new(SetOpacityCmd::new(bg, b(0.75)))).unwrap();
    let top = history.undo_top_mut().unwrap();
    assert!(top.cmd.coalesce_opacity(&mut doc, bg, b(0.5)));
    assert_eq!(history.undo_len(), 1);
    assert_eq!(f(doc.layer(bg).unwrap().opacity), 0.5);
    history.undo(&mut doc);
    assert_eq!(f(doc.layer(bg).unwrap().opacity), 1.0);
}

#[test]
fn redoing_shows_what_doing_showed() {
    let mut doc = Document::new(8, 8);
    let bg = doc.add_raster_layer("bg");
    let top = doc.add_raster_layer("top");
    let mut history = History::new(0);
    let red = Rgba32F::new(1.0, 0.0, 0.0, 1.0);
    let mut states = vec![doc.clone()];
    history
        .do_command(&mut doc, Box::new(PaintCmd::new(bg, vec![(IVec2::new(2, 2), red.bits())])))
        .unwrap();
    states.push(doc.clone());
    history.do_command(&mut doc, Box::new(ReorderCmd::new(top, 0))).unwrap();
    states.push(doc.clone());
    history.do_command(&mut doc, Box::new(CropCmd::new(Rect::new(1, 1, 4, 4)))).unwrap();
    states.push(doc.clone());
    history.do_command(&mut doc, Box::new(SetOpacityCmd::new(top, b(0.5)))).unwrap();
    states.push(doc.clone());
    for k in (0..4).rev() {
        assert!(history.undo(&mut doc).is_some());
        assert!(doc.eq(&states[k]));
    }
    for state in &states[1..] {
        assert!(history.redo(&mut doc).is_some());
        assert!(doc.eq(state));
    }
    assert!(history.redo(&mut doc).is_none());
}

#[test]
fn an_added_layer_comes_back_under_its_identifier() {
    let mut doc = Document::new(8, 8);
    doc.add_raster_layer("bg");
    let mut history = History::new(0);
    history.do_command(&mut doc, Box::new(AddRasterLayerCmd::new("new"))).unwrap();
    let id = doc.active.unwrap();
    let order = doc.order.clone();
    history.undo(&mut doc);
    assert!(!doc.order.contains(&id));
    assert!(doc.is_removed(id));
    history.redo(&mut doc);
    assert_eq!(doc.order, order);
    assert_eq!(doc.active, Some(id));
    assert!(!doc.is_removed(id));
}

#[test]
fn slices_and_profiles_do_not_show() {
    let mut doc = Document::new(4, 4);
    let bg = doc.add_raster_layer("bg");
    doc.layer_mut(bg)
        .unwrap()
        .buffer_mut()
        .unwrap()
        .put(IVec2::new(1, 1), Rgba32F::new(0.25, 0.5, 0.75, 1.0));
    let plain = composite_document(&kern(), &doc, Rect::new(0, 0, 4, 4)).unwrap();
    doc.slices.push(SliceRect { name: String::from("s"), rect: Rect::new(0, 0, 2, 2) });
    doc.icc_profile = Some(vec![1, 2, 3]);
    doc.color_space = ColorSpace::Srgb;
    doc.selection = Selection::rect(Rect::new(0, 0, 1, 1));
    assert_eq!(composite_document(&kern(), &doc, Rect::new(0, 0, 4, 4)).unwrap(), plain);
}

#[test]
fn a_batch_does_what_its_commands_do() {
    let mut doc = Document::new(8, 8);
    let bg = doc.add_raster_layer("bg");
    let before = doc.clone();
    let mut history = History::new(0);
    let mut batch = BatchCmd::new("both");
    batch.push(Box::new(CropCmd::new(Rect::new(0, 0, 3, 3))));
    batch.push(Box::new(SetOpacityCmd::new(bg, b(0.5))));
    history.do_command(&mut doc, Box::new(batch)).unwrap();
    assert_eq!(doc.canvas, Rect::new(0, 0, 3, 3));
    assert_eq!(f(doc.layer(bg).unwrap().opacity), 0.5);
    assert_eq!(history.undo(&mut doc), Some("both"));
    assert!(doc.eq(&before));

    let mut failing = BatchCmd::new("fails");
    failing.push(Box::new(CropCmd::new(Rect::new(0, 0, 3, 3))));
    failing.push(Box::new(CropCmd::new(Rect::new(0, 0, 0, 3))));
    let r = history.do_command(&mut doc, Box::new(failing));
    assert_eq!(r, Err(OgreError::InvalidOperation("crop rectangle is empty")));
    assert!(doc.eq(&before));
}

#[test]
fn filling_nothing_on_an_empty_canvas_fails() {
    let mut doc = Document::new(0, 4);
    doc.add_raster_layer("bg");
    let red = Rgba32F::new(1.0, 0.0, 0.0, 1.0).bits();
    let mut fill = FillSelectionCmd::new(kern(), red, b(1.0), Selection::none());
    assert_eq!(fill.apply(&mut doc), Err(OgreError::EmptySelection));
}

#[test]
fn stamps_change_nothing_outside_their_radius() {
    let mut buffer = TiledBuffer::new();
    let settings = BrushSettings {
        size: b(4.0),
        hardness: b(1.0),
        opacity: b(1.0),
        flow: b(1.0),
        spacing: b(0.25),
        pressure_size: false,
        pressure_opacity: false,
    };
    let center = Vec2 { x: b(8.0), y: b(8.0) };
    let red = Rgba32F::new(1.0, 0.0, 0.0, 1.0);
    stamp(&kern(), &kern(), &mut buffer, center, &settings, red.bits(), b(1.0), PaintMode::Brush);
    for y in 0..16 {
        for x in 0..16 {
            let (dx, dy) = (x as f32 + 0.5 - 8.0, y as f32 + 0.5 - 8.0);
            let inside = (dx * dx + dy * dy).sqrt() < 2.0;
            let px = buffer.px(IVec2::new(x, y));
            assert_eq!(px, if inside { red } else { Rgba32F::TRANSPARENT });
        }
    }
}

#[test]
fn applied_commands_can_be_pushed_and_undone() {
    let mut doc = Document::new(8, 8);
    let mut history = History::new(4);
    let mut crop = CropCmd::new(Rect::new(0, 0, 3, 3));
    crop.apply(&mut doc).unwrap();
    history.push_applied(&mut doc, Box::new(crop));
    assert_eq!((history.undo_len(), history.redo_len()), (1, 0));
    assert_eq!(doc.canvas, Rect::new(0, 0, 3, 3));
    assert!(history.undo(&mut doc).is_some());
    assert_eq!(doc.canvas, Rect::new(0, 0, 8, 8));
}

#[test]
fn softly_removed_layers_are_listed() {
    let mut doc = Document::new(8, 8);
    let id = doc.add_raster_layer("bg");
    assert!(!doc.removed_layers().contains(id));
    doc.remove_layer_soft(id).unwrap();
    assert!(doc.removed_layers().contains(id));
    assert!(doc.is_removed(id));
}

#[test]
fn redoing_paint_and_selections_looks_as_before() {
    let mut doc = Document::new(12, 12);
    let lower = doc.add_raster_layer("lower");
    let upper = doc.add_raster_layer("upper");
    let red = Rgba32F::new(1.0, 0.0, 0.0, 1.0).bits();
    let blue = Rgba32F::new(0.0, 0.0, 1.0, 1.0).bits();
    let settings = BrushSettings {
        size: b(3.0),
        hardness: b(0.5),
        opacity: b(0.75),
        flow: b(1.0),
        spacing: b(0.25),
        pressure_size: false,
        pressure_opacity: false,
    };
    let samples = vec![
        InputSample { pos: Vec2 { x: b(2.0), y: b(2.0) }, pressure: b(1.0) },
        InputSample { pos: Vec2 { x: b(8.0), y: b(5.0) }, pressure: b(1.0) },
    ];
    let corner = Selection::rect(Rect::new(0, 0, 6, 6));
    let commands: Vec<Box<dyn Command>> = vec![
        Box::new(PaintStrokeCmd::new(
            kern(), kern(), upper, samples.clone(), settings, red, PaintMode::Brush,
        )),
        Box::new(PaintStrokeCmd::new(
            kern(), kern(), upper, samples[..1].to_vec(), settings, red, PaintMode::Eraser,
        )),
        Box::new(FlipLayerCmd::new(upper, FlipAxis::Vertical)),
        Box::new(SetSelectionCmd::with_mode(corner.clone(), SelectionMode::Add)),
        Box::new(InvertSelectionCmd::new()),
        Box::new(GrowSelectionCmd::new(1)),
        Box::new(ShrinkSelectionCmd::new(2)),
        Box::new(PaintBucketCmd::new(kern(), math(), IVec2::new(10, 10), blue, b(0.1))),
        Box::new(FillSelectionCmd::new(kern(), red, b(0.5), corner.clone())),
        Box::new(StrokeSelectionCmd::new(kern(), blue, b(2.0), b(1.0), corner)),
        Box::new(MergeDownCmd::new(kern(), upper)),
    ];
    let mut history = History::new(0);
    let mut shown = vec![doc.clone()];
    for cmd in commands {
        history.do_command(&mut doc, cmd).unwrap();
        shown.push(doc.clone());
    }
    let n = shown.len();
    for i in 1..n {
        assert!(history.undo(&mut doc).is_some());
        assert!(looks_like(&doc, &shown[n - 1 - i], lower, upper));
    }
    for was in &shown[1..] {
        assert!(history.redo(&mut doc).is_some());
        assert!(looks_like(&doc, was, lower, upper));
    }
}

/// Two documents show the same in two layers, and select the same.
fn looks_like(x: &Document, y: &Document, lower: LayerId, upper: LayerId) -> bool {
    let mut same = x.order == y.order && x.active == y.active && x.canvas == y.canvas;
    for j in -2..14 {
        for i in -2..14 {
            let p = IVec2::new(i, j);
            same = same && x.selection.cov(p) == y.selection.cov(p);
            for id in [lower, upper] {
                let (m, n) = (x.layer(id).unwrap(), y.layer(id).unwrap());
                same = same && m.buffer().unwrap().px(p) == n.buffer().unwrap().px(p);
            }
        }
    }
    same
}

#[test]
fn a_duplicate_comes_back_under_its_identifier() {
    let mut doc = Document::new(8, 8);
    let bg = doc.add_raster_layer("bg");
    doc.add_raster_layer("top");
    let red = Rgba32F::new(1.0, 0.0, 0.0, 1.0);
    doc.layer_mut(bg).unwrap().buffer_mut().unwrap().put(IVec2::new(3, 3), red);
    let mut history = History::new(0);
    history.do_command(&mut doc, Box::new(DuplicateLayerCmd::new(bg))).unwrap();
    let (id, order) = (doc.active.unwrap(), doc.order.clone());
    assert_eq!(order[1], id);
    history.undo(&mut doc);
    assert!(!doc.order.contains(&id));
    history.redo(&mut doc);
    assert_eq!(doc.order, order);
    assert_eq!(doc.active, Some(id));
    assert_eq!(doc.layer(id).unwrap().buffer().unwrap().px(IVec2::new(3, 3)), red);
}

#[test]
fn clearing_cleans_up_after_a_batch() {
    let mut doc = Document::new(8, 8);
    let bg = doc.add_raster_layer("bg");
    let mut batch = BatchCmd::new("two layers");
    batch.push(Box::new(AddRasterLayerCmd::new("one")));
    batch.push(Box::new(AddRasterLayerCmd::new("two")));
    let mut history = History::new(0);
    history.do_command(&mut doc, Box::new(batch)).unwrap();
    let added = doc.order[1..].to_vec();
    assert_eq!(added.len(), 2);
    history.undo(&mut doc);
    assert!(added.iter().all(|id| doc.is_removed(*id) && doc.layer(*id).is_ok()));
    history.clear(&mut doc);
    assert!(added.iter().all(|id| doc.layer(*id).is_err()));
    assert!(doc.layer(bg).is_ok());
    assert_eq!((history.undo_len(), history.redo_len()), (0, 0));
}

#[test]
fn undoing_an_unapplied_resize_changes_nothing() {
    let mut doc = Document::new(8, 6);
    let id = doc.add_raster_layer("bg");
    doc.layer_mut(id).unwrap().offset = IVec2::new(3, 4);
    let before = doc.clone();
    let mut resize = ResizeCanvasCmd::new(0, 20, CanvasAnchor::Center);
    resize.undo(&mut doc);
    assert!(doc.eq(&before));
    assert!(resize.referenced_layers().is_empty());
    let mut resize = ResizeCanvasCmd::new(12, 20, CanvasAnchor::Center);
    resize.apply(&mut doc).unwrap();
    assert!(!doc.eq(&before));
    resize.undo(&mut doc);
    assert!(doc.eq(&before));
}

#[test]
fn commands_name_each_layer_once() {
    let mut doc = Document::new(8, 8);
    let lower = doc.add_raster_layer("lower");
    let upper = doc.add_raster_layer("upper");
    assert_eq!(SetLayerLockedCmd::new(lower, true).referenced_layers(), vec![lower]);
    let mut merge = MergeDownCmd::new(kern(), upper);
    assert_eq!(merge.referenced_layers(), vec![upper]);
    merge.apply(&mut doc).unwrap();
    assert_eq!(merge.referenced_layers(), vec![upper, lower]);
    let mut batch = BatchCmd::new("both");
    batch.push(Box::new(SetOpacityCmd::new(lower, b(0.5))));
    batch.push(Box::new(SetOpacityCmd::new(lower, b(0.25))));
    assert_eq!(batch.referenced_layers(), vec![lower]);
}

#[test]
fn an_applied_selection_still_takes_in_the_next_one() {
    let mut doc = Document::new(8, 8);
    let before = doc.clone();
    let first = Selection::rect(Rect::new(0, 0, 2, 2));
    let second = Selection::rect(Rect::new(1, 1, 4, 4));
    let mut cmd = SetSelectionCmd::new(first);
    cmd.apply(&mut doc).unwrap();
    assert!(cmd.coalesce_selection(&mut doc, &second));
    assert!(doc.selection.eq(&second));
    cmd.undo(&mut doc);
    assert!(doc.eq(&before));
}

#[test]
fn undoing_a_deletion_gives_the_document_back() {
    let mut doc = Document::new(8, 8);
    let bg = doc.add_raster_layer("bg");
    let group = doc.insert_layer_above(Layer::new_group("group"), bg).unwrap();
    let child = doc.add_raster_layer("child");
    move_layer_into_group(&mut doc, child, group, 0).unwrap();
    doc.add_raster_layer("top");
    let before = doc.clone();
    let mut cmd = DeleteLayerCmd::new(group);
    cmd.apply(&mut doc).unwrap();
    assert!(doc.is_removed(child));
    cmd.undo(&mut doc);
    assert!(doc.eq(&before));
}

#[test]
fn merging_shows_what_the_two_layers_showed() {
    let mut doc = Document::new(4, 4);
    let lower = doc.add_raster_layer("lower");
    let upper = doc.add_raster_layer("upper");
    let at = IVec2::new(1, 2);
    let pixels = [(lower, Rgba32F::new(0.8, 0.2, 0.1, 0.6)), (upper, Rgba32F::new(0.1, 0.9, 0.3, 0.4))];
    for (id, px) in pixels {
        let layer = doc.layer_mut(id).unwrap();
        layer.opacity = b(0.7);
        layer.buffer_mut().unwrap().put(at, px);
    }
    let before = up(sample_document_pixel(&kern(), &doc, at).unwrap());
    let r = merge_down(&kern(), &mut doc, upper);
    assert_eq!(r, Ok(lower));
    let after = up(sample_document_pixel(&kern(), &doc, at).unwrap());
    for (x, y) in [(before.r, after.r), (before.g, after.g), (before.b, after.b), (before.a, after.a)] {
        assert!((x - y).abs() < 1e-5, "{before:?} {after:?}");
    }
}

#[test]
fn undo_and_redo_name_the_same_command() {
    let mut doc = Document::new(8, 8);
    let mut history = History::new(0);
    history.do_command(&mut doc, Box::new(CropCmd::new(Rect::new(0, 0, 3, 3)))).unwrap();
    let label = history.undo(&mut doc);
    assert_eq!(history.redo(&mut doc), label);
    assert_eq!(history.undo(&mut doc), label);
}

#[test]
fn a_batch_that_adds_layers_can_be_undone_after_it_was_redone() {
    let mut doc = Document::new(4, 4);
    let mut history = History::new(0);
    let mut batch = BatchCmd::new("two layers");
    batch.push(Box::new(AddRasterLayerCmd::new("A")));
    batch.push(Box::new(AddRasterLayerCmd::new("B")));
    history.do_command(&mut doc, Box::new(batch)).unwrap();
    let order = doc.order.clone();
    for _ in 0..3 {
        history.undo(&mut doc);
        assert!(doc.order.is_empty());
        assert_eq!(doc.active, None);
        history.redo(&mut doc);
        assert_eq!(doc.order, order);
    }
}

#[test]
fn merging_opaque_layers_keeps_the_composite_exactly() {
    let mut doc = Document::new(2, 2);
    let lower = doc.add_raster_layer("lower");
    let upper = doc.add_raster_layer("upper");
    let red = Rgba32F::new(1.0, 0.0, 0.0, 1.0);
    doc.layer_mut(lower).unwrap().buffer_mut().unwrap().put(IVec2::new(0, 0), red);
    let green = Rgba32F::new(0.0, 1.0, 0.0, 1.0);
    doc.layer_mut(upper).unwrap().buffer_mut().unwrap().put(IVec2::new(1, 0), green);
    let region = Rect::new(0, 0, 2, 2);
    let before = composite_document(&kern(), &doc, region).unwrap();
    merge_down(&kern(), &mut doc, upper).unwrap();
    assert_eq!(doc.order, vec![lower]);
    let after = composite_document(&kern(), &doc, region).unwrap();
    assert_eq!(
        before.into_iter().map(up).collect::<Vec<_>>(),
        after.into_iter().map(up).collect::<Vec<_>>()
    );
}

#[test]
fn pushing_keeps_the_newest_commands() {
    let mut doc = Document::new(8, 8);
    let mut history = History::new(2);
    for n in 1..5 {
        let mut crop = CropCmd::new(Rect::new(0, 0, n, n));
        crop.apply(&mut doc).unwrap();
        history.push_applied(&mut doc, Box::new(crop));
        assert_eq!(history.undo_len(), n.min(2) as usize);
        assert_eq!(history.redo_len(), 0);
    }
    history.undo(&mut doc);
    assert_eq!(doc.canvas, Rect::new(0, 0, 3, 3));
    history.undo(&mut doc);
    assert_eq!(doc.canvas, Rect::new(0, 0, 2, 2));
    assert_eq!(history.undo(&mut doc), None);
}
