use ogre_core::{
    AdjustmentKind, ColorSpace, Document, IVec2, Layer, LayerContent, Rect, Rgba32F,
    Selection, SliceRect, StrokeCap, StrokeJoin, SvgSource, Tile, TiledBuffer, VectorData,
    VectorFill, VectorPath, VectorPathV1, VectorStroke,
};

fn b(v: f32) -> u32 {
    v.to_bits()
}

fn px(r: f32, g: f32, bl: f32, a: f32) -> Rgba32F {
    Rgba32F::new(b(r), b(g), b(bl), b(a))
}

fn painted(p: IVec2, c: Rgba32F) -> TiledBuffer {
    let mut buffer = TiledBuffer::new();
    buffer.set_pixel(p, c);
    buffer
}

fn triangle() -> VectorPath {
    VectorPath {
        vertices: vec![IVec2::new(0, 0), IVec2::new(10, 0), IVec2::new(10, 10)],
        fill: VectorFill::Solid(px(1.0, 0.0, 0.0, 1.0)),
        stroke: VectorStroke {
            color: px(0.0, 1.0, 0.0, 1.0),
            width: b(2.0),
            dash: vec![b(3.0), b(1.0)],
            cap: StrokeCap::Butt,
            join: StrokeJoin::Miter,
        },
        closed: true,
    }
}

#[test]
fn tiles_with_equal_pixels_are_equal() {
    let mut a = Tile::transparent();
    let mut c = Tile::transparent();
    assert!(a.eq(&c));
    a.set(3, 4, px(0.5, 0.0, 0.0, 1.0));
    assert!(!a.eq(&c));
    c.set(3, 4, px(0.5, -0.0, 0.0, 1.0));
    assert!(a.eq(&c));
}

#[test]
fn what_is_no_number_equals_nothing() {
    let a = painted(IVec2::new(1, 1), px(f32::NAN, 0.0, 0.0, 1.0));
    assert!(!a.eq(&a));
}

#[test]
fn buffers_with_other_tiles_differ() {
    let red = px(1.0, 0.0, 0.0, 1.0);
    let a = painted(IVec2::new(1, 1), red);
    let c = painted(IVec2::new(1, 1), red);
    assert!(a.eq(&c));
    let far = painted(IVec2::new(9000, 1), red);
    assert!(!a.eq(&far));
    let mut both = painted(IVec2::new(1, 1), red);
    both.set_pixel(IVec2::new(9000, 1), red);
    assert!(!a.eq(&both));
    assert!(!both.eq(&a));
}

#[test]
fn vector_contents_are_compared_by_path_source_and_version() {
    let mut a = VectorData::default();
    let mut c = VectorData::new();
    assert!(a.eq(&c));
    a.paths.push(triangle());
    assert!(!a.eq(&c));
    c.paths.push(triangle());
    assert!(a.eq(&c));
    c.paths[0].stroke.dash[1] = b(2.0);
    assert!(!a.eq(&c));
    c.paths[0].stroke.dash[1] = b(1.0);
    c.svg_source = Some(SvgSource { source_bytes: vec![1, 2], element_id: String::from("e") });
    assert!(!a.eq(&c));
    a.svg_source = Some(SvgSource { source_bytes: vec![1, 2], element_id: String::from("e") });
    assert!(a.eq(&c));
    c.mark_dirty();
    assert!(!a.eq(&c));
}

#[test]
fn adjustments_are_compared_by_their_numbers() {
    let a = LayerContent::Adjustment(AdjustmentKind::HueSat {
        hue: b(0.0),
        saturation: b(0.5),
        lightness: b(0.0),
    });
    let c = LayerContent::Adjustment(AdjustmentKind::HueSat {
        hue: b(-0.0),
        saturation: b(0.5),
        lightness: b(0.0),
    });
    let d = LayerContent::Adjustment(AdjustmentKind::HueSat {
        hue: b(0.25),
        saturation: b(0.5),
        lightness: b(0.0),
    });
    assert!(a.eq(&c));
    assert!(!a.eq(&d));
    assert!(!a.eq(&LayerContent::Adjustment(AdjustmentKind::Invert)));
    assert!(!a.eq(&LayerContent::Group { children: Vec::new() }));
}

#[test]
fn layers_are_compared_by_every_field() {
    let a = Layer::new_raster("a");
    let mut c = Layer::new_raster("a");
    assert!(a.eq(&c));
    c.name = String::from("c");
    assert!(!a.eq(&c));
    c.name = String::from("a");
    c.visible = false;
    assert!(!a.eq(&c));
    c.visible = true;
    c.opacity = b(0.5);
    assert!(!a.eq(&c));
}

#[test]
fn selections_are_compared_by_kind_and_extent() {
    let a = Selection::rect(Rect::new(0, 0, 4, 4));
    let c = Selection::rect(Rect::new(0, 0, 4, 4));
    let d = Selection::rect(Rect::new(0, 0, 4, 5));
    assert!(a.eq(&c));
    assert!(!a.eq(&d));
    assert!(!a.eq(&Selection::none()));
    assert!(Selection::none().eq(&Selection::none()));
}

#[test]
fn equal_documents_are_equal_and_each_change_shows() {
    let mut doc = Document::new(8, 8);
    let id = doc.add_raster_layer("paint");
    let same = doc.clone();
    assert!(doc.eq(&same));
    assert!(same.eq(&doc));

    let mut other = doc.clone();
    other.color_space = ColorSpace::Srgb;
    assert!(!doc.eq(&other));

    let mut other = doc.clone();
    other.icc_profile = Some(vec![1]);
    assert!(!doc.eq(&other));

    let mut other = doc.clone();
    other.slices.push(SliceRect { name: String::from("s"), rect: Rect::new(0, 0, 1, 1) });
    assert!(!doc.eq(&other));

    let mut other = doc.clone();
    other.selection = Selection::rect(Rect::new(0, 0, 2, 2));
    assert!(!doc.eq(&other));

    let mut other = doc.clone();
    other.active = None;
    assert!(!doc.eq(&other));

    let mut other = doc.clone();
    other
        .layer_mut(id)
        .unwrap()
        .buffer_mut()
        .unwrap()
        .set_pixel(IVec2::new(2, 2), px(1.0, 1.0, 1.0, 1.0));
    assert!(!doc.eq(&other));

    let mut other = doc.clone();
    other.add_raster_layer("more");
    assert!(!doc.eq(&other));
    assert!(!other.eq(&doc));
}

#[test]
fn soft_removal_makes_documents_differ() {
    let mut doc = Document::new(8, 8);
    let a = doc.add_raster_layer("a");
    doc.add_raster_layer("b");
    let mut removed = doc.clone();
    let ids = removed.remove_layer_soft(a).unwrap();
    assert!(!doc.eq(&removed));
    assert!(removed.eq(&removed.clone()));
    let active = doc.active;
    removed.restore_layer_soft(None, 0, a, &ids);
    removed.active = active;
    assert!(doc.eq(&removed));
}

#[test]
fn paths_of_the_first_format_become_new_paths() {
    let path = VectorPath::from(VectorPathV1 {
        vertices: vec![IVec2::new(0, 0), IVec2::new(10, 0), IVec2::new(10, 10)],
        fill: px(1.0, 0.0, 0.0, 1.0),
        stroke: px(0.0, 1.0, 0.0, 1.0),
        stroke_width: 3,
        closed: true,
    });
    assert_eq!(path.vertices.len(), 3);
    assert_eq!(path.fill, VectorFill::Solid(px(1.0, 0.0, 0.0, 1.0)));
    assert_eq!(path.stroke.color, px(0.0, 1.0, 0.0, 1.0));
    assert_eq!(f32::from_bits(path.stroke.width), 3.0);
    assert!(path.stroke.dash.is_empty());
    assert_eq!(path.stroke.cap, StrokeCap::Butt);
    assert_eq!(path.stroke.join, StrokeJoin::Miter);
    assert!(path.closed);
}
