#![allow(dead_code)]
use ogre_core::Rgba32F as Pixel;
use ogre_core::{
    AdjustmentKind, BlendMode, IVec2, Layer, LayerContent, SvgSource, TiledBuffer, VectorData,
};

/// A pixel with its channels as numbers.
#[derive(Clone, Copy, Debug, PartialEq)]
struct Rgba32F {
    r: f32,
    g: f32,
    b: f32,
    a: f32,
}

impl Rgba32F {
    const TRANSPARENT: Rgba32F = Rgba32F { r: 0.0, g: 0.0, b: 0.0, a: 0.0 };

    fn new(r: f32, g: f32, b: f32, a: f32) -> Self {
        Rgba32F { r, g, b, a }
    }

    fn bits(self) -> Pixel {
        Pixel::new(self.r.to_bits(), self.g.to_bits(), self.b.to_bits(), self.a.to_bits())
    }
}

fn up(p: Pixel) -> Rgba32F {
    Rgba32F::new(f(p.r), f(p.g), f(p.b), f(p.a))
}

fn b(v: f32) -> u32 {
    v.to_bits()
}

fn f(v: u32) -> f32 {
    f32::from_bits(v)
}

/// Pixels as numbers.
trait Pixels {
    fn px(&self, p: IVec2) -> Rgba32F;
    fn put(&mut self, p: IVec2, c: Rgba32F);
}

impl Pixels for TiledBuffer {
    fn px(&self, p: IVec2) -> Rgba32F {
        up(self.get_pixel(p))
    }

    fn put(&mut self, p: IVec2, c: Rgba32F) {
        self.set_pixel(p, c.bits());
    }
}

#[test]
fn blend_mode_default_is_normal() {
    assert_eq!(BlendMode::default(), BlendMode::Normal);
}

#[test]
fn all_blend_modes_round_trip_through_name() {
    let modes = [
        BlendMode::Normal,
        BlendMode::Multiply,
        BlendMode::Screen,
        BlendMode::Overlay,
        BlendMode::Darken,
        BlendMode::Lighten,
        BlendMode::ColorDodge,
        BlendMode::ColorBurn,
        BlendMode::HardLight,
        BlendMode::SoftLight,
        BlendMode::Difference,
        BlendMode::Exclusion,
        BlendMode::Add,
    ];
    for mode in modes {
        assert_eq!(BlendMode::from_name(mode.name()), Some(mode));
    }
}

#[test]
fn blend_mode_from_name_case_insensitive() {
    assert_eq!(BlendMode::from_name("Normal"), Some(BlendMode::Normal));
    assert_eq!(
        BlendMode::from_name("HARD-LIGHT"),
        Some(BlendMode::HardLight)
    );
}

#[test]
fn blend_mode_from_name_unknown_returns_none() {
    assert_eq!(BlendMode::from_name("not-a-mode"), None);
}

#[test]
fn new_raster_layer_has_expected_defaults() {
    let layer = Layer::new_raster("Background");
    assert_eq!(layer.name, "Background");
    assert_eq!(layer.offset, IVec2::zero());
    assert_eq!(f(layer.opacity), 1.0);
    assert_eq!(layer.blend, BlendMode::Normal);
    assert!(layer.visible);
    assert!(!layer.locked);
    assert!(layer.is_raster());
    assert!(layer.buffer().unwrap().is_empty());
}

#[test]
fn raster_buffer_accessor_works() {
    let mut layer = Layer::new_raster("Paint");
    layer
        .buffer_mut()
        .unwrap()
        .put(IVec2::new(5, 5), Rgba32F::new(1.0, 0.0, 0.0, 1.0));
    assert_eq!(
        layer.buffer().unwrap().px(IVec2::new(5, 5)),
        Rgba32F::new(1.0, 0.0, 0.0, 1.0)
    );
}

#[test]
fn group_layer_returns_none_from_buffer() {
    let mut group = Layer::new_group("Group");
    assert!(!group.is_raster());
    assert!(group.buffer().is_none());
    assert!(group.buffer_mut().is_none());
}

#[test]
fn adjustment_layer_defaults_and_accessors() {
    let mut layer = Layer::new_adjustment("Invert", AdjustmentKind::Invert);
    assert_eq!(layer.name, "Invert");
    assert_eq!(f(layer.opacity), 1.0);
    assert!(layer.visible);
    assert!(!layer.is_raster());
    assert!(layer.buffer().is_none());
    assert!(layer.buffer_mut().is_none());
    assert!(layer.mask().is_none());
    assert!(matches!(
        layer.content,
        LayerContent::Adjustment(AdjustmentKind::Invert)
    ));
}

#[test]
fn vector_data_can_carry_svg_source() {
    let svg =
        br#"<svg xmlns="http://www.w3.org/2000/svg"><rect width="10" height="10"/></svg>"#
            .to_vec();
    let data = VectorData {
        paths: Vec::new(),
        rasterized: None,
        svg_source: Some(SvgSource {
            source_bytes: svg.clone(),
            element_id: "rect1".to_string(),
        }),
        version: 0,
    };
    assert!(data.svg_source.is_some());
    let src = data.svg_source.unwrap();
    assert_eq!(src.source_bytes, svg);
    assert_eq!(src.element_id, "rect1");
}


#[test]
fn curves_are_sorted_and_anchored() {
    let points = [(0.75, 0.5), (0.0, 0.1), (1.0, 0.9), (0.25, 0.2)];
    let kind = AdjustmentKind::curves(points.map(|(i, o)| (b(i), b(o))));
    match kind {
        AdjustmentKind::Curves { points } => {
            let inputs: Vec<f32> = points.iter().map(|p| f(p.input)).collect();
            assert_eq!(inputs, vec![0.0, 0.25, 0.75, 1.0]);
            let outputs: Vec<f32> = points.iter().map(|p| f(p.output)).collect();
            assert_eq!(outputs, vec![0.0, 0.2, 0.5, 1.0]);
        }
        _ => panic!("expected curves"),
    }
}

#[test]
fn masks_are_only_kept_by_raster_layers() {
    let mut layer = Layer::new_raster("Paint");
    let mut mask = TiledBuffer::new();
    mask.put(IVec2::new(1, 2), Rgba32F::new(1.0, 1.0, 1.0, 1.0));
    layer.set_mask(Some(mask));
    assert_eq!(layer.mask().unwrap().px(IVec2::new(1, 2)).r, 1.0);
    layer.set_mask(None);
    assert!(layer.mask().is_none());
    let mut group = Layer::new_group("Group");
    group.set_mask(Some(TiledBuffer::new()));
    assert!(group.mask().is_none());
}

#[test]
fn masks_are_changed_in_place() {
    let at = IVec2::new(1, 2);
    let white = Rgba32F::new(1.0, 1.0, 1.0, 1.0);
    let mut layer = Layer::new_raster("Paint");
    assert!(layer.mask_mut().is_none());
    layer.set_mask(Some(TiledBuffer::new()));
    layer.mask_mut().unwrap().put(at, white);
    assert_eq!(layer.mask().unwrap().px(at), white);
}

#[test]
fn only_vector_layers_are_vector() {
    assert!(Layer::new_vector("Path", VectorData::default()).is_vector());
    assert!(!Layer::new_raster("Paint").is_vector());
    assert!(!Layer::new_group("Group").is_vector());
}
