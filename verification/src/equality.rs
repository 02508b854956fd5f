//! Equality of layers, selections and what they hold.
//!
//! Numbers are compared as numbers: both zeros are equal, and what is no number
//! equals nothing.
use vstd::prelude::*;

use crate::buffer::{tiles_same, TiledBuffer};
use crate::coord::IVec2;
use crate::float_bits::{is_same, same};
use crate::layer::{
    buffer_view, AdjustmentKind, ContentView, CurvePoint, Layer, LayerContent, LayerId, LayerView,
    PathView, SvgSource, VectorData, VectorFill, VectorPath, VectorView,
};
use crate::pixel::{px_same, Rgba32F};
use crate::selection::{Selection, SelectionKind, SelectionView};

verus! {

/// True if two lists hold the same positions.
pub(crate) fn same_positions(a: &Vec<IVec2>, b: &Vec<IVec2>) -> (r: bool)
    ensures
        r == (a@ == b@),
{
    if a.len() != b.len() {
        return false;
    }
    let mut i: usize = 0;
    while i < a.len()
        invariant
            a@.len() == b@.len(),
            i <= a@.len(),
            forall|k: int| 0 <= k < i ==> a@[k] == b@[k],
        decreases a@.len() - i,
    {
        if a[i] != b[i] {
            return false;
        }
        i = i + 1;
    }
    assert(a@ =~= b@);
    true
}

/// True if two lists hold the same identifiers.
pub(crate) fn same_ids(a: &Vec<LayerId>, b: &Vec<LayerId>) -> (r: bool)
    ensures
        r == (a@ == b@),
{
    if a.len() != b.len() {
        return false;
    }
    let mut i: usize = 0;
    while i < a.len()
        invariant
            a@.len() == b@.len(),
            i <= a@.len(),
            forall|k: int| 0 <= k < i ==> a@[k] == b@[k],
        decreases a@.len() - i,
    {
        if a[i] != b[i] {
            return false;
        }
        i = i + 1;
    }
    assert(a@ =~= b@);
    true
}

/// True if two lists hold the same bytes.
pub(crate) fn same_bytes(a: &Vec<u8>, b: &Vec<u8>) -> (r: bool)
    ensures
        r == (a@ == b@),
{
    if a.len() != b.len() {
        return false;
    }
    let mut i: usize = 0;
    while i < a.len()
        invariant
            a@.len() == b@.len(),
            i <= a@.len(),
            forall|k: int| 0 <= k < i ==> a@[k] == b@[k],
        decreases a@.len() - i,
    {
        if a[i] != b[i] {
            return false;
        }
        i = i + 1;
    }
    assert(a@ =~= b@);
    true
}

/// Two lists hold equal numbers.
pub open spec fn numbers_same(s: Seq<u32>, t: Seq<u32>) -> bool {
    s.len() == t.len() && forall|i: int| 0 <= i < s.len() ==> same(#[trigger] s[i], t[i])
}

fn same_numbers(a: &Vec<u32>, b: &Vec<u32>) -> (r: bool)
    ensures
        r == numbers_same(a@, b@),
{
    if a.len() != b.len() {
        return false;
    }
    let mut i: usize = 0;
    while i < a.len()
        invariant
            a@.len() == b@.len(),
            i <= a@.len(),
            forall|k: int| 0 <= k < i ==> same(#[trigger] a@[k], b@[k]),
        decreases a@.len() - i,
    {
        if !is_same(a[i], b[i]) {
            assert(!same(a@[i as int], b@[i as int]));
            return false;
        }
        i = i + 1;
    }
    true
}

/// Two fills are equal.
pub open spec fn fill_same(a: VectorFill, b: VectorFill) -> bool {
    match (a, b) {
        (VectorFill::NoFill, VectorFill::NoFill) => true,
        (VectorFill::Solid(p), VectorFill::Solid(q)) => px_same(p, q),
        _ => false,
    }
}

fn same_fill(a: VectorFill, b: VectorFill) -> (r: bool)
    ensures
        r == fill_same(a, b),
{
    match (a, b) {
        (VectorFill::NoFill, VectorFill::NoFill) => true,
        (VectorFill::Solid(p), VectorFill::Solid(q)) => p == q,
        _ => false,
    }
}

/// Two paths are equal.
pub open spec fn path_same(a: PathView, b: PathView) -> bool {
    &&& a.vertices == b.vertices
    &&& fill_same(a.fill, b.fill)
    &&& px_same(a.color, b.color)
    &&& same(a.width, b.width)
    &&& numbers_same(a.dash, b.dash)
    &&& a.cap == b.cap
    &&& a.join == b.join
    &&& a.closed == b.closed
}

fn same_path(a: &VectorPath, b: &VectorPath) -> (r: bool)
    ensures
        r == path_same(a@, b@),
{
    same_positions(&a.vertices, &b.vertices) && same_fill(a.fill, b.fill) && a.stroke.color
        == b.stroke.color && is_same(a.stroke.width, b.stroke.width) && same_numbers(
        &a.stroke.dash,
        &b.stroke.dash,
    ) && a.stroke.cap == b.stroke.cap && a.stroke.join == b.stroke.join && a.closed == b.closed
}

/// Two buffers that may be missing are equal.
pub open spec fn maybe_tiles_same(
    a: Option<Map<(i32, i32), Seq<Rgba32F>>>,
    b: Option<Map<(i32, i32), Seq<Rgba32F>>>,
) -> bool {
    match (a, b) {
        (Some(x), Some(y)) => tiles_same(x, y),
        (None, None) => true,
        _ => false,
    }
}

fn same_buffers(a: &Option<TiledBuffer>, b: &Option<TiledBuffer>) -> (r: bool)
    ensures
        r == maybe_tiles_same(buffer_view(*a), buffer_view(*b)),
{
    match (a, b) {
        (Some(x), Some(y)) => x.eq(y),
        (None, None) => true,
        _ => false,
    }
}

/// Two vector contents are equal.
pub open spec fn vector_same(a: VectorView, b: VectorView) -> bool {
    &&& a.paths.len() == b.paths.len()
    &&& forall|i: int| 0 <= i < a.paths.len() ==> path_same(#[trigger] a.paths[i], b.paths[i])
    &&& maybe_tiles_same(a.rasterized, b.rasterized)
    &&& a.svg_source == b.svg_source
    &&& a.version == b.version
}

fn same_source(a: &Option<SvgSource>, b: &Option<SvgSource>) -> (r: bool)
    ensures
        r == match (*a, *b) {
            (Some(x), Some(y)) => x.source_bytes@ == y.source_bytes@ && x.element_id@
                == y.element_id@,
            (None, None) => true,
            _ => false,
        },
{
    match (a, b) {
        (Some(x), Some(y)) => same_bytes(&x.source_bytes, &y.source_bytes) && x.element_id
            == y.element_id,
        (None, None) => true,
        _ => false,
    }
}

impl VectorData {
    /// True if two vector contents are equal.
    pub fn eq(&self, other: &Self) -> (r: bool)
        ensures
            r == vector_same(self@, other@),
    {
        if self.paths.len() != other.paths.len() {
            return false;
        }
        let mut i: usize = 0;
        while i < self.paths.len()
            invariant
                self.paths@.len() == other.paths@.len(),
                i <= self.paths@.len(),
                forall|k: int|
                    0 <= k < i ==> path_same(#[trigger] self@.paths[k], other@.paths[k]),
            decreases self.paths@.len() - i,
        {
            if !same_path(&self.paths[i], &other.paths[i]) {
                assert(!path_same(self@.paths[i as int], other@.paths[i as int]));
                return false;
            }
            i = i + 1;
        }
        same_buffers(&self.rasterized, &other.rasterized) && same_source(
            &self.svg_source,
            &other.svg_source,
        ) && self.version == other.version
    }
}

/// Two points of a curve are equal.
pub open spec fn point_same(a: CurvePoint, b: CurvePoint) -> bool {
    same(a.input, b.input) && same(a.output, b.output)
}

fn same_point(a: CurvePoint, b: CurvePoint) -> (r: bool)
    ensures
        r == point_same(a, b),
{
    is_same(a.input, b.input) && is_same(a.output, b.output)
}

/// Two adjustments are equal.
pub open spec fn adjustment_same(a: AdjustmentKind, b: AdjustmentKind) -> bool {
    match (a, b) {
        (AdjustmentKind::Invert, AdjustmentKind::Invert) => true,
        (AdjustmentKind::Desaturate, AdjustmentKind::Desaturate) => true,
        (
            AdjustmentKind::BrightnessContrast { brightness, contrast },
            AdjustmentKind::BrightnessContrast {
                brightness: brightness2,
                contrast: contrast2,
            },
        ) => same(brightness, brightness2)
            && same(contrast, contrast2),
        (
            AdjustmentKind::Levels { input_black, input_white, output_black, output_white, gamma },
            AdjustmentKind::Levels {
                input_black: input_black2,
                input_white: input_white2,
                output_black: output_black2,
                output_white: output_white2,
                gamma: gamma2,
            },
        ) => same(input_black, input_black2)
            && same(input_white, input_white2)
            && same(output_black, output_black2)
            && same(output_white, output_white2)
            && same(gamma, gamma2),
        (
            AdjustmentKind::HueSat { hue, saturation, lightness },
            AdjustmentKind::HueSat {
                hue: hue2,
                saturation: saturation2,
                lightness: lightness2,
            },
        ) => same(hue, hue2)
            && same(saturation, saturation2)
            && same(lightness, lightness2),
        (
            AdjustmentKind::Threshold { level },
            AdjustmentKind::Threshold {
                level: level2,
            },
        ) => same(level, level2),
        (AdjustmentKind::Curves { points: p }, AdjustmentKind::Curves { points: q }) => {
            point_same(p[0], q[0]) && point_same(p[1], q[1]) && point_same(p[2], q[2]) && point_same(
                p[3],
                q[3],
            )
        },
        (AdjustmentKind::Posterize { levels: m }, AdjustmentKind::Posterize { levels: n }) => m == n,
        (
            AdjustmentKind::GradientMap { fg, bg },
            AdjustmentKind::GradientMap { fg: fg2, bg: bg2 },
        ) => px_same(fg, fg2) && px_same(bg, bg2),
        _ => false,
    }
}

fn same_adjustment(a: AdjustmentKind, b: AdjustmentKind) -> (r: bool)
    ensures
        r == adjustment_same(a, b),
{
    match (a, b) {
        (AdjustmentKind::Invert, AdjustmentKind::Invert) => true,
        (AdjustmentKind::Desaturate, AdjustmentKind::Desaturate) => true,
        (
            AdjustmentKind::BrightnessContrast { brightness, contrast },
            AdjustmentKind::BrightnessContrast {
                brightness: brightness2,
                contrast: contrast2,
            },
        ) => is_same(brightness, brightness2)
            && is_same(contrast, contrast2),
        (
            AdjustmentKind::Levels { input_black, input_white, output_black, output_white, gamma },
            AdjustmentKind::Levels {
                input_black: input_black2,
                input_white: input_white2,
                output_black: output_black2,
                output_white: output_white2,
                gamma: gamma2,
            },
        ) => is_same(input_black, input_black2)
            && is_same(input_white, input_white2)
            && is_same(output_black, output_black2)
            && is_same(output_white, output_white2)
            && is_same(gamma, gamma2),
        (
            AdjustmentKind::HueSat { hue, saturation, lightness },
            AdjustmentKind::HueSat {
                hue: hue2,
                saturation: saturation2,
                lightness: lightness2,
            },
        ) => is_same(hue, hue2)
            && is_same(saturation, saturation2)
            && is_same(lightness, lightness2),
        (
            AdjustmentKind::Threshold { level },
            AdjustmentKind::Threshold {
                level: level2,
            },
        ) => is_same(level, level2),
        (AdjustmentKind::Curves { points: p }, AdjustmentKind::Curves { points: q }) => {
            same_point(p[0], q[0]) && same_point(p[1], q[1]) && same_point(p[2], q[2]) && same_point(
                p[3],
                q[3],
            )
        },
        (AdjustmentKind::Posterize { levels: m }, AdjustmentKind::Posterize { levels: n }) => m == n,
        (
            AdjustmentKind::GradientMap { fg, bg },
            AdjustmentKind::GradientMap { fg: fg2, bg: bg2 },
        ) => fg == fg2 && bg == bg2,
        _ => false,
    }
}

/// Two layer contents are equal.
pub open spec fn content_same(a: ContentView, b: ContentView) -> bool {
    match (a, b) {
        (
            ContentView::Raster { buffer: x, mask: m },
            ContentView::Raster { buffer: y, mask: n },
        ) => tiles_same(x, y) && maybe_tiles_same(m, n),
        (ContentView::Group(x), ContentView::Group(y)) => x == y,
        (ContentView::Adjustment(x), ContentView::Adjustment(y)) => adjustment_same(x, y),
        (ContentView::Vector(x), ContentView::Vector(y)) => vector_same(x, y),
        _ => false,
    }
}

impl LayerContent {
    /// True if two layer contents are equal.
    pub fn eq(&self, other: &Self) -> (r: bool)
        ensures
            r == content_same(self@, other@),
    {
        match (self, other) {
            (
                LayerContent::Raster { buffer: x, mask: m },
                LayerContent::Raster { buffer: y, mask: n },
            ) => x.eq(y) && same_buffers(m, n),
            (LayerContent::Group { children: x }, LayerContent::Group { children: y }) => same_ids(
                x,
                y,
            ),
            (LayerContent::Adjustment(x), LayerContent::Adjustment(y)) => same_adjustment(*x, *y),
            (LayerContent::Vector(x), LayerContent::Vector(y)) => (&**x).eq(&**y),
            _ => false,
        }
    }
}

/// Two layers are equal.
pub open spec fn layer_same(a: LayerView, b: LayerView) -> bool {
    &&& a.id == b.id
    &&& a.name == b.name
    &&& a.offset == b.offset
    &&& same(a.opacity, b.opacity)
    &&& a.blend == b.blend
    &&& a.visible == b.visible
    &&& a.locked == b.locked
    &&& content_same(a.content, b.content)
}

impl Layer {
    /// True if two layers are equal.
    pub fn eq(&self, other: &Self) -> (r: bool)
        ensures
            r == layer_same(self@, other@),
    {
        self.id == other.id && self.name == other.name && self.offset == other.offset && is_same(
            self.opacity,
            other.opacity,
        ) && self.blend == other.blend && self.visible == other.visible && self.locked
            == other.locked && self.content.eq(&other.content)
    }
}

/// Two selections are equal.
pub open spec fn selection_same(a: SelectionView, b: SelectionView) -> bool {
    match (a, b) {
        (SelectionView::Nothing, SelectionView::Nothing) => true,
        (SelectionView::Rect(x), SelectionView::Rect(y)) => x == y,
        (SelectionView::Mask(m, x), SelectionView::Mask(n, y)) => tiles_same(m, n) && x == y,
        _ => false,
    }
}

impl Selection {
    /// True if two selections are equal.
    pub fn eq(&self, other: &Self) -> (r: bool)
        ensures
            r == selection_same(self@, other@),
    {
        match (&self.kind, &other.kind) {
            (SelectionKind::Nothing, SelectionKind::Nothing) => true,
            (SelectionKind::Rect(x), SelectionKind::Rect(y)) => *x == *y,
            (
                SelectionKind::Mask { coverage: m, bounds: x },
                SelectionKind::Mask { coverage: n, bounds: y },
            ) => m.eq(n) && *x == *y,
            _ => false,
        }
    }
}

} // verus!
