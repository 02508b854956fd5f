//! Equality: what compares equal is the same, but for the sign of zeros.
use vstd::prelude::*;

use crate::equality::{adjustment_same, layer_same, path_same, selection_same};
use crate::float_bits::{nan, same, F_SIGN};
use crate::layer::{AdjustmentKind, ContentView, CurvePoint, LayerView, PathView, VectorFill};
use crate::pixel::{px_same, Rgba32F};
use crate::selection::SelectionView;

verus! {

/// A number other than the zero with a sign.
pub open spec fn plain_number(v: u32) -> bool {
    v != F_SIGN
}

/// A pixel without signed zeros.
pub open spec fn plain_px(p: Rgba32F) -> bool {
    plain_number(p.r) && plain_number(p.g) && plain_number(p.b) && plain_number(p.a)
}

/// A curve point without signed zeros.
pub open spec fn plain_point(p: CurvePoint) -> bool {
    plain_number(p.input) && plain_number(p.output)
}

/// Numbers that compare equal have one pattern, but for the two zeros. Every number
/// equals itself.
pub proof fn equal_numbers_have_one_pattern(a: u32, b: u32)
    ensures
        same(a, b) && plain_number(a) && plain_number(b) ==> a == b,
        same(a, b) == same(b, a),
        !nan(a) ==> same(a, a),
{
}

/// Pixels that compare equal are equal in all four channels.
pub proof fn equal_pixels_are_one(p: Rgba32F, q: Rgba32F)
    ensures
        px_same(p, q) && plain_px(p) && plain_px(q) ==> p == q,
        px_same(p, q) == px_same(q, p),
        !nan(p.r) && !nan(p.g) && !nan(p.b) && !nan(p.a) ==> px_same(p, p),
{
}

/// Paths that compare equal are equal in everything.
pub proof fn equal_paths_are_one(a: PathView, b: PathView)
    requires
        path_same(a, b),
        plain_px(a.color) && plain_px(b.color) && plain_number(a.width) && plain_number(b.width),
        forall|i: int| 0 <= i < a.dash.len() ==> plain_number(#[trigger] a.dash[i]),
        forall|i: int| 0 <= i < b.dash.len() ==> plain_number(#[trigger] b.dash[i]),
        a.fill matches VectorFill::Solid(p) ==> plain_px(p),
        b.fill matches VectorFill::Solid(p) ==> plain_px(p),
    ensures
        a == b,
{
    assert(a.dash =~= b.dash) by {
        assert forall|i: int| 0 <= i < a.dash.len() implies a.dash[i] == b.dash[i] by {
            assert(same(a.dash[i], b.dash[i]));
            assert(plain_number(a.dash[i]) && plain_number(b.dash[i]));
        }
    }
    assert(a.fill == b.fill);
}

/// The parameters of an adjustment have no signed zeros.
pub open spec fn plain_adjustment(k: AdjustmentKind) -> bool {
    match k {
        AdjustmentKind::BrightnessContrast { brightness, contrast } => plain_number(brightness)
            && plain_number(contrast),
        AdjustmentKind::Levels { input_black, input_white, output_black, output_white, gamma } =>
        plain_number(input_black) && plain_number(input_white) && plain_number(output_black)
            && plain_number(output_white) && plain_number(gamma),
        AdjustmentKind::HueSat { hue, saturation, lightness } => plain_number(hue) && plain_number(
            saturation,
        ) && plain_number(lightness),
        AdjustmentKind::Curves { points } => plain_point(points[0]) && plain_point(points[1])
            && plain_point(points[2]) && plain_point(points[3]),
        AdjustmentKind::Threshold { level } => plain_number(level),
        AdjustmentKind::GradientMap { fg, bg } => plain_px(fg) && plain_px(bg),
        _ => true,
    }
}

/// Adjustments that compare equal are one kind with the same parameters.
pub proof fn equal_adjustments_are_one(a: AdjustmentKind, b: AdjustmentKind)
    requires
        adjustment_same(a, b),
        plain_adjustment(a) && plain_adjustment(b),
    ensures
        a == b,
{
    if let AdjustmentKind::Curves { points: p } = a {
        if let AdjustmentKind::Curves { points: q } = b {
            assert(p[0] == q[0] && p[1] == q[1] && p[2] == q[2] && p[3] == q[3]);
            assert(p@ =~= q@) by {
                assert forall|i: int| 0 <= i < 4 implies p@[i] == q@[i] by {
                    assert(i == 0 || i == 1 || i == 2 || i == 3);
                }
            }
            assert(p =~= q);
        }
    }
}

/// Layers that compare equal and hold the same are equal in everything; what they hold
/// is of one kind.
pub proof fn equal_layers_are_one(a: LayerView, b: LayerView)
    requires
        layer_same(a, b),
        plain_number(a.opacity) && plain_number(b.opacity),
    ensures
        a.content == b.content ==> a == b,
        a.content is Raster == b.content is Raster,
        a.content is Group == b.content is Group,
        a.content is Adjustment == b.content is Adjustment,
        a.content is Vector == b.content is Vector,
        a.content matches ContentView::Group(x) ==> b.content == ContentView::Group(x),
{
}

/// Selections that compare equal are of one kind, with the same extent.
pub proof fn equal_selections_have_one_extent(a: SelectionView, b: SelectionView)
    requires
        selection_same(a, b),
    ensures
        a.extent() == b.extent(),
        a is Nothing == b is Nothing,
        a is Rect ==> a == b,
{
}

} // verus!
