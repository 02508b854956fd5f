//! Transforming a raster layer.
use vstd::prelude::*;

use crate::arith::{self, difference, floor, product, sum, times, whole_below, Arith};
use crate::buffer::TiledBuffer;
use crate::buffer_region::ink_box;
use crate::commands::props::just;
use crate::commands::raster::{copy_raster, held_wf, raster_apart};
use crate::commands::tiles::{buffer_of, check_editable, edit_error, with_buffer};
use crate::coord::{fits_i32, IVec2, Rect, Vec2};
use crate::document::{lemma_same_layer, DocView, Document};
use crate::error::OgreError;
use crate::float_bits::{
    abs, absolute, at_most, finite, from_i32, is_at_most, is_finite, is_less, is_nan, less, nan,
    negate, negated, number_of_i32, F_ONE, F_TINY, F_ZERO,
};
use crate::history::Command;
use crate::layer::{LayerId, LayerView};
use crate::picture::{
    changed_alike, one_layer_keeps_tidy, one_layer_put_back, same_picture, seen_alike, visible,
};
use crate::pixel::Rgba32F;

verus! {

/// An affine map of the plane.
#[derive(Clone, Copy, Debug)]
pub struct Affine2 {
    /// Where the first axis goes.
    pub x_axis: Vec2,
    /// Where the second axis goes.
    pub y_axis: Vec2,
    /// Where the origin goes.
    pub translation: Vec2,
}

/// A grid of control points for a bezier warp.
#[derive(Debug)]
pub struct WarpGrid {
    /// Control points in a row.
    pub cols: usize,
    /// Control points in a column.
    pub rows: usize,
    /// The displaced control points, row by row.
    pub points: Vec<IVec2>,
}

/// What a [`WarpGrid`] holds.
pub struct WarpView {
    /// Control points in a row.
    pub cols: usize,
    /// Control points in a column.
    pub rows: usize,
    /// The displaced control points, row by row.
    pub points: Seq<IVec2>,
}

impl View for WarpGrid {
    type V = WarpView;

    open spec fn view(&self) -> WarpView {
        WarpView { cols: self.cols, rows: self.rows, points: self.points@ }
    }
}

impl Clone for WarpGrid {
    fn clone(&self) -> (r: Self)
        ensures
            r@ == self@,
    {
        let points: Vec<IVec2> = self.points.clone();
        assert(points@ =~= self.points@);
        WarpGrid { cols: self.cols, rows: self.rows, points }
    }
}

/// The pattern of the least `i32`.
pub const I32_LOW: u32 = 0xcf00_0000;

/// The pattern of one more than the largest `i32`.
pub const I32_END: u32 = 0x4f00_0000;

/// How an affine map scales areas.
pub open spec fn determinant_of<M: Arith>(m: &M, affine: Affine2) -> u32 {
    difference(
        m,
        product(m, affine.x_axis.x, affine.y_axis.y),
        product(m, affine.x_axis.y, affine.y_axis.x),
    )
}

/// How an affine map scales areas.
fn determinant<M: Arith>(m: &M, affine: Affine2) -> (out: u32)
    requires
        m.wf(),
    ensures
        out == determinant_of(m, affine),
{
    arith::minus(
        m,
        times(m, affine.x_axis.x, affine.y_axis.y),
        times(m, affine.x_axis.y, affine.y_axis.x),
    )
}

/// The first coordinate of what an affine map makes of a point.
pub open spec fn image_x<M: Arith>(m: &M, affine: Affine2, x: u32, y: u32) -> u32 {
    sum(
        m,
        sum(m, product(m, affine.x_axis.x, x), product(m, affine.y_axis.x, y)),
        affine.translation.x,
    )
}

/// The first coordinate of what an affine map makes of a point.
fn map_x<M: Arith>(m: &M, affine: Affine2, x: u32, y: u32) -> (out: u32)
    requires
        m.wf(),
    ensures
        out == image_x(m, affine, x, y),
{
    arith::plus(
        m,
        arith::plus(m, times(m, affine.x_axis.x, x), times(m, affine.y_axis.x, y)),
        affine.translation.x,
    )
}

/// The second coordinate of what an affine map makes of a point.
pub open spec fn image_y<M: Arith>(m: &M, affine: Affine2, x: u32, y: u32) -> u32 {
    sum(
        m,
        sum(m, product(m, affine.x_axis.y, x), product(m, affine.y_axis.y, y)),
        affine.translation.y,
    )
}

/// The second coordinate of what an affine map makes of a point.
fn map_y<M: Arith>(m: &M, affine: Affine2, x: u32, y: u32) -> (out: u32)
    requires
        m.wf(),
    ensures
        out == image_y(m, affine, x, y),
{
    arith::plus(
        m,
        arith::plus(m, times(m, affine.x_axis.y, x), times(m, affine.y_axis.y, y)),
        affine.translation.y,
    )
}

/// The least of four numbers; what is no number counts only in the last place.
pub open spec fn least_number<M: Arith>(m: &M, a: u32, b: u32, c: u32, d: u32) -> u32 {
    let ab: u32 = if less(a, b) { a } else { b };
    let abc: u32 = if less(ab, c) { ab } else { c };
    if less(abc, d) { abc } else { d }
}

/// The least of four numbers; what is no number counts only in the last place.
fn least_of_four<M: Arith>(m: &M, a: u32, b: u32, c: u32, d: u32) -> (out: u32)
    requires
        m.wf(),
    ensures
        out == least_number(m, a, b, c, d),
{
    let ab: u32 = if is_less(a, b) { a } else { b };
    let abc: u32 = if is_less(ab, c) { ab } else { c };
    if is_less(abc, d) { abc } else { d }
}

/// A map has a part that is no finite number, or it crushes the plane.
pub open spec fn crushes<M: Arith>(m: &M, affine: Affine2) -> bool {
    !(finite(affine.x_axis.x) && finite(affine.x_axis.y) && finite(affine.y_axis.x) && finite(
        affine.y_axis.y,
    ) && finite(affine.translation.x) && finite(affine.translation.y)) || at_most(
        absolute(determinant_of(m, affine)),
        F_TINY,
    )
}

fn does_crush<M: Arith>(m: &M, affine: Affine2) -> (r: bool)
    requires
        m.wf(),
    ensures
        r == crushes(m, affine),
{
    !(is_finite(affine.x_axis.x) && is_finite(affine.x_axis.y) && is_finite(affine.y_axis.x)
        && is_finite(affine.y_axis.y) && is_finite(affine.translation.x) && is_finite(
        affine.translation.y,
    )) || is_at_most(abs(determinant(m, affine)), F_TINY)
}

/// A number rounded down, if it has an `i32` for that; zero for what is no number.
pub open spec fn floor_i32<M: Arith>(m: &M, v: u32) -> Option<i32> {
    if nan(v) || (at_most(I32_LOW, v) && less(v, I32_END)) {
        Some(whole_below(m, v))
    } else {
        None
    }
}

fn floor_in_range<M: Arith>(m: &M, v: u32) -> (r: Option<i32>)
    requires
        m.wf(),
    ensures
        r == floor_i32(m, v),
{
    if is_nan(v) || (is_at_most(I32_LOW, v) && is_less(v, I32_END)) {
        Some(floor(m, v))
    } else {
        None
    }
}

/// The upper left corner of what a map makes of the pixels from `min` to `max`,
/// rounded down, if it has `i32` coordinates.
#[verifier::opaque]
pub open spec fn mapped_origin<M: Arith>(
    m: &M,
    affine: Affine2,
    min: IVec2,
    max: IVec2,
) -> Option<IVec2> {
    let (x0, y0) = (number_of_i32(min.x), number_of_i32(min.y));
    let (x1, y1) = (sum(m, number_of_i32(max.x), F_ONE), sum(m, number_of_i32(max.y), F_ONE));
    let x = least_number(
        m,
        image_x(m, affine, x0, y0),
        image_x(m, affine, x1, y0),
        image_x(m, affine, x0, y1),
        image_x(m, affine, x1, y1),
    );
    let y = least_number(
        m,
        image_y(m, affine, x0, y0),
        image_y(m, affine, x1, y0),
        image_y(m, affine, x0, y1),
        image_y(m, affine, x1, y1),
    );
    match (floor_i32(m, x), floor_i32(m, y)) {
        (Some(x), Some(y)) => Some(IVec2 { x, y }),
        _ => None,
    }
}

fn map_origin<M: Arith>(m: &M, affine: Affine2, min: IVec2, max: IVec2) -> (r: Option<IVec2>)
    requires
        m.wf(),
    ensures
        r == mapped_origin(m, affine, min, max),
{
    proof {
        reveal(mapped_origin);
    }
    let x0: u32 = from_i32(min.x);
    let y0: u32 = from_i32(min.y);
    let x1: u32 = arith::plus(m, from_i32(max.x), F_ONE);
    let y1: u32 = arith::plus(m, from_i32(max.y), F_ONE);
    let x: u32 = least_of_four(
        m,
        map_x(m, affine, x0, y0),
        map_x(m, affine, x1, y0),
        map_x(m, affine, x0, y1),
        map_x(m, affine, x1, y1),
    );
    let y: u32 = least_of_four(
        m,
        map_y(m, affine, x0, y0),
        map_y(m, affine, x1, y0),
        map_y(m, affine, x0, y1),
        map_y(m, affine, x1, y1),
    );
    match (floor_in_range(m, x), floor_in_range(m, y)) {
        (Some(x), Some(y)) => Some(IVec2 { x, y }),
        _ => None,
    }
}

/// What the linear part of a map makes of a vector.
pub open spec fn turned<M: Arith>(m: &M, a: Affine2, v: Vec2) -> Vec2 {
    Vec2 {
        x: sum(m, product(m, a.x_axis.x, v.x), product(m, a.y_axis.x, v.y)),
        y: sum(m, product(m, a.x_axis.y, v.x), product(m, a.y_axis.y, v.y)),
    }
}

fn turn<M: Arith>(m: &M, a: Affine2, v: Vec2) -> (r: Vec2)
    requires
        m.wf(),
    ensures
        r == turned(m, a, v),
{
    Vec2 {
        x: arith::plus(m, times(m, a.x_axis.x, v.x), times(m, a.y_axis.x, v.y)),
        y: arith::plus(m, times(m, a.x_axis.y, v.x), times(m, a.y_axis.y, v.y)),
    }
}

/// The map that does `b` and after it `a`.
pub open spec fn composed<M: Arith>(m: &M, a: Affine2, b: Affine2) -> Affine2 {
    Affine2 {
        x_axis: turned(m, a, b.x_axis),
        y_axis: turned(m, a, b.y_axis),
        translation: Vec2 {
            x: image_x(m, a, b.translation.x, b.translation.y),
            y: image_y(m, a, b.translation.x, b.translation.y),
        },
    }
}

fn compose<M: Arith>(m: &M, a: Affine2, b: Affine2) -> (r: Affine2)
    requires
        m.wf(),
    ensures
        r == composed(m, a, b),
{
    Affine2 {
        x_axis: turn(m, a, b.x_axis),
        y_axis: turn(m, a, b.y_axis),
        translation: Vec2 {
            x: map_x(m, a, b.translation.x, b.translation.y),
            y: map_y(m, a, b.translation.x, b.translation.y),
        },
    }
}

/// The map that moves every point by a vector.
pub open spec fn shift_by(v: Vec2) -> Affine2 {
    Affine2 {
        x_axis: Vec2 { x: F_ONE, y: F_ZERO },
        y_axis: Vec2 { x: F_ZERO, y: F_ONE },
        translation: v,
    }
}

fn shift(v: Vec2) -> (r: Affine2)
    ensures
        r == shift_by(v),
{
    Affine2 {
        x_axis: Vec2 { x: F_ONE, y: F_ZERO },
        y_axis: Vec2 { x: F_ZERO, y: F_ONE },
        translation: v,
    }
}

/// A map of document space, from what a layer at `from` sees to what a layer at
/// `to` sees: to the document, through the map, and back from the document.
pub open spec fn seen_locally<M: Arith>(
    m: &M,
    affine: Affine2,
    from: IVec2,
    to: IVec2,
) -> Affine2 {
    let back = shift_by(
        Vec2 { x: negated(number_of_i32(to.x)), y: negated(number_of_i32(to.y)) },
    );
    let out = shift_by(Vec2 { x: number_of_i32(from.x), y: number_of_i32(from.y) });
    composed(m, composed(m, back, affine), out)
}

fn see_locally<M: Arith>(m: &M, affine: Affine2, from: IVec2, to: IVec2) -> (r: Affine2)
    requires
        m.wf(),
    ensures
        r == seen_locally(m, affine, from, to),
{
    let back: Affine2 = shift(
        Vec2 { x: negate(from_i32(to.x)), y: negate(from_i32(to.y)) },
    );
    let out: Affine2 = shift(Vec2 { x: from_i32(from.x), y: from_i32(from.y) });
    compose(m, compose(m, back, affine), out)
}

/// The arithmetic and the sampling of transforms.
pub trait TransformKernel {
    /// The functions are defined everywhere and have one result.
    spec fn wf(&self) -> bool;

    /// What [`TransformKernel::degenerate`] returns.
    spec fn is_degenerate(&self, affine: Affine2) -> bool;

    /// What [`TransformKernel::origin`] returns.
    spec fn origin_of(&self, affine: Affine2, min: IVec2, max: IVec2) -> Option<IVec2>;

    /// What [`TransformKernel::local`] returns.
    spec fn local_of(&self, affine: Affine2, from: IVec2, to: IVec2) -> Affine2;

    /// What [`TransformKernel::resample`] returns.
    spec fn resampled(
        &self,
        m: Map<(i32, i32), Seq<Rgba32F>>,
        local: Affine2,
    ) -> Map<(i32, i32), Seq<Rgba32F>>;

    /// What [`TransformKernel::project`] returns.
    spec fn projected(
        &self,
        m: Map<(i32, i32), Seq<Rgba32F>>,
        source: Rect,
        quad: [IVec2; 4],
    ) -> Map<(i32, i32), Seq<Rgba32F>>;

    /// What [`TransformKernel::warp`] returns.
    spec fn warped(
        &self,
        m: Map<(i32, i32), Seq<Rgba32F>>,
        grid: WarpView,
    ) -> Map<(i32, i32), Seq<Rgba32F>>;

    /// Whether a map is not finite or crushes the plane.
    fn degenerate(&self, affine: Affine2) -> (r: bool)
        requires
            self.wf(),
        ensures
            r == self.is_degenerate(affine),
    ;

    /// The upper left corner of what a map makes of the pixels from `min` to `max`,
    /// rounded down, if it has `i32` coordinates.
    fn origin(&self, affine: Affine2, min: IVec2, max: IVec2) -> (r: Option<IVec2>)
        requires
            self.wf(),
        ensures
            r == self.origin_of(affine, min, max),
    ;

    /// A map of document space, from what a layer at `from` sees to what a layer at
    /// `to` sees.
    fn local(&self, affine: Affine2, from: IVec2, to: IVec2) -> (r: Affine2)
        requires
            self.wf(),
        ensures
            r == self.local_of(affine, from, to),
    ;

    /// Resample a buffer through a map from its own space to that of the result.
    fn resample(&self, b: &TiledBuffer, local: Affine2) -> (r: TiledBuffer)
        requires
            self.wf(),
            b.wf(),
        ensures
            r.wf(),
            r@ == self.resampled(b@, local),
    ;

    /// Resample a buffer so that the corners of its rectangle `source` go to those
    /// of `quad`.
    fn project(&self, b: &TiledBuffer, source: Rect, quad: [IVec2; 4]) -> (r: TiledBuffer)
        requires
            self.wf(),
            b.wf(),
        ensures
            r.wf(),
            r@ == self.projected(b@, source, quad),
    ;

    /// Resample a buffer through a warp grid.
    fn warp(&self, b: &TiledBuffer, grid: &WarpGrid) -> (r: TiledBuffer)
        requires
            self.wf(),
            b.wf(),
        ensures
            r.wf(),
            r@ == self.warped(b@, grid@),
    ;
}

/// A transform kernel made of arithmetic and functions.
pub struct TransformMath<M, R, P, W> {
    /// The arithmetic.
    pub math: M,
    /// Resamples through an affine map.
    pub resample: R,
    /// Resamples into a quadrilateral.
    pub project: P,
    /// Resamples through a warp grid.
    pub warp: W,
}

/// The function may make `out` of a buffer through an affine map.
pub open spec fn resamples<R: Fn(&TiledBuffer, Affine2) -> TiledBuffer>(
    f: R,
    m: Map<(i32, i32), Seq<Rgba32F>>,
    local: Affine2,
    out: Map<(i32, i32), Seq<Rgba32F>>,
) -> bool {
    exists|b: &TiledBuffer, r: TiledBuffer| #[trigger]
        f.ensures((b, local), r) && b.wf() && b@ == m && r@ == out
}

/// The function may make `out` of a buffer and a quadrilateral.
pub open spec fn projects<P: Fn(&TiledBuffer, Rect, [IVec2; 4]) -> TiledBuffer>(
    f: P,
    m: Map<(i32, i32), Seq<Rgba32F>>,
    source: Rect,
    quad: [IVec2; 4],
    out: Map<(i32, i32), Seq<Rgba32F>>,
) -> bool {
    exists|b: &TiledBuffer, r: TiledBuffer| #[trigger]
        f.ensures((b, source, quad), r) && b.wf() && b@ == m && r@ == out
}

/// The function may make `out` of a buffer and a grid.
pub open spec fn warps<W: Fn(&TiledBuffer, &WarpGrid) -> TiledBuffer>(
    f: W,
    m: Map<(i32, i32), Seq<Rgba32F>>,
    grid: WarpView,
    out: Map<(i32, i32), Seq<Rgba32F>>,
) -> bool {
    exists|b: &TiledBuffer, g: &WarpGrid, r: TiledBuffer| #[trigger]
        f.ensures((b, g), r) && b.wf() && b@ == m && g@ == grid && r@ == out
}

impl<
    M: Arith,
    R: Fn(&TiledBuffer, Affine2) -> TiledBuffer,
    P: Fn(&TiledBuffer, Rect, [IVec2; 4]) -> TiledBuffer,
    W: Fn(&TiledBuffer, &WarpGrid) -> TiledBuffer,
> TransformKernel for TransformMath<M, R, P, W> {
    open spec fn wf(&self) -> bool {
        &&& self.math.wf()
        &&& forall|b: &TiledBuffer, a: Affine2|
            b.wf() ==> #[trigger] self.resample.requires((b, a))
        &&& forall|b: &TiledBuffer, a: Affine2, r: TiledBuffer|
            b.wf() && #[trigger] self.resample.ensures((b, a), r) ==> r.wf() && r@
                == self.resampled(b@, a)
        &&& forall|b: &TiledBuffer, s: Rect, q: [IVec2; 4]|
            b.wf() ==> #[trigger] self.project.requires((b, s, q))
        &&& forall|b: &TiledBuffer, s: Rect, q: [IVec2; 4], r: TiledBuffer|
            b.wf() && #[trigger] self.project.ensures((b, s, q), r) ==> r.wf() && r@
                == self.projected(b@, s, q)
        &&& forall|b: &TiledBuffer, g: &WarpGrid|
            b.wf() ==> #[trigger] self.warp.requires((b, g))
        &&& forall|b: &TiledBuffer, g: &WarpGrid, r: TiledBuffer|
            b.wf() && #[trigger] self.warp.ensures((b, g), r) ==> r.wf() && r@ == self.warped(
                b@,
                g@,
            )
    }

    open spec fn is_degenerate(&self, affine: Affine2) -> bool {
        crushes(&self.math, affine)
    }

    open spec fn origin_of(&self, affine: Affine2, min: IVec2, max: IVec2) -> Option<IVec2> {
        mapped_origin(&self.math, affine, min, max)
    }

    open spec fn local_of(&self, affine: Affine2, from: IVec2, to: IVec2) -> Affine2 {
        seen_locally(&self.math, affine, from, to)
    }

    open spec fn resampled(
        &self,
        m: Map<(i32, i32), Seq<Rgba32F>>,
        local: Affine2,
    ) -> Map<(i32, i32), Seq<Rgba32F>> {
        choose|out: Map<(i32, i32), Seq<Rgba32F>>| resamples(self.resample, m, local, out)
    }

    open spec fn projected(
        &self,
        m: Map<(i32, i32), Seq<Rgba32F>>,
        source: Rect,
        quad: [IVec2; 4],
    ) -> Map<(i32, i32), Seq<Rgba32F>> {
        choose|out: Map<(i32, i32), Seq<Rgba32F>>| projects(self.project, m, source, quad, out)
    }

    open spec fn warped(
        &self,
        m: Map<(i32, i32), Seq<Rgba32F>>,
        grid: WarpView,
    ) -> Map<(i32, i32), Seq<Rgba32F>> {
        choose|out: Map<(i32, i32), Seq<Rgba32F>>| warps(self.warp, m, grid, out)
    }

    fn degenerate(&self, affine: Affine2) -> (r: bool) {
        does_crush(&self.math, affine)
    }

    fn origin(&self, affine: Affine2, min: IVec2, max: IVec2) -> (r: Option<IVec2>) {
        map_origin(&self.math, affine, min, max)
    }

    fn local(&self, affine: Affine2, from: IVec2, to: IVec2) -> (r: Affine2) {
        see_locally(&self.math, affine, from, to)
    }

    fn resample(&self, b: &TiledBuffer, local: Affine2) -> (r: TiledBuffer) {
        (self.resample)(b, local)
    }

    fn project(&self, b: &TiledBuffer, source: Rect, quad: [IVec2; 4]) -> (r: TiledBuffer) {
        (self.project)(b, source, quad)
    }

    fn warp(&self, b: &TiledBuffer, grid: &WarpGrid) -> (r: TiledBuffer) {
        (self.warp)(b, grid)
    }
}

/// Kind of transform applied by [`TransformLayerCmd`].
#[derive(Debug)]
pub enum TransformKind {
    /// Affine transform: source document space to destination document space.
    Affine(Affine2),
    /// Projective (perspective, distort) transform defined by the four destination
    /// corners in document space.
    Perspective([IVec2; 4]),
    /// Bezier-grid warp defined by displaced control points in document space.
    Warp(WarpGrid),
}

impl Clone for TransformKind {
    fn clone(&self) -> (r: Self)
        ensures
            match *self {
                TransformKind::Affine(a) => r == TransformKind::Affine(a),
                TransformKind::Perspective(q) => r == TransformKind::Perspective(q),
                TransformKind::Warp(g) => r matches TransformKind::Warp(h) && h@ == g@,
            },
    {
        match self {
            TransformKind::Affine(a) => TransformKind::Affine(*a),
            TransformKind::Perspective(q) => TransformKind::Perspective(*q),
            TransformKind::Warp(g) => TransformKind::Warp(g.clone()),
        }
    }
}

/// The failure of a transform that puts a layer out of reach.
pub open spec fn out_of_range() -> OgreError {
    OgreError::InvalidOperation("transform offset out of range")
}

/// The sum of two positions, if it has `i32` coordinates.
pub open spec fn plus(p: IVec2, q: IVec2) -> Option<IVec2> {
    if fits_i32(p.x + q.x) && fits_i32(p.y + q.y) {
        Some(IVec2 { x: (p.x + q.x) as i32, y: (p.y + q.y) as i32 })
    } else {
        None
    }
}

/// The difference of two positions has `i32` coordinates.
pub open spec fn near_enough(p: IVec2, q: IVec2) -> bool {
    fits_i32(p.x - q.x) && fits_i32(p.y - q.y)
}

/// The difference of two positions.
pub open spec fn minus(p: IVec2, q: IVec2) -> IVec2 {
    IVec2 { x: (p.x - q.x) as i32, y: (p.y - q.y) as i32 }
}

/// The smallest coordinates of some positions, zero if there are none.
pub open spec fn least(points: Seq<IVec2>) -> IVec2
    decreases points.len(),
{
    if points.len() == 0 {
        IVec2 { x: 0, y: 0 }
    } else if points.len() == 1 {
        points[0]
    } else {
        let l = least(points.drop_last());
        let p = points.last();
        IVec2 { x: if p.x < l.x { p.x } else { l.x }, y: if p.y < l.y { p.y } else { l.y } }
    }
}

fn add_positions(p: IVec2, q: IVec2) -> (r: Option<IVec2>)
    ensures
        r == plus(p, q),
{
    match (p.x.checked_add(q.x), p.y.checked_add(q.y)) {
        (Some(x), Some(y)) => Some(IVec2 { x, y }),
        _ => None,
    }
}

fn least_of(points: &Vec<IVec2>) -> (r: IVec2)
    ensures
        r == least(points@),
{
    if points.len() == 0 {
        return IVec2 { x: 0, y: 0 };
    }
    let mut l: IVec2 = points[0];
    let mut i: usize = 1;
    while i < points.len()
        invariant
            1 <= i <= points@.len(),
            l == least(points@.take(i as int)),
        decreases points@.len() - i,
    {
        proof {
            assert(points@.take(i + 1).drop_last() =~= points@.take(i as int));
        }
        let p: IVec2 = points[i];
        l = IVec2 { x: if p.x < l.x { p.x } else { l.x }, y: if p.y < l.y { p.y } else { l.y } };
        i = i + 1;
    }
    assert(points@.take(i as int) =~= points@);
    l
}

/// The positions seen from `o`, if all are near enough.
fn positions_from(points: &Vec<IVec2>, o: IVec2) -> (r: Option<Vec<IVec2>>)
    ensures
        match r {
            Some(v) => (forall|i: int|
                0 <= i < points@.len() ==> near_enough(#[trigger] points@[i], o)) && v@
                == points@.map_values(|p: IVec2| minus(p, o)),
            None => exists|i: int|
                0 <= i < points@.len() && !near_enough(#[trigger] points@[i], o),
        },
{
    let mut out: Vec<IVec2> = Vec::new();
    let mut i: usize = 0;
    while i < points.len()
        invariant
            i <= points@.len(),
            out@.len() == i,
            forall|j: int| 0 <= j < i ==> near_enough(#[trigger] points@[j], o),
            forall|j: int| 0 <= j < i ==> #[trigger] out@[j] == minus(points@[j], o),
        decreases points@.len() - i,
    {
        let p: IVec2 = points[i];
        match (p.x.checked_sub(o.x), p.y.checked_sub(o.y)) {
            (Some(x), Some(y)) => {
                out.push(IVec2 { x, y });
            },
            _ => {
                assert(!near_enough(points@[i as int], o));
                return None;
            },
        }
        i = i + 1;
    }
    Some(out)
}

/// Where a transform puts a layer and what the layer then holds: nothing happens
/// to the layer if there is nothing to transform.
pub open spec fn transformed<T: TransformKernel>(
    math: &T,
    kind: TransformKind,
    m: Map<(i32, i32), Seq<Rgba32F>>,
    offset: IVec2,
) -> Result<Option<(IVec2, Map<(i32, i32), Seq<Rgba32F>>)>, OgreError> {
    match kind {
        TransformKind::Affine(affine) => if math.is_degenerate(affine) {
            Err(OgreError::InvalidOperation("degenerate transform"))
        } else {
            match ink_box(m) {
                None => Ok(
                    Some((offset, math.resampled(m, math.local_of(affine, offset, offset)))),
                ),
                Some(b) => {
                    let lo = plus(IVec2 { x: b.x, y: b.y }, offset);
                    let hi = plus(
                        IVec2 {
                            x: (b.right_edge() - 1) as i32,
                            y: (b.bottom_edge() - 1) as i32,
                        },
                        offset,
                    );
                    if lo is None || hi is None {
                        Err(out_of_range())
                    } else {
                        match math.origin_of(affine, lo->0, hi->0) {
                            Some(to) => Ok(
                                Some((to, math.resampled(m, math.local_of(affine, offset, to)))),
                            ),
                            None => Err(out_of_range()),
                        }
                    }
                },
            }
        },
        TransformKind::Perspective(quad) => match ink_box(m) {
            None => Ok(None),
            Some(b) => {
                let to = least(quad@);
                match plus(IVec2 { x: b.x, y: b.y }, offset) {
                    Some(lo) => if near_enough(quad@[0], to) && near_enough(quad@[1], to)
                        && near_enough(quad@[2], to) && near_enough(quad@[3], to) {
                        Ok(
                            Some(
                                (
                                    to,
                                    math.projected(
                                        m,
                                        Rect { x: lo.x, y: lo.y, w: b.w, h: b.h },
                                        [
                                            minus(quad@[0], to),
                                            minus(quad@[1], to),
                                            minus(quad@[2], to),
                                            minus(quad@[3], to),
                                        ],
                                    ),
                                ),
                            ),
                        )
                    } else {
                        Err(out_of_range())
                    },
                    None => Err(out_of_range()),
                }
            },
        },
        TransformKind::Warp(grid) => match ink_box(m) {
            None => Ok(None),
            Some(_) => {
                let to = least(grid@.points);
                if forall|i: int|
                    0 <= i < grid@.points.len() ==> near_enough(#[trigger] grid@.points[i], to) {
                    Ok(
                        Some(
                            (
                                to,
                                math.warped(
                                    m,
                                    WarpView {
                                        points: grid@.points.map_values(
                                            |p: IVec2| minus(p, to),
                                        ),
                                        ..grid@
                                    },
                                ),
                            ),
                        ),
                    )
                } else {
                    Err(out_of_range())
                }
            },
        },
    }
}

/// Transform a buffer at `offset`.
fn transform<T: TransformKernel>(
    math: &T,
    kind: &TransformKind,
    b: &TiledBuffer,
    offset: IVec2,
) -> (r: Result<Option<(IVec2, TiledBuffer)>, OgreError>)
    requires
        math.wf(),
        b.wf(),
    ensures
        match r {
            Ok(Some(n)) => n.1.wf() && transformed(math, *kind, b@, offset) == Ok::<
                Option<(IVec2, Map<(i32, i32), Seq<Rgba32F>>)>,
                OgreError,
            >(Some((n.0, n.1@))),
            Ok(None) => transformed(math, *kind, b@, offset) == Ok::<
                Option<(IVec2, Map<(i32, i32), Seq<Rgba32F>>)>,
                OgreError,
            >(None),
            Err(e) => transformed(math, *kind, b@, offset) == Err::<
                Option<(IVec2, Map<(i32, i32), Seq<Rgba32F>>)>,
                OgreError,
            >(e),
        },
{
    let bounds: Option<Rect> = b.exact_bounds();
    match kind {
        TransformKind::Affine(affine) => {
            if math.degenerate(*affine) {
                return Err(OgreError::InvalidOperation("degenerate transform"));
            }
            let to: IVec2 = match bounds {
                None => offset,
                Some(f) => {
                    proof {
                        lemma_box_fits(b@, f);
                    }
                    let lo: Option<IVec2> = add_positions(IVec2 { x: f.x, y: f.y }, offset);
                    let last: IVec2 = IVec2 {
                        x: (f.right() - 1) as i32,
                        y: (f.bottom() - 1) as i32,
                    };
                    let hi: Option<IVec2> = add_positions(last, offset);
                    match (lo, hi) {
                        (Some(lo), Some(hi)) => match math.origin(*affine, lo, hi) {
                            Some(to) => to,
                            None => {
                                return Err(
                                    OgreError::InvalidOperation("transform offset out of range"),
                                );
                            },
                        },
                        _ => {
                            return Err(
                                OgreError::InvalidOperation("transform offset out of range"),
                            );
                        },
                    }
                },
            };
            Ok(Some((to, math.resample(b, math.local(*affine, offset, to)))))
        },
        TransformKind::Perspective(quad) => {
            let f: Rect = match bounds {
                None => {
                    return Ok(None);
                },
                Some(f) => f,
            };
            let mut corners: Vec<IVec2> = Vec::new();
            corners.push(quad[0]);
            corners.push(quad[1]);
            corners.push(quad[2]);
            corners.push(quad[3]);
            assert(corners@ =~= quad@);
            let to: IVec2 = least_of(&corners);
            let lo: IVec2 = match add_positions(IVec2 { x: f.x, y: f.y }, offset) {
                Some(lo) => lo,
                None => {
                    return Err(OgreError::InvalidOperation("transform offset out of range"));
                },
            };
            match positions_from(&corners, to) {
                Some(v) => {
                    let local: [IVec2; 4] = [v[0], v[1], v[2], v[3]];
                    proof {
                        assert(near_enough(corners@[0], to) && near_enough(corners@[1], to)
                            && near_enough(corners@[2], to) && near_enough(corners@[3], to));
                    }
                    Ok(Some((to, math.project(b, Rect::new(lo.x, lo.y, f.w, f.h), local))))
                },
                None => Err(OgreError::InvalidOperation("transform offset out of range")),
            }
        },
        TransformKind::Warp(grid) => {
            if bounds.is_none() {
                return Ok(None);
            }
            let to: IVec2 = least_of(&grid.points);
            match positions_from(&grid.points, to) {
                Some(points) => {
                    let local = WarpGrid { cols: grid.cols, rows: grid.rows, points };
                    Ok(Some((to, math.warp(b, &local))))
                },
                None => Err(OgreError::InvalidOperation("transform offset out of range")),
            }
        },
    }
}

proof fn lemma_box_fits(m: Map<(i32, i32), Seq<Rgba32F>>, f: Rect)
    requires
        crate::buffer_region::is_ink_box(m, f),
    ensures
        f.x < f.right_edge() <= 0x8000_0000,
        f.y < f.bottom_edge() <= 0x8000_0000,
{
    let (lo, hi) = choose|lo: IVec2, hi: IVec2| #[trigger]
        crate::buffer_region::tight(crate::buffer_region::inked(m), lo, hi) && f
            == Rect::from_corners_spec(lo, hi);
    let p = choose|p: IVec2| #[trigger]
        crate::buffer_region::inked(m).contains(p) && p.x == lo.x;
    assert(lo.x <= hi.x && lo.y <= hi.y);
}

/// Apply an arbitrary affine, projective or warp transform to a raster layer.
///
/// The command keeps the layer's previous buffer and offset so undo can restore
/// the original pixels exactly. It resamples the layer into a new local buffer
/// whose integer offset is the floor of the transformed document-space bounds,
/// preserving sub-pixel placement as an offset change.
pub struct TransformLayerCmd<T> {
    /// The arithmetic and the sampling.
    pub math: T,
    /// The layer.
    pub layer: LayerId,
    /// The transform.
    pub kind: TransformKind,
    /// The pixels that were, if the command changed them.
    pub old_buffer: Option<TiledBuffer>,
    /// The offset that was, if the command changed it.
    pub old_offset: Option<IVec2>,
    /// The active layer that was, once the command was applied.
    pub prior_active: Option<LayerId>,
}

impl<T: TransformKernel> TransformLayerCmd<T> {
    fn of_kind(math: T, layer: LayerId, kind: TransformKind) -> (r: Self)
        ensures
            r == (TransformLayerCmd {
                math,
                layer,
                kind,
                old_buffer: None,
                old_offset: None,
                prior_active: None,
            }),
    {
        TransformLayerCmd {
            math,
            layer,
            kind,
            old_buffer: None,
            old_offset: None,
            prior_active: None,
        }
    }

    /// Create an affine transform-layer command.
    ///
    /// `affine` maps source document coordinates to destination document
    /// coordinates, with pixel indices denoting the upper-left corners of unit
    /// squares.
    pub fn new(math: T, layer: LayerId, affine: Affine2) -> (r: Self)
        ensures
            r.math == math,
            r.layer == layer,
            r.kind == TransformKind::Affine(affine),
            r.old_buffer is None,
            r.old_offset is None,
            r.prior_active is None,
    {
        Self::of_kind(math, layer, TransformKind::Affine(affine))
    }

    /// Create a projective transform-layer command.
    ///
    /// `dst_quad` are the four destination corners in document space (TL, TR, BR,
    /// BL winding). The source is the layer's current occupied bounds.
    pub fn new_perspective(math: T, layer: LayerId, dst_quad: [IVec2; 4]) -> (r: Self)
        ensures
            r.math == math,
            r.layer == layer,
            r.kind == TransformKind::Perspective(dst_quad),
            r.old_buffer is None,
            r.old_offset is None,
            r.prior_active is None,
    {
        Self::of_kind(math, layer, TransformKind::Perspective(dst_quad))
    }

    /// Create a bezier-grid warp command.
    ///
    /// `grid` control points are in document space.
    pub fn new_warp(math: T, layer: LayerId, grid: WarpGrid) -> (r: Self)
        ensures
            r.math == math,
            r.layer == layer,
            r.kind == TransformKind::Warp(grid),
            r.old_buffer is None,
            r.old_offset is None,
            r.prior_active is None,
    {
        Self::of_kind(math, layer, TransformKind::Warp(grid))
    }
}

/// A layer placed elsewhere with other pixels.
pub open spec fn replaced(
    l: LayerView,
    offset: IVec2,
    m: Map<(i32, i32), Seq<Rgba32F>>,
) -> LayerView {
    LayerView { offset, ..with_buffer(l, m) }
}

/// Replace the pixels and the offset of a layer, if it is a raster layer.
fn replace(doc: &mut Document, id: LayerId, offset: IVec2, b: TiledBuffer)
    requires
        old(doc).wf(),
        b.wf(),
    ensures
        final(doc).wf(),
        final(doc).used() <= old(doc).used(),
        final(doc)@ == (if old(doc)@.is_raster(id) {
            old(doc)@.with_layer(id, replaced(old(doc)@.layers[id], offset, b@))
        } else {
            old(doc)@
        }),
{
    proof {
        lemma_same_layer(doc@, id);
    }
    if let Ok(layer) = doc.layer_mut(id) {
        if layer.is_raster() {
            layer.offset = offset;
            if let Some(buffer) = layer.buffer_mut() {
                *buffer = b;
            }
        }
    }
}

impl<T: TransformKernel + Send> Command for TransformLayerCmd<T> {
    open spec fn wf(&self) -> bool {
        self.math.wf() && held_wf(self.old_buffer)
    }

    open spec fn name(&self) -> Seq<char> {
        "Transform layer"@
    }

    open spec fn adds(&self) -> nat {
        0
    }

    open spec fn refs(&self) -> Set<LayerId> {
        Set::empty().insert(self.layer)
    }

    open spec fn reverts(&self, then: DocView, after: DocView) -> bool {
        &&& raster_apart(self.layer, self.prior_active, then, after)
        &&& match (self.old_buffer, self.old_offset) {
            (Some(b), Some(o)) => then.layers[self.layer] == replaced(
                after.layers[self.layer],
                o,
                b@,
            ),
            _ => then.layers[self.layer] == after.layers[self.layer],
        }
    }

    open spec fn learns(&self) -> bool {
        false
    }

    open spec fn undoes(&self, now: DocView, fin: DocView) -> bool {
        fin == (DocView {
            active: self.prior_active,
            ..(match (self.old_buffer, self.old_offset) {
                (Some(b), Some(o)) => if now.is_raster(self.layer) {
                    now.with_layer(
                        self.layer,
                        replaced(now.layers[self.layer], o, b@),
                    )
                } else {
                    now
                },
                _ => now,
            })
        })
    }

    open spec fn does(&self, then: DocView, r: Result<(), OgreError>, after: DocView) -> bool {
        &&& r is Err ==> after == then
        &&& match edit_error(then, self.layer) {
            Some(e) => r == Err::<(), OgreError>(e),
            None => {
                let id = self.layer;
                let l = then.layers[id];
                match transformed(&self.math, self.kind, buffer_of(l), l.offset) {
                    Err(e) => r == Err::<(), OgreError>(e),
                    Ok(None) => r is Ok && after == then,
                    Ok(Some(n)) => r is Ok && after == (DocView {
                        active: Some(id),
                        ..then.with_layer(id, replaced(l, n.0, n.1))
                    }),
                }
            },
        }
    }

    open spec fn steady(&self, then: DocView) -> bool {
        visible(then, self.layer)
    }

    fn label(&self) -> (r: &'static str) {
        "Transform layer"
    }

    fn apply(&mut self, doc: &mut Document) -> (r: Result<(), OgreError>) {
        proof {
            seen_alike(doc@, self.layer);
        }
        if let Err(e) = check_editable(doc, self.layer) {
            return Err(e);
        }
        let kept: (TiledBuffer, Option<TiledBuffer>) = copy_raster(doc, self.layer);
        let mut offset: IVec2 = IVec2 { x: 0, y: 0 };
        if let Ok(layer) = doc.layer(self.layer) {
            offset = layer.offset;
        }
        let prior: Option<LayerId> = doc.active_layer();
        match transform(&self.math, &self.kind, &kept.0, offset) {
            Err(e) => {
                return Err(e);
            },
            Ok(None) => {
                self.old_buffer = None;
                self.old_offset = None;
                proof {
                    lemma_same_layer(doc@, self.layer);
                }
            },
            Ok(Some(n)) => {
                replace(doc, self.layer, n.0, n.1);
                doc.set_active(Some(self.layer));
                self.old_buffer = Some(kept.0);
                self.old_offset = Some(offset);
            },
        }
        self.prior_active = prior;
        proof {
            one_layer_keeps_tidy(old(doc)@, doc@, self.layer);
            changed_alike(old(doc)@, doc@, self.layer);
        }
        Ok(())
    }

    fn undo(&mut self, doc: &mut Document)
        ensures
            final(self).old_buffer is None,
            final(self).old_offset is None,
    {
        let b: Option<TiledBuffer> = self.old_buffer.take();
        let o: Option<IVec2> = self.old_offset.take();
        if let Some(b) = b {
            if let Some(o) = o {
                replace(doc, self.layer, o, b);
            }
        }
        doc.set_active(self.prior_active);
        proof {
            assert forall|then: DocView, after: DocView, keep: Set<LayerId>|
                #![trigger old(self).reverts(then, after), same_picture(then, doc@, keep)]
                old(self).reverts(then, after) && keep.subset_of(then.layers.dom()) && same_picture(
                    after,
                    old(doc)@,
                    keep.union(old(self).refs()),
                ) implies same_picture(then, doc@, keep) by {
                assert(keep.union(old(self).refs()) =~= keep.insert(self.layer));
                one_layer_put_back(then, after, old(doc)@, self.layer, keep);
                assert(doc@.layers =~= old(doc)@.layers.insert(
                    self.layer,
                    then.layers[self.layer],
                ));
            }
        }
    }

    fn cleanup(&self, doc: &mut Document) {
    }

    fn referenced_layers(&self) -> (r: Vec<LayerId>)
        ensures
            r@ == seq![self.layer],
    {
        just(self.layer)
    }
}

} // verus!
