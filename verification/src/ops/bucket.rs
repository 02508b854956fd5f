//! Paint-bucket flood fill, and filling and stroking a selection.
//!
//! Computes the connected region of similar-colored pixels around a seed point
//! and paints the foreground color over it with anti-aliased coverage. The fill
//! is bounded by the document canvas and clipped to the active selection.
use vstd::prelude::*;

use crate::arith::{
    difference, minus, over, plus, product, quotient, root, sqrt, sum, times, Arith,
};
use crate::buffer::{pixel_at, TiledBuffer};
use crate::compositor::sum_offset;
use crate::coord::{local_coord, local_coord_spec, IVec2, Rect};
use crate::float_bits::{
    at_least_zero, at_most, clamp, clamped, is_at_most, is_less, is_nan, less, max_zero, nan,
    nearest_i32, rank, round_i32, F_ONE, F_ZERO,
};
use crate::kernel::Kernel;
use crate::layer::BlendMode;
use crate::ops::region::{flood, region_of};
use crate::pixel::{sanitize, sanitized, Rgba32F};
use crate::selection::{Selection, SelectionKind, SelectionView};

verus! {

/// The outer share of the tolerance over which a fill fades out.
pub const FILL_FEATHER: u32 = 0x3f00_0000;

/// Default color-distance tolerance for the paint bucket: `0.2`.
///
/// A moderate default that fills slightly beyond exact matches.
pub const DEFAULT_FILL_TOLERANCE: u32 = 0x3e4c_cccd;

/// The pattern of `2.0`.
pub const F_TWO: u32 = 0x4000_0000;

/// The list holds every pixel for which `chosen` holds, once, with its new
/// value.
pub open spec fn lists_writes(
    out: Seq<(IVec2, Rgba32F)>,
    chosen: spec_fn(IVec2) -> bool,
    value: spec_fn(IVec2) -> Rgba32F,
) -> bool {
    &&& forall|i: int|
        0 <= i < out.len() ==> chosen((#[trigger] out[i]).0) && out[i].1 == value(out[i].0)
    &&& forall|i: int, j: int|
        0 <= i < j < out.len() ==> (#[trigger] out[i]).0 != (#[trigger] out[j]).0
    &&& forall|p: IVec2| #[trigger]
        chosen(p) ==> exists|i: int| 0 <= i < out.len() && (#[trigger] out[i]).0 == p
}

/// Pixel `p` comes before pixel `q`, row by row.
pub open spec fn comes_before(p: IVec2, q: IVec2) -> bool {
    p.y < q.y || (p.y == q.y && p.x < q.x)
}

/// The writes go row by row.
pub open spec fn row_by_row(w: Seq<(IVec2, Rgba32F)>) -> bool {
    forall|i: int, j: int|
        0 <= i < j < w.len() ==> comes_before((#[trigger] w[i]).0, (#[trigger] w[j]).0)
}

/// There is one way to list writes row by row.
pub proof fn rows_list_writes_one_way(
    v: Seq<(IVec2, Rgba32F)>,
    w: Seq<(IVec2, Rgba32F)>,
    chosen: spec_fn(IVec2) -> bool,
    value: spec_fn(IVec2) -> Rgba32F,
)
    requires
        lists_writes(v, chosen, value),
        lists_writes(w, chosen, value),
        row_by_row(v),
        row_by_row(w),
    ensures
        v == w,
    decreases v.len(),
{
    if v.len() == 0 {
        if w.len() > 0 {
            assert(chosen(w[0].0));
            let i = choose|i: int| 0 <= i < v.len() && (#[trigger] v[i]).0 == w[0].0;
            assert(false);
        }
    } else {
        let last = v.last();
        assert(chosen(v[v.len() - 1].0));
        let j = choose|j: int| 0 <= j < w.len() && (#[trigger] w[j]).0 == last.0;
        if j < w.len() - 1 {
            let end = w[w.len() - 1];
            assert(comes_before(w[j].0, end.0));
            assert(chosen(end.0));
            let i = choose|i: int| 0 <= i < v.len() && (#[trigger] v[i]).0 == end.0;
            if i < v.len() - 1 {
                assert(comes_before(v[i].0, v[v.len() - 1].0));
            }
            assert(false);
        }
        assert(w.last() == last);
        let fewer = |p: IVec2| chosen(p) && p != last.0;
        lemma_all_but_the_last(v, chosen, value);
        lemma_all_but_the_last(w, chosen, value);
        rows_list_writes_one_way(v.drop_last(), w.drop_last(), fewer, value);
        assert(v =~= v.drop_last().push(last));
        assert(w =~= w.drop_last().push(last));
    }
}

proof fn lemma_all_but_the_last(
    w: Seq<(IVec2, Rgba32F)>,
    chosen: spec_fn(IVec2) -> bool,
    value: spec_fn(IVec2) -> Rgba32F,
)
    requires
        w.len() > 0,
        lists_writes(w, chosen, value),
        row_by_row(w),
    ensures
        lists_writes(w.drop_last(), |p: IVec2| chosen(p) && p != w.last().0, value),
        row_by_row(w.drop_last()),
{
    let less = w.drop_last();
    let fewer = |p: IVec2| chosen(p) && p != w.last().0;
    assert forall|i: int| 0 <= i < less.len() implies fewer((#[trigger] less[i]).0)
        && less[i].1 == value(less[i].0) by {
        assert(w[i] == less[i]);
        assert(w[i].0 != w[w.len() - 1].0);
    }
    assert forall|p: IVec2| #[trigger] fewer(p) implies exists|i: int|
        0 <= i < less.len() && (#[trigger] less[i]).0 == p by {
        assert(chosen(p));
        let i = choose|i: int| 0 <= i < w.len() && (#[trigger] w[i]).0 == p;
        assert(less[i].0 == p);
    }
}

/// The squared distance of two colors, alpha as one more channel.
pub open spec fn color_distance<M: Arith>(m: &M, a: Rgba32F, b: Rgba32F) -> u32 {
    let dr: u32 = difference(m, a.r, b.r);
    let dg: u32 = difference(m, a.g, b.g);
    let db: u32 = difference(m, a.b, b.b);
    let da: u32 = difference(m, a.a, b.a);
    sum(
        m,
        sum(m, sum(m, product(m, dr, dr), product(m, dg, dg)), product(m, db, db)),
        product(m, da, da),
    )
}

/// The squared distance of two colors, alpha as one more channel.
fn dist_sq<M: Arith>(m: &M, a: Rgba32F, b: Rgba32F) -> (out: u32)
    requires
        m.wf(),
    ensures
        out == color_distance(m, a, b),
{
    let dr: u32 = minus(m, a.r, b.r);
    let dg: u32 = minus(m, a.g, b.g);
    let db: u32 = minus(m, a.b, b.b);
    let da: u32 = minus(m, a.a, b.a);
    plus(
        m,
        plus(m, plus(m, times(m, dr, dr), times(m, dg, dg)), times(m, db, db)),
        times(m, da, da),
    )
}

/// How much of a pixel is filled whose color is `dist` from the seed: all of it up
/// to `inner`, less and less up to the tolerance.
pub open spec fn edge_coverage<M: Arith>(m: &M, dist: u32, inner: u32, tolerance: u32) -> u32 {
    if at_most(dist, inner) || at_most(tolerance, inner) {
        F_ONE
    } else {
        clamped(
            quotient(m, difference(m, tolerance, dist), difference(m, tolerance, inner)),
            F_ZERO,
            F_ONE,
        )
    }
}

/// How much of a pixel is filled whose color is `dist` from the seed: all of it up
/// to `inner`, less and less up to the tolerance.
fn coverage<M: Arith>(m: &M, dist: u32, inner: u32, tolerance: u32) -> (out: u32)
    requires
        m.wf(),
    ensures
        out == edge_coverage(m, dist, inner, tolerance),
{
    if is_at_most(dist, inner) || is_at_most(tolerance, inner) {
        F_ONE
    } else {
        clamp(over(m, minus(m, tolerance, dist), minus(m, tolerance, inner)), F_ZERO, F_ONE)
    }
}

/// A color is near enough to that of the seed.
pub open spec fn color_near<M: Arith>(math: &M, a: Rgba32F, b: Rgba32F, t: u32) -> bool {
    !less(product(math, t, t), color_distance(math, a, b))
}

fn is_near<M: Arith>(math: &M, a: Rgba32F, b: Rgba32F, t: u32) -> (r: bool)
    requires
        math.wf(),
    ensures
        r == color_near(math, a, b, t),
{
    !is_less(times(math, t, t), dist_sq(math, a, b))
}

/// How much the color of a pixel lets it be filled.
pub open spec fn color_coverage<M: Arith>(math: &M, a: Rgba32F, b: Rgba32F, t: u32) -> u32 {
    edge_coverage(
        math,
        root(math, color_distance(math, a, b)),
        product(math, t, difference(math, F_ONE, FILL_FEATHER)),
        t,
    )
}

fn color_cov<M: Arith>(math: &M, a: Rgba32F, b: Rgba32F, t: u32) -> (r: u32)
    requires
        math.wf(),
    ensures
        r == color_coverage(math, a, b, t),
{
    coverage(
        math,
        sqrt(math, dist_sq(math, a, b)),
        times(math, t, minus(math, F_ONE, FILL_FEATHER)),
        t,
    )
}

/// How much of document pixel `d` a fill may change: all of it without a
/// selection.
pub open spec fn clip_cov(s: SelectionView, d: IVec2) -> u32 {
    if s.extent() is None { F_ONE } else { s.cov(d) }
}

pub(crate) fn clip_coverage(s: &Selection, d: IVec2) -> (c: u32)
    requires
        s.wf(),
    ensures
        c == clip_cov(s@, d),
{
    if s.is_empty() { F_ONE } else { s.coverage_at(d) }
}

/// The flood passes layer pixel `q`: its color is near that of the seed, and its
/// document pixel is selected.
pub open spec fn fill_passes<M: Arith>(
    math: &M,
    m: Map<(i32, i32), Seq<Rgba32F>>,
    offset: IVec2,
    seed: IVec2,
    t: u32,
    s: SelectionView,
) -> spec_fn(IVec2) -> bool {
    |q: IVec2|
        color_near(math, sanitized(pixel_at(m, q)), sanitized(pixel_at(m, seed)), t) && (sum_offset(
            q,
            offset,
        ) matches Some(d) && less(F_ZERO, clip_cov(s, d)))
}

/// How much of layer pixel `q` is filled.
pub open spec fn fill_weight<K: Kernel, M: Arith>(
    kern: &K,
    math: &M,
    m: Map<(i32, i32), Seq<Rgba32F>>,
    offset: IVec2,
    seed: IVec2,
    t: u32,
    s: SelectionView,
    q: IVec2,
) -> u32 {
    kern.scaled(
        color_coverage(math, sanitized(pixel_at(m, q)), sanitized(pixel_at(m, seed)), t),
        clip_cov(s, sum_offset(q, offset)->0),
    )
}

/// The canvas and the seed in the layer's coordinates, if the seed lies on the
/// canvas.
pub open spec fn fill_frame(offset: IVec2, seed_doc: IVec2, canvas: Rect) -> Option<(Rect, IVec2)> {
    match (
        local_coord_spec(IVec2 { x: canvas.x, y: canvas.y }, offset),
        local_coord_spec(seed_doc, offset),
    ) {
        (Some(c), Some(s)) => {
            let r = Rect { x: c.x, y: c.y, w: canvas.w, h: canvas.h };
            if r.has(s.x as int, s.y as int) { Some((r, s)) } else { None }
        },
        _ => None,
    }
}

/// The pixels that a paint bucket changes: the connected region around the seed
/// as far as it is filled at all.
pub open spec fn fill_chosen<
    K: Kernel,
    M: Arith,
>(
    kern: &K,
    math: &M,
    m: Map<(i32, i32), Seq<Rgba32F>>,
    offset: IVec2,
    seed_doc: IVec2,
    tolerance: u32,
    s: SelectionView,
    canvas: Rect,
) -> spec_fn(IVec2) -> bool {
    match fill_frame(offset, seed_doc, canvas) {
        Some(f) => |q: IVec2|
            region_of(
                f.1,
                f.0,
                fill_passes(math, m, offset, f.1, at_least_zero(tolerance), s),
                q,
            ) && less(
                F_ZERO,
                fill_weight(kern, math, m, offset, f.1, at_least_zero(tolerance), s, q),
            ),
        None => |q: IVec2| false,
    }
}

/// What a paint bucket writes: the color blended over the pixel.
pub open spec fn fill_value<K: Kernel, M: Arith>(
    kern: &K,
    math: &M,
    m: Map<(i32, i32), Seq<Rgba32F>>,
    offset: IVec2,
    seed_doc: IVec2,
    color: Rgba32F,
    tolerance: u32,
    s: SelectionView,
    canvas: Rect,
) -> spec_fn(IVec2) -> Rgba32F {
    |q: IVec2|
        kern.blended(
            BlendMode::Normal,
            sanitized(pixel_at(m, q)),
            color,
            fill_weight(
                kern,
                math,
                m,
                offset,
                (fill_frame(offset, seed_doc, canvas)->0).1,
                at_least_zero(tolerance),
                s,
                q,
            ),
        )
}

/// Compute the paint-bucket writes for a click at `seed_doc`.
///
/// Returns `(layer-local coordinate, new pixel)` pairs: the foreground `color`
/// composited over the original pixel with anti-aliased coverage. The fill is the
/// 4-connected region of pixels within `tolerance` (RGBA distance) of the seed
/// color, bounded by `canvas` (in document space) and, when `selection` is
/// non-empty, clipped to its coverage. Returns nothing when the seed is outside the
/// canvas or the layer.
pub fn fill_region<
    K: Kernel,
    M: Arith,
>(
    kern: &K,
    math: &M,
    source: &TiledBuffer,
    src_offset: IVec2,
    seed_doc: IVec2,
    color: Rgba32F,
    tolerance: u32,
    selection: &Selection,
    canvas: Rect,
) -> (out: Vec<(IVec2, Rgba32F)>)
    requires
        kern.wf(),
        math.wf(),
        source.wf(),
        selection.wf(),
    ensures
        lists_writes(
            out@,
            fill_chosen(
                kern,
                math,
                source@,
                src_offset,
                seed_doc,
                tolerance,
                selection@,
                canvas,
            ),
            fill_value(
                kern,
                math,
                source@,
                src_offset,
                seed_doc,
                color,
                tolerance,
                selection@,
                canvas,
            ),
        ),
{
    let t: u32 = max_zero(tolerance);
    let mut out: Vec<(IVec2, Rgba32F)> = Vec::new();
    let corner: IVec2 = match local_coord(IVec2::new(canvas.x, canvas.y), src_offset) {
        Some(c) => c,
        None => {
            return out;
        },
    };
    let local_canvas: Rect = Rect::new(corner.x, corner.y, canvas.w, canvas.h);
    let seed: IVec2 = match local_coord(seed_doc, src_offset) {
        Some(s) => s,
        None => {
            return out;
        },
    };
    if !local_canvas.contains(seed) {
        return out;
    }
    let seed_color: Rgba32F = sanitize(source.get_pixel(seed));
    let ghost pass = fill_passes(math, source@, src_offset, seed, t, selection@);
    let f = |q: IVec2| -> (b: bool)
        requires
            math.wf() && source.wf() && selection.wf(),
        ensures
            b == (color_near(math, sanitized(pixel_at(source@, q)), seed_color, t) && (sum_offset(
                q,
                src_offset,
            ) matches Some(d) && less(F_ZERO, clip_cov(selection@, d)))),
        {
            is_near(math, sanitize(source.get_pixel(q)), seed_color, t) && match (
                q.x.checked_add(src_offset.x),
                q.y.checked_add(src_offset.y),
            ) {
                (Some(x), Some(y)) => is_less(F_ZERO, clip_coverage(selection, IVec2::new(x, y))),
                _ => false,
            }
        };
    let list: Vec<IVec2> = flood(seed, local_canvas, &f, Ghost(pass));
    let ghost chosen = fill_chosen(
        kern,
        math,
        source@,
        src_offset,
        seed_doc,
        tolerance,
        selection@,
        canvas,
    );
    let ghost value = fill_value(
        kern,
        math,
        source@,
        src_offset,
        seed_doc,
        color,
        tolerance,
        selection@,
        canvas,
    );
    let mut i: usize = 0;
    while i < list.len()
        invariant
            kern.wf(),
            math.wf(),
            source.wf(),
            selection.wf(),
            i <= list@.len(),
            t == at_least_zero(tolerance),
            fill_frame(src_offset, seed_doc, canvas) == Some((local_canvas, seed)),
            seed_color == sanitized(pixel_at(source@, seed)),
            pass == fill_passes(math, source@, src_offset, seed, t, selection@),
            chosen == fill_chosen(
                kern,
                math,
                source@,
                src_offset,
                seed_doc,
                tolerance,
                selection@,
                canvas,
            ),
            value == fill_value(
                kern,
                math,
                source@,
                src_offset,
                seed_doc,
                color,
                tolerance,
                selection@,
                canvas,
            ),
            list@.no_duplicates(),
            forall|p: IVec2| #[trigger]
                list@.contains(p) <==> region_of(seed, local_canvas, pass, p),
            forall|k: int|
                0 <= k < out@.len() ==> chosen((#[trigger] out@[k]).0) && out@[k].1 == value(
                    out@[k].0,
                ),
            forall|k: int, n: int|
                0 <= k < n < out@.len() ==> (#[trigger] out@[k]).0 != (#[trigger] out@[n]).0,
            forall|k: int|
                0 <= k < out@.len() ==> list@.take(i as int).contains((#[trigger] out@[k]).0),
            forall|n: int|
                0 <= n < i && chosen(#[trigger] list@[n]) ==> exists|k: int|
                    0 <= k < out@.len() && (#[trigger] out@[k]).0 == list@[n],
        decreases list@.len() - i,
    {
        let q: IVec2 = list[i];
        let ghost before = out@;
        proof {
            assert(list@.contains(list@[i as int]));
            assert(region_of(seed, local_canvas, pass, q));
            crate::ops::region::lemma_region_passes(seed, local_canvas, pass, q);
            assert forall|p: IVec2| list@.take(i as int).contains(p) implies #[trigger] list@.take(
                i + 1,
            ).contains(p) by {
                let n = choose|n: int|
                    0 <= n < list@.take(i as int).len() && list@.take(i as int)[n] == p;
                assert(list@.take(i + 1)[n] == p);
            }
            assert(list@.take(i + 1)[i as int] == q);
            assert(!list@.take(i as int).contains(q)) by {
                if list@.take(i as int).contains(q) {
                    let n = choose|n: int|
                        0 <= n < list@.take(i as int).len() && list@.take(i as int)[n] == q;
                    assert(list@[n] == list@[i as int]);
                }
            }
        }
        let px: Rgba32F = sanitize(source.get_pixel(q));
        let mut sel_cov: u32 = F_ZERO;
        if let (Some(x), Some(y)) = (q.x.checked_add(src_offset.x), q.y.checked_add(src_offset.y)) {
            sel_cov = clip_coverage(selection, IVec2::new(x, y));
        }
        let color_cov: u32 = color_cov(math, px, seed_color, t);
        let cov: u32 = kern.scale(color_cov, sel_cov);
        assert(cov == fill_weight(kern, math, source@, src_offset, seed, t, selection@, q));
        if is_less(F_ZERO, cov) {
            out.push((q, kern.blend(BlendMode::Normal, px, color, cov)));
            proof {
                assert(out@[before.len() as int].0 == q);
                assert(chosen(q));
            }
        } else {
            assert(!chosen(q));
        }
        proof {
            assert forall|n: int| 0 <= n < i + 1 && chosen(#[trigger] list@[n]) implies exists|k: int|
                0 <= k < out@.len() && (#[trigger] out@[k]).0 == list@[n] by {
                if n < i {
                    let k = choose|k: int| 0 <= k < before.len() && (#[trigger] before[k]).0 == list@[n];
                    assert(out@[k].0 == list@[n]);
                } else {
                    assert(out@[before.len() as int].0 == list@[n]);
                }
            }
            assert forall|k: int| 0 <= k < out@.len() implies list@.take(i + 1).contains(
                (#[trigger] out@[k]).0,
            ) by {
                if k < before.len() {
                    assert(before[k] == out@[k]);
                    assert(list@.take(i as int).contains(before[k].0));
                }
            }
        }
        i = i + 1;
    }
    proof {
        assert forall|p: IVec2| #[trigger] chosen(p) implies exists|k: int|
            0 <= k < out@.len() && (#[trigger] out@[k]).0 == p by {
            assert(list@.contains(p));
            let n = choose|n: int| 0 <= n < list@.len() && list@[n] == p;
            assert(chosen(list@[n]));
        }
    }
    out
}

/// The layer pixels whose document pixels lie in `region` and get a value.
pub open spec fn valued(
    region: Rect,
    offset: IVec2,
    value: spec_fn(IVec2) -> Option<Rgba32F>,
) -> spec_fn(IVec2) -> bool {
    |q: IVec2|
        sum_offset(q, offset) matches Some(d) && region.has(d.x as int, d.y as int) && value(
            d,
        ) is Some
}

/// The value of the document pixel under a layer pixel.
pub open spec fn value_below(
    offset: IVec2,
    value: spec_fn(IVec2) -> Option<Rgba32F>,
) -> spec_fn(IVec2) -> Rgba32F {
    |q: IVec2| value(sum_offset(q, offset)->0)->0
}

/// Document pixel `d` of `region` comes before `(x, y)`, row by row.
spec fn before_in(region: Rect, x: int, y: int, d: IVec2) -> bool {
    region.has(d.x as int, d.y as int) && (d.y < y || (d.y == y && d.x < x))
}

spec fn collected(
    out: Seq<(IVec2, Rgba32F)>,
    region: Rect,
    offset: IVec2,
    value: spec_fn(IVec2) -> Option<Rgba32F>,
    x: int,
    y: int,
) -> bool {
    &&& forall|i: int|
        0 <= i < out.len() ==> (sum_offset((#[trigger] out[i]).0, offset) matches Some(d) && before_in(
            region,
            x,
            y,
            d,
        ) && value(d) == Some(out[i].1))
    &&& row_by_row(out)
    &&& forall|q: IVec2|
        #![trigger sum_offset(q, offset)]
        (sum_offset(q, offset) matches Some(d) && before_in(region, x, y, d) && value(d) is Some)
            ==> exists|i: int| 0 <= i < out.len() && (#[trigger] out[i]).0 == q
}

/// List what `f` gives for the document pixels of `region`, with their
/// layer-local coordinates.
pub(crate) fn collect<F: Fn(IVec2) -> Option<Rgba32F>>(
    region: Rect,
    offset: IVec2,
    f: &F,
    Ghost(value): Ghost<spec_fn(IVec2) -> Option<Rgba32F>>,
) -> (out: Vec<(IVec2, Rgba32F)>)
    requires
        forall|d: IVec2| #[trigger] f.requires((d,)),
        forall|d: IVec2, o: Option<Rgba32F>| #[trigger] f.ensures((d,), o) ==> o == value(d),
    ensures
        lists_writes(out@, valued(region, offset, value), value_below(offset, value)),
        row_by_row(out@),
{
    let mut out: Vec<(IVec2, Rgba32F)> = Vec::new();
    let right: i64 = if region.right() > 0x8000_0000 { 0x8000_0000 } else { region.right() };
    let bottom: i64 = if region.bottom() > 0x8000_0000 { 0x8000_0000 } else { region.bottom() };
    let mut y: i64 = region.y as i64;
    while y < bottom
        invariant
            forall|d: IVec2| #[trigger] f.requires((d,)),
            forall|d: IVec2, o: Option<Rgba32F>| #[trigger] f.ensures((d,), o) ==> o == value(d),
            right == (if region.right_edge() > 0x8000_0000 { 0x8000_0000 } else {
                region.right_edge()
            }),
            bottom == (if region.bottom_edge() > 0x8000_0000 { 0x8000_0000 } else {
                region.bottom_edge()
            }),
            region.y <= y <= bottom,
            collected(out@, region, offset, value, region.x as int, y as int),
        decreases bottom - y,
    {
        let mut x: i64 = region.x as i64;
        while x < right
            invariant
                forall|d: IVec2| #[trigger] f.requires((d,)),
                forall|d: IVec2, o: Option<Rgba32F>| #[trigger]
                    f.ensures((d,), o) ==> o == value(d),
                right == (if region.right_edge() > 0x8000_0000 { 0x8000_0000 } else {
                    region.right_edge()
                }),
                bottom == (if region.bottom_edge() > 0x8000_0000 { 0x8000_0000 } else {
                    region.bottom_edge()
                }),
                region.y <= y < bottom,
                region.x <= x <= right,
                collected(out@, region, offset, value, x as int, y as int),
            decreases right - x,
        {
            let d: IVec2 = IVec2::new(x as i32, y as i32);
            let ghost before = out@;
            let mut put: Option<IVec2> = None;
            if let Some(q) = local_coord(d, offset) {
                if let Some(px) = f(d) {
                    out.push((q, px));
                    put = Some(q);
                }
            }
            proof {
                assert forall|i: int| 0 <= i < out@.len() implies (sum_offset(
                    (#[trigger] out@[i]).0,
                    offset,
                ) matches Some(e) && before_in(region, x + 1, y as int, e) && value(e) == Some(
                    out@[i].1,
                )) by {
                    if i < before.len() {
                        assert(before[i] == out@[i]);
                    }
                }
                assert forall|i: int, j: int| 0 <= i < j < out@.len() implies comes_before(
                    (#[trigger] out@[i]).0,
                    (#[trigger] out@[j]).0,
                ) by {
                    assert(before[i] == out@[i]);
                    if j < before.len() {
                        assert(before[j] == out@[j]);
                    } else {
                        assert(sum_offset(out@[j].0, offset) == Some(d));
                    }
                }
                assert forall|q: IVec2|
                    #![trigger sum_offset(q, offset)]
                    (sum_offset(q, offset) matches Some(e) && before_in(region, x + 1, y as int, e)
                        && value(e) is Some) implies exists|i: int|
                    0 <= i < out@.len() && (#[trigger] out@[i]).0 == q by {
                    let e = sum_offset(q, offset)->0;
                    if e == d {
                        assert(local_coord_spec(d, offset) == Some(q));
                        assert(out@[before.len() as int].0 == q);
                    } else {
                        assert(before_in(region, x as int, y as int, e));
                        let i = choose|i: int| 0 <= i < before.len() && (#[trigger] before[i]).0 == q;
                        assert(out@[i].0 == q);
                    }
                }
            }
            x = x + 1;
        }
        assert(collected(out@, region, offset, value, region.x as int, y + 1)) by {
            assert forall|i: int| 0 <= i < out@.len() implies (sum_offset(
                (#[trigger] out@[i]).0,
                offset,
            ) matches Some(e) && before_in(region, region.x as int, y + 1, e) && value(e) == Some(
                out@[i].1,
            )) by {}
            assert forall|q: IVec2|
                #![trigger sum_offset(q, offset)]
                (sum_offset(q, offset) matches Some(e) && before_in(
                    region,
                    region.x as int,
                    y + 1,
                    e,
                ) && value(e) is Some) implies exists|i: int|
                0 <= i < out@.len() && (#[trigger] out@[i]).0 == q by {
                let e = sum_offset(q, offset)->0;
                assert(before_in(region, x as int, y as int, e));
            }
        }
        y = y + 1;
    }
    proof {
        let chosen = valued(region, offset, value);
        assert forall|i: int| 0 <= i < out@.len() implies chosen((#[trigger] out@[i]).0)
            && out@[i].1 == value_below(offset, value)(out@[i].0) by {}
        assert forall|p: IVec2| #[trigger] chosen(p) implies exists|i: int|
            0 <= i < out@.len() && (#[trigger] out@[i]).0 == p by {
            let e = sum_offset(p, offset)->0;
            assert(before_in(region, region.x as int, y as int, e));
        }
    }
    out
}

/// What a fill writes to document pixel `d`: the color blended over the layer's
/// pixel, as far as it is selected.
pub open spec fn selection_fill<K: Kernel>(
    kern: &K,
    m: Map<(i32, i32), Seq<Rgba32F>>,
    offset: IVec2,
    color: Rgba32F,
    opacity: u32,
    s: SelectionView,
) -> spec_fn(IVec2) -> Option<Rgba32F> {
    |d: IVec2|
        match local_coord_spec(d, offset) {
            Some(q) => if less(F_ZERO, clip_cov(s, d)) {
                Some(
                    kern.blended(
                        BlendMode::Normal,
                        pixel_at(m, q),
                        color,
                        kern.scaled(opacity, clip_cov(s, d)),
                    ),
                )
            } else {
                None
            },
            None => None,
        }
}

/// Compute the writes for a **Fill Selection** operation.
///
/// Unlike [`fill_region`] (a seed flood-fill), this fills the *entire* selection
/// coverage area with `color` composited over each existing pixel. With no
/// active selection, it fills the whole canvas. Coverage from a feathered or mask
/// selection modulates the blend at edges. Returns `(layer-local coordinate, new
/// pixel)` pairs.
pub fn fill_selection<K: Kernel>(
    kern: &K,
    buffer: &TiledBuffer,
    offset: IVec2,
    color: Rgba32F,
    opacity: u32,
    selection: &Selection,
    canvas: Rect,
) -> (out: Vec<(IVec2, Rgba32F)>)
    requires
        kern.wf(),
        buffer.wf(),
        selection.wf(),
    ensures
        lists_writes(
            out@,
            valued(
                canvas,
                offset,
                selection_fill(kern, buffer@, offset, color, opacity, selection@),
            ),
            value_below(
                offset,
                selection_fill(kern, buffer@, offset, color, opacity, selection@),
            ),
        ),
        row_by_row(out@),
{
    let ghost value = selection_fill(kern, buffer@, offset, color, opacity, selection@);
    let region: Rect = match selection.bounds() {
        Some(b) => match canvas.intersect(b) {
            Some(i) => i,
            None => {
                proof {
                    assert forall|q: IVec2| !(#[trigger] valued(canvas, offset, value)(q)) by {
                        if let Some(d) = sum_offset(q, offset) {
                            crate::selection::coverage_lies_in_extent(selection@, d);
                        }
                    }
                }
                return Vec::new();
            },
        },
        None => canvas,
    };
    let f = |d: IVec2| -> (o: Option<Rgba32F>)
        requires
            kern.wf() && buffer.wf() && selection.wf(),
        ensures
            o == (match local_coord_spec(d, offset) {
                Some(q) => if less(F_ZERO, clip_cov(selection@, d)) {
                    Some(
                        kern.blended(
                            BlendMode::Normal,
                            pixel_at(buffer@, q),
                            color,
                            kern.scaled(opacity, clip_cov(selection@, d)),
                        ),
                    )
                } else {
                    None
                },
                None => None,
            }),
        {
            match local_coord(d, offset) {
                Some(q) => {
                    let cov: u32 = clip_coverage(selection, d);
                    if is_less(F_ZERO, cov) {
                        Some(
                            kern.blend(
                                BlendMode::Normal,
                                buffer.get_pixel(q),
                                color,
                                kern.scale(opacity, cov),
                            ),
                        )
                    } else {
                        None
                    }
                },
                None => None,
            }
        };
    let out: Vec<(IVec2, Rgba32F)> = collect(region, offset, &f, Ghost(value));
    proof {
        assert forall|q: IVec2| #[trigger] valued(canvas, offset, value)(q) implies valued(
            region,
            offset,
            value,
        )(q) by {
            if let Some(d) = sum_offset(q, offset) {
                crate::selection::coverage_lies_in_extent(selection@, d);
            }
        }
        assert forall|i: int| 0 <= i < out@.len() implies valued(canvas, offset, value)(
            (#[trigger] out@[i]).0,
        ) by {
            assert(valued(region, offset, value)(out@[i].0));
        }
    }
    out
}

/// Half of a stroke width, rounded, at least one pixel.
pub open spec fn half_width(width: u32) -> int {
    if !nan(width) && rank(width) >= rank(F_TWO) {
        let h = nearest_i32((width - 0x80_0000) as u32);
        if h < 1 { 1 } else { h }
    } else {
        1
    }
}

fn half_of(width: u32) -> (h: i32)
    ensures
        h == half_width(width),
        h >= 1,
{
    if is_less(width, F_TWO) || is_nan(width) {
        1
    } else {
        let h: i32 = round_i32(width - 0x80_0000);
        if h < 1 { 1 } else { h }
    }
}

/// Pixel `d` of `rect` lies within `half` pixels of its edge.
pub open spec fn on_border(rect: Rect, half: int, d: IVec2) -> bool {
    rect.has(d.x as int, d.y as int) && (d.x < rect.x + half || d.x >= rect.right_edge() - half || d.y
        < rect.y + half || d.y >= rect.bottom_edge() - half)
}

/// What a stroke writes to document pixel `d`.
pub open spec fn selection_stroke<K: Kernel>(
    kern: &K,
    m: Map<(i32, i32), Seq<Rgba32F>>,
    offset: IVec2,
    color: Rgba32F,
    width: u32,
    opacity: u32,
    s: SelectionView,
) -> spec_fn(IVec2) -> Option<Rgba32F> {
    |d: IVec2|
        match (local_coord_spec(d, offset), s) {
            (Some(q), SelectionView::Rect(r)) => if on_border(r, half_width(width), d) {
                Some(
                    kern.blended(
                        BlendMode::Normal,
                        pixel_at(m, q),
                        color,
                        kern.scaled(opacity, F_ONE),
                    ),
                )
            } else {
                None
            },
            _ => None,
        }
}

/// Compute the writes for a **Stroke Selection** operation.
///
/// Strokes the outline of a rectangular selection by filling the border band
/// of `width`/2 pixels around the rectangle's inside edge. Other selections
/// return no writes. Returns `(layer-local coordinate, new pixel)` pairs, like
/// [`fill_selection`].
pub fn stroke_selection<K: Kernel>(
    kern: &K,
    buffer: &TiledBuffer,
    offset: IVec2,
    color: Rgba32F,
    width: u32,
    opacity: u32,
    selection: &Selection,
    canvas: Rect,
) -> (out: Vec<(IVec2, Rgba32F)>)
    requires
        kern.wf(),
        buffer.wf(),
    ensures
        lists_writes(
            out@,
            valued(
                canvas,
                offset,
                selection_stroke(kern, buffer@, offset, color, width, opacity, selection@),
            ),
            value_below(
                offset,
                selection_stroke(kern, buffer@, offset, color, width, opacity, selection@),
            ),
        ),
        row_by_row(out@),
{
    let ghost value = selection_stroke(kern, buffer@, offset, color, width, opacity, selection@);
    let rect: Rect = match &selection.kind {
        SelectionKind::Rect(r) => *r,
        _ => {
            return Vec::new();
        },
    };
    let region: Rect = match canvas.intersect(rect) {
        Some(i) => i,
        None => {
            proof {
                assert forall|q: IVec2| !(#[trigger] valued(canvas, offset, value)(q)) by {}
            }
            return Vec::new();
        },
    };
    let half: i32 = half_of(width);
    let left: i64 = rect.x as i64 + half as i64;
    let top: i64 = rect.y as i64 + half as i64;
    let right: i64 = rect.right() - half as i64;
    let bottom: i64 = rect.bottom() - half as i64;
    let f = |d: IVec2| -> (o: Option<Rgba32F>)
        requires
            kern.wf() && buffer.wf(),
        ensures
            o == (match local_coord_spec(d, offset) {
                Some(q) => if rect.has(d.x as int, d.y as int) && (d.x < left || d.x >= right
                    || d.y < top || d.y >= bottom) {
                    Some(
                        kern.blended(
                            BlendMode::Normal,
                            pixel_at(buffer@, q),
                            color,
                            kern.scaled(opacity, F_ONE),
                        ),
                    )
                } else {
                    None
                },
                None => None,
            }),
        {
            match local_coord(d, offset) {
                Some(q) => {
                    let x: i64 = d.x as i64;
                    let y: i64 = d.y as i64;
                    if rect.contains(d) && (x < left || x >= right || y < top || y >= bottom) {
                        Some(
                            kern.blend(
                                BlendMode::Normal,
                                buffer.get_pixel(q),
                                color,
                                kern.scale(opacity, F_ONE),
                            ),
                        )
                    } else {
                        None
                    }
                },
                None => None,
            }
        };
    let out: Vec<(IVec2, Rgba32F)> = collect(region, offset, &f, Ghost(value));
    proof {
        assert forall|q: IVec2| #[trigger] valued(canvas, offset, value)(q) implies valued(
            region,
            offset,
            value,
        )(q) by {}
        assert forall|i: int| 0 <= i < out@.len() implies valued(canvas, offset, value)(
            (#[trigger] out@[i]).0,
        ) by {
            assert(valued(region, offset, value)(out@[i].0));
        }
    }
    out
}

} // verus!
