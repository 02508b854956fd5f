//! Magic-wand and select-by-color operations.
//!
//! These functions build a coverage [`Selection`] mask from a raster layer based
//! on the color at a seed point and a tolerance. Two colors are
//! compared by their perceptual distance.
use vstd::prelude::*;

use crate::arith::{product, times, Arith};
use crate::buffer::{
    alike, pixel_at, set_pixel_keeps_sparse, set_pixel_then_get, sparse, TiledBuffer,
};
use crate::buffer_region::{
    exact_bounds_hold_every_pixel, inked, tight, tile_bounds,
};
use crate::coord::{local_coord, local_coord_spec, IVec2, Rect};
use crate::float_bits::{at_least_zero, at_most, is_at_most, max_zero, F_ONE, F_ZERO};
use crate::ops::mask::full_coverage;
use crate::ops::region::{flood, region_of};
use crate::paint::{in_area, paint, writes};
use crate::pixel::{clear_px, perceived_distance, perceptual_distance_sq, Rgba32F};
use crate::selection::{is_combination, Selection, SelectionKind, SelectionMode, SelectionView};

verus! {

/// Two colors look the same within a tolerance: their perceptual distance is at
/// most the tolerance.
pub open spec fn alike_within<M: Arith>(math: &M, a: Rgba32F, b: Rgba32F, t: u32) -> bool {
    at_most(perceived_distance(math, a, b), product(math, t, t))
}

fn color_matches<M: Arith>(math: &M, a: Rgba32F, b: Rgba32F, t: u32) -> (r: bool)
    requires
        math.wf(),
    ensures
        r == alike_within(math, a, b, t),
{
    is_at_most(perceptual_distance_sq(math, a, b), times(math, t, t))
}

/// The pixels of a buffer whose color is similar to `color`.
pub open spec fn like<M: Arith>(
    math: &M,
    m: Map<(i32, i32), Seq<Rgba32F>>,
    color: Rgba32F,
    t: u32,
) -> spec_fn(IVec2) -> bool {
    |q: IVec2| alike_within(math, pixel_at(m, q), color, t)
}

/// `p` lies within `max_radius` pixels (Euclidean) of `seed`, if there is such a
/// bound.
pub open spec fn in_disk(p: IVec2, seed: IVec2, max_radius: Option<u32>) -> bool {
    match max_radius {
        Some(r) => (p.x - seed.x) * (p.x - seed.x) + (p.y - seed.y) * (p.y - seed.y) <= r * r,
        None => true,
    }
}

/// The pixels around `seed` that are connected to it through pixels of a similar
/// color, within a bounding rectangle and a disk.
pub open spec fn grown<M: Arith>(
    math: &M,
    m: Map<(i32, i32), Seq<Rgba32F>>,
    seed: IVec2,
    t: u32,
    bounds: Rect,
    max_radius: Option<u32>,
) -> spec_fn(IVec2) -> bool {
    |q: IVec2|
        bounds.has(seed.x as int, seed.y as int) && region_of(
            seed,
            bounds,
            |p: IVec2|
                in_disk(p, seed, max_radius) && like(math, m, pixel_at(m, seed), t)(p),
            q,
        )
}

/// The pixels of a rectangle whose color is similar to `color`.
pub open spec fn similar_in<M: Arith>(
    math: &M,
    m: Map<(i32, i32), Seq<Rgba32F>>,
    color: Rgba32F,
    t: u32,
    bounds: Rect,
) -> spec_fn(IVec2) -> bool {
    |q: IVec2| bounds.has(q.x as int, q.y as int) && like(math, m, color, t)(q)
}

/// Document pixel `p` is one of the layer's pixels for which `pick` holds.
pub open spec fn picked(pick: spec_fn(IVec2) -> bool, offset: IVec2, p: IVec2) -> bool {
    local_coord_spec(p, offset) matches Some(q) && pick(q)
}

/// The buffer holds full coverage on the picked pixels and nothing else.
pub open spec fn marks(
    m: Map<(i32, i32), Seq<Rgba32F>>,
    pick: spec_fn(IVec2) -> bool,
    offset: IVec2,
) -> bool {
    &&& sparse(m)
    &&& forall|p: IVec2|
        alike(
            #[trigger] pixel_at(m, p),
            if picked(pick, offset, p) { full_coverage() } else { clear_px() },
        )
}

/// The selection covers the picked pixels, and is empty if there are none.
pub open spec fn selects(s: SelectionView, pick: spec_fn(IVec2) -> bool, offset: IVec2) -> bool {
    if exists|p: IVec2| #[trigger] picked(pick, offset, p) {
        exists|m: Map<(i32, i32), Seq<Rgba32F>>, lo: IVec2, hi: IVec2|
            #![trigger marks(m, pick, offset), tight(inked(m), lo, hi)]
            marks(m, pick, offset) && tight(inked(m), lo, hi) && s == SelectionView::Mask(
                m,
                Rect::from_corners_spec(lo, hi),
            )
    } else {
        s == SelectionView::Nothing
    }
}

/// What a selection of picked pixels covers: the picked pixels fully and no
/// others, unless they span all 2³² columns or rows.
pub proof fn picked_pixels_are_covered(
    s: SelectionView,
    pick: spec_fn(IVec2) -> bool,
    offset: IVec2,
    p: IVec2,
)
    requires
        selects(s, pick, offset),
        s matches SelectionView::Mask(m, b) ==> b.w < u32::MAX && b.h < u32::MAX,
    ensures
        s.cov(p) == (if picked(pick, offset, p) { F_ONE } else { F_ZERO }),
{
    if exists|q: IVec2| #[trigger] picked(pick, offset, q) {
        let (m, lo, hi) = choose|m: Map<(i32, i32), Seq<Rgba32F>>, lo: IVec2, hi: IVec2|
            #![trigger marks(m, pick, offset), tight(inked(m), lo, hi)]
            marks(m, pick, offset) && tight(inked(m), lo, hi) && s == SelectionView::Mask(
                m,
                Rect::from_corners_spec(lo, hi),
            );
        assert(alike(
            pixel_at(m, p),
            if picked(pick, offset, p) { full_coverage() } else { clear_px() },
        ));
        if picked(pick, offset, p) {
            exact_bounds_hold_every_pixel(m, lo, hi, p);
        }
    }
}

/// True if `p` is within `max_radius` pixels (Euclidean) of `seed`, or if no
/// radius bound was supplied.
pub fn within_radius(p: IVec2, seed: IVec2, max_radius: Option<u32>) -> (r: bool)
    ensures
        r == in_disk(p, seed, max_radius),
{
    match max_radius {
        Some(r) => {
            let dx: i128 = p.x as i128 - seed.x as i128;
            let dy: i128 = p.y as i128 - seed.y as i128;
            let rr: i128 = r as i128;
            assert(0 <= dx * dx <= 0x1_0000_0000 * 0x1_0000_0000) by (nonlinear_arith)
                requires
                    -0x1_0000_0000 <= dx <= 0x1_0000_0000,
            ;
            assert(0 <= dy * dy <= 0x1_0000_0000 * 0x1_0000_0000) by (nonlinear_arith)
                requires
                    -0x1_0000_0000 <= dy <= 0x1_0000_0000,
            ;
            assert(0 <= rr * rr <= 0x1_0000_0000 * 0x1_0000_0000) by (nonlinear_arith)
                requires
                    0 <= rr <= 0x1_0000_0000,
            ;
            dx * dx + dy * dy <= rr * rr
        },
        None => true,
    }
}

/// Build a selection from a coverage buffer.
fn build_selection(
    coverage: TiledBuffer,
    Ghost(pick): Ghost<spec_fn(IVec2) -> bool>,
    Ghost(offset): Ghost<IVec2>,
) -> (s: Selection)
    requires
        coverage.wf(),
        marks(coverage@, pick, offset),
    ensures
        s.wf(),
        selects(s@, pick, offset),
{
    proof {
        if exists|p: IVec2| #[trigger] inked(coverage@).contains(p) {
            let p = choose|p: IVec2| #[trigger] inked(coverage@).contains(p);
            assert(alike(
                pixel_at(coverage@, p),
                if picked(pick, offset, p) { full_coverage() } else { clear_px() },
            ));
            assert(picked(pick, offset, p));
        }
        if exists|p: IVec2| #[trigger] picked(pick, offset, p) {
            let p = choose|p: IVec2| #[trigger] picked(pick, offset, p);
            assert(alike(
                pixel_at(coverage@, p),
                if picked(pick, offset, p) { full_coverage() } else { clear_px() },
            ));
            assert(inked(coverage@).contains(p));
        }
    }
    match coverage.exact_bounds() {
        Some(bounds) => Selection { kind: SelectionKind::Mask { coverage, bounds } },
        None => Selection::none(),
    }
}

/// The pixels listed first.
spec fn listed(list: Seq<IVec2>, n: int) -> spec_fn(IVec2) -> bool {
    |q: IVec2| list.take(n).contains(q)
}

proof fn lemma_listed(list: Seq<IVec2>, n: int, q: IVec2)
    requires
        0 <= n < list.len(),
    ensures
        listed(list, n + 1)(q) <==> listed(list, n)(q) || q == list[n],
{
    let a = list.take(n + 1);
    let b = list.take(n);
    if a.contains(q) {
        let i = choose|i: int| 0 <= i < a.len() && a[i] == q;
        if i < n {
            assert(b[i] == q);
        }
    }
    if b.contains(q) {
        let i = choose|i: int| 0 <= i < b.len() && b[i] == q;
        assert(a[i] == q);
    }
    assert(a[n] == list[n]);
}

/// Grow a region from a seed and select it.
fn flood_fill<M: Arith>(
    math: &M,
    source: &TiledBuffer,
    src_offset: IVec2,
    seed_local: IVec2,
    tolerance: u32,
    local_bounds: Rect,
    max_radius: Option<u32>,
) -> (s: Selection)
    requires
        math.wf(),
        source.wf(),
    ensures
        s.wf(),
        selects(
            s@,
            grown(math, source@, seed_local, tolerance, local_bounds, max_radius),
            src_offset,
        ),
{
    let ghost pick = grown(math, source@, seed_local, tolerance, local_bounds, max_radius);
    if !local_bounds.contains(seed_local) {
        return Selection::none();
    }
    let seed_color: Rgba32F = source.get_pixel(seed_local);
    let ghost pass = |p: IVec2|
        in_disk(p, seed_local, max_radius) && like(math, source@, seed_color, tolerance)(p);
    let f = |p: IVec2| -> (b: bool)
        requires
            math.wf() && source.wf(),
        ensures
            b == (in_disk(p, seed_local, max_radius) && alike_within(
                math,
                pixel_at(source@, p),
                seed_color,
                tolerance,
            )),
        {
            within_radius(p, seed_local, max_radius) && color_matches(
                math,
                source.get_pixel(p),
                seed_color,
                tolerance,
            )
        };
    let list: Vec<IVec2> = flood(seed_local, local_bounds, &f, Ghost(pass));
    let mut coverage: TiledBuffer = TiledBuffer::new();
    let mut i: usize = 0;
    assert(list@.take(0) =~= Seq::empty());
    while i < list.len()
        invariant
            i <= list@.len(),
            coverage.wf(),
            marks(coverage@, listed(list@, i as int), src_offset),
        decreases list@.len() - i,
    {
        let q: IVec2 = list[i];
        let ghost before = coverage@;
        proof {
            coverage.lemma_full();
        }
        let mut doc: Option<IVec2> = None;
        if let (Some(x), Some(y)) = (q.x.checked_add(src_offset.x), q.y.checked_add(src_offset.y)) {
            let p: IVec2 = IVec2::new(x, y);
            doc = Some(p);
            coverage.set_pixel(p, Rgba32F::new(F_ONE, F_ZERO, F_ZERO, F_ONE));
            proof {
                set_pixel_keeps_sparse(before, p, full_coverage());
            }
        }
        proof {
            assert forall|p: IVec2|
                alike(
                    #[trigger] pixel_at(coverage@, p),
                    if picked(listed(list@, i + 1), src_offset, p) { full_coverage() } else {
                        clear_px()
                    },
                ) by {
                if let Some(d) = doc {
                    set_pixel_then_get(before, d, full_coverage(), p);
                }
                assert(alike(
                    pixel_at(before, p),
                    if picked(listed(list@, i as int), src_offset, p) { full_coverage() } else {
                        clear_px()
                    },
                ));
                if let Some(l) = local_coord_spec(p, src_offset) {
                    lemma_listed(list@, i as int, l);
                }
            }
        }
        i = i + 1;
    }
    proof {
        assert(list@.take(i as int) =~= list@);
        assert forall|p: IVec2| picked(listed(list@, i as int), src_offset, p) == #[trigger] picked(
            pick,
            src_offset,
            p,
        ) by {
            if let Some(l) = local_coord_spec(p, src_offset) {
                assert(list@.contains(l) <==> region_of(seed_local, local_bounds, pass, l));
            }
        }
        assert forall|p: IVec2|
            alike(
                #[trigger] pixel_at(coverage@, p),
                if picked(pick, src_offset, p) { full_coverage() } else { clear_px() },
            ) by {
            assert(picked(pick, src_offset, p) == picked(listed(list@, i as int), src_offset, p));
        }
    }
    build_selection(coverage, Ghost(pick), Ghost(src_offset))
}

/// What a magic-wand click selects: nothing if the seed lies outside the layer's
/// coordinates or the layer is empty.
pub open spec fn wand_pick<M: Arith>(
    math: &M,
    m: Map<(i32, i32), Seq<Rgba32F>>,
    offset: IVec2,
    seed_doc: IVec2,
    tolerance: u32,
    contiguous: bool,
) -> spec_fn(IVec2) -> bool {
    match (local_coord_spec(seed_doc, offset), tile_bounds(m)) {
        (Some(seed), Some(b)) => if contiguous {
            grown(math, m, seed, at_least_zero(tolerance), b, None)
        } else {
            similar_in(math, m, pixel_at(m, seed), at_least_zero(tolerance), b)
        },
        _ => |q: IVec2| false,
    }
}

/// What growing from one seed selects.
pub open spec fn grow_pick<M: Arith>(
    math: &M,
    m: Map<(i32, i32), Seq<Rgba32F>>,
    offset: IVec2,
    seed_doc: IVec2,
    tolerance: u32,
    max_radius: Option<u32>,
) -> spec_fn(IVec2) -> bool {
    match (local_coord_spec(seed_doc, offset), tile_bounds(m)) {
        (Some(seed), Some(b)) => grown(math, m, seed, at_least_zero(tolerance), b, max_radius),
        _ => |q: IVec2| false,
    }
}

/// Build a selection from a magic-wand click.
///
/// * `source` is layer-local pixel data.
/// * `src_offset` is the document-space offset of the layer.
/// * `seed_doc` is the document-space seed point.
/// * `tolerance` is the maximum color distance a pixel may have from the seed
///   pixel. Values below zero are treated as zero.
/// * `contiguous`: if `true`, only pixels connected to the seed by matching
///   neighbours are selected; otherwise every matching pixel in the layer is.
///
/// The search is bounded by the occupied tiles of `source` so that fully
/// transparent areas outside the layer do not participate.
pub fn magic_wand<M: Arith>(
    math: &M,
    source: &TiledBuffer,
    src_offset: IVec2,
    seed_doc: IVec2,
    tolerance: u32,
    contiguous: bool,
) -> (s: Selection)
    requires
        math.wf(),
        source.wf(),
    ensures
        s.wf(),
        selects(
            s@,
            wand_pick(math, source@, src_offset, seed_doc, tolerance, contiguous),
            src_offset,
        ),
{
    let t: u32 = max_zero(tolerance);
    let seed_local: IVec2 = match local_coord(seed_doc, src_offset) {
        Some(p) => p,
        None => {
            return Selection::none();
        },
    };
    let local_bounds: Rect = match source.bounds() {
        Some(b) => b,
        None => {
            return Selection::none();
        },
    };
    if contiguous {
        flood_fill(math, source, src_offset, seed_local, t, local_bounds, None)
    } else {
        let seed_color: Rgba32F = source.get_pixel(seed_local);
        global_select(math, source, src_offset, seed_color, t, local_bounds)
    }
}

/// Select every pixel in `source` (within `scan_bounds_local`, layer-local
/// coordinates) whose color is within `tolerance` of `seed_color`.
///
/// The bounds may be the occupied tiles of the source, or the canvas so that
/// transparent canvas pixels are considered too.
pub fn select_by_color<M: Arith>(
    math: &M,
    source: &TiledBuffer,
    src_offset: IVec2,
    seed_color: Rgba32F,
    tolerance: u32,
    scan_bounds_local: Rect,
) -> (s: Selection)
    requires
        math.wf(),
        source.wf(),
    ensures
        s.wf(),
        selects(
            s@,
            similar_in(
                math,
                source@,
                seed_color,
                at_least_zero(tolerance),
                scan_bounds_local,
            ),
            src_offset,
        ),
{
    let t: u32 = max_zero(tolerance);
    global_select(math, source, src_offset, seed_color, t, scan_bounds_local)
}

fn global_select<M: Arith>(
    math: &M,
    source: &TiledBuffer,
    src_offset: IVec2,
    seed_color: Rgba32F,
    tolerance: u32,
    local_bounds: Rect,
) -> (s: Selection)
    requires
        math.wf(),
        source.wf(),
    ensures
        s.wf(),
        selects(
            s@,
            similar_in(math, source@, seed_color, tolerance, local_bounds),
            src_offset,
        ),
{
    let ghost pick = similar_in(math, source@, seed_color, tolerance, local_bounds);
    let mut coverage: TiledBuffer = TiledBuffer::new();
    let f = |p: IVec2| -> (o: Option<Rgba32F>)
        requires
            math.wf() && source.wf(),
        ensures
            o == (match local_coord_spec(p, src_offset) {
                Some(q) => if alike_within(math, pixel_at(source@, q), seed_color, tolerance) {
                    Some(full_coverage())
                } else {
                    None
                },
                None => None,
            }),
        {
            match local_coord(p, src_offset) {
                Some(q) => if color_matches(math, source.get_pixel(q), seed_color, tolerance) {
                    Some(Rgba32F::new(F_ONE, F_ZERO, F_ZERO, F_ONE))
                } else {
                    None
                },
                None => None,
            }
        };
    let x0: i64 = local_bounds.x as i64 + src_offset.x as i64;
    let y0: i64 = local_bounds.y as i64 + src_offset.y as i64;
    let x1: i64 = local_bounds.right() + src_offset.x as i64;
    let y1: i64 = local_bounds.bottom() + src_offset.y as i64;
    paint(&mut coverage, x0, y0, x1, y1, f);
    proof {
        let area = (x0 as int, y0 as int, x1 as int, y1 as int);
        assert forall|p: IVec2|
            alike(
                #[trigger] pixel_at(coverage@, p),
                if picked(pick, src_offset, p) { full_coverage() } else { clear_px() },
            ) by {
            assert(coverage.at(p) == pixel_at(coverage@, p));
            if in_area(area, p) {
                assert(writes(f, p, clear_px(), coverage.at(p)));
            }
        }
    }
    build_selection(coverage, Ghost(pick), Ghost(src_offset))
}

/// Grow a selection from a single seed (`seed_doc`, document coordinates),
/// bounded to a disk of `max_radius` pixels around the seed when `Some`.
///
/// This is what a contiguous magic wand does without a bound, and quick
/// selection once per brush stamp with the brush radius as bound.
pub fn region_grow<M: Arith>(
    math: &M,
    source: &TiledBuffer,
    src_offset: IVec2,
    seed_doc: IVec2,
    tolerance: u32,
    max_radius: Option<u32>,
) -> (s: Selection)
    requires
        math.wf(),
        source.wf(),
    ensures
        s.wf(),
        selects(
            s@,
            grow_pick(math, source@, src_offset, seed_doc, tolerance, max_radius),
            src_offset,
        ),
{
    let t: u32 = max_zero(tolerance);
    let seed_local: IVec2 = match local_coord(seed_doc, src_offset) {
        Some(p) => p,
        None => {
            return Selection::none();
        },
    };
    let local_bounds: Rect = match source.bounds() {
        Some(b) => b,
        None => {
            return Selection::none();
        },
    };
    flood_fill(math, source, src_offset, seed_local, t, local_bounds, max_radius)
}

/// `s` is what growing from every sample selects, added up.
pub open spec fn is_quick_selection<M: Arith>(
    math: &M,
    m: Map<(i32, i32), Seq<Rgba32F>>,
    offset: IVec2,
    samples: Seq<IVec2>,
    tolerance: u32,
    max_radius: u32,
    s: SelectionView,
) -> bool
    decreases samples.len(),
{
    if samples.len() == 0 {
        s == SelectionView::Nothing
    } else {
        exists|a: SelectionView, g: SelectionView| #[trigger]
            is_combination(a, g, SelectionMode::Add, s) && selects(
                g,
                grow_pick(math, m, offset, samples.last(), tolerance, Some(max_radius)),
                offset,
            ) && is_quick_selection(
                math,
                m,
                offset,
                samples.drop_last(),
                tolerance,
                max_radius,
                a,
            )
    }
}

/// Build a selection by unioning one [`region_grow`] per sample point along a
/// brush stroke.
///
/// Each sample seeds a bounded grow (disk of `max_radius` around the sample); the
/// results are always added up here. The caller combines the returned selection
/// with the existing one under its own mode.
pub fn quick_select<M: Arith>(
    math: &M,
    source: &TiledBuffer,
    src_offset: IVec2,
    samples: &Vec<IVec2>,
    tolerance: u32,
    max_radius: u32,
) -> (s: Selection)
    requires
        math.wf(),
        source.wf(),
    ensures
        s.wf(),
        is_quick_selection(
            math,
            source@,
            src_offset,
            samples@,
            tolerance,
            max_radius,
            s@,
        ),
{
    let mut acc: Selection = Selection::none();
    let mut i: usize = 0;
    assert(samples@.take(0) =~= Seq::empty());
    while i < samples.len()
        invariant
            math.wf(),
            source.wf(),
            i <= samples@.len(),
            acc.wf(),
            is_quick_selection(
                math,
                source@,
                src_offset,
                samples@.take(i as int),
                tolerance,
                max_radius,
                acc@,
            ),
        decreases samples@.len() - i,
    {
        let grow: Selection = region_grow(
            math,
            source,
            src_offset,
            samples[i],
            tolerance,
            Some(max_radius),
        );
        let next: Selection = acc.combine(&grow, SelectionMode::Add);
        proof {
            let t = samples@.take(i + 1);
            assert(t.drop_last() =~= samples@.take(i as int));
            assert(t.last() == samples@[i as int]);
            assert(is_combination(acc@, grow@, SelectionMode::Add, next@));
        }
        acc = next;
        i = i + 1;
    }
    assert(samples@.take(i as int) =~= samples@);
    acc
}

} // verus!
