//! Edge detection and edge-snapping for the magnetic lasso.
//!
//! The lasso snaps each cursor sample to the strongest-edge pixel within a disk
//! of the cursor. The path is then simplified before building the selection.
use vstd::prelude::*;

use crate::arith::{
    difference, minus, over, plus, product, quotient, root, sqrt, sum, times, Arith,
};
use crate::buffer::{pixel_at, TiledBuffer};
use crate::buffer_region::tile_bounds;
use crate::coord::{clamp_i32, IVec2, Rect};
use crate::float_bits::{
    from_i32, from_i64, is_less, less, nan, negate, negated, number_of_i32, number_of_int, F_TINY,
    F_TWO, F_ZERO,
};
use crate::ops::magic_wand::{in_disk, within_radius};
use crate::pixel::{
    clear_px, srgb_encode, srgb_encoded, Rgba32F, LUMA_BLUE, LUMA_GREEN, LUMA_RED,
};

verus! {

/// The eight pixels around `p`, row by row.
pub open spec fn around(m: Map<(i32, i32), Seq<Rgba32F>>, p: IVec2) -> Seq<Rgba32F> {
    seq![
        pixel_near(m, p.x - 1, p.y - 1),
        pixel_near(m, p.x as int, p.y - 1),
        pixel_near(m, p.x + 1, p.y - 1),
        pixel_near(m, p.x - 1, p.y as int),
        pixel_near(m, p.x + 1, p.y as int),
        pixel_near(m, p.x - 1, p.y + 1),
        pixel_near(m, p.x as int, p.y + 1),
        pixel_near(m, p.x + 1, p.y + 1),
    ]
}

/// `v` moved into the range from `lo` up to but not at `hi`, and into the `i32`
/// range.
pub open spec fn clamped_into(v: int, lo: int, hi: int) -> int {
    clamp_i32(if v < lo {
        lo
    } else if v >= hi {
        hi - 1
    } else {
        v
    })
}

/// The pixel at a position, or the nearest one of the buffer's occupied bounds.
pub open spec fn pixel_near(m: Map<(i32, i32), Seq<Rgba32F>>, x: int, y: int) -> Rgba32F {
    match tile_bounds(m) {
        Some(b) => pixel_at(
            m,
            IVec2 {
                x: clamped_into(x, b.x as int, b.right_edge()) as i32,
                y: clamped_into(y, b.y as int, b.bottom_edge()) as i32,
            },
        ),
        None => clear_px(),
    }
}

fn clamp_into(v: i64, lo: i64, hi: i64) -> (r: i32)
    requires
        hi > i64::MIN,
    ensures
        r == clamped_into(v as int, lo as int, hi as int),
{
    let c: i64 = if v < lo {
        lo
    } else if v >= hi {
        hi - 1
    } else {
        v
    };
    if c < -0x8000_0000 {
        i32::MIN
    } else if c > 0x7fff_ffff {
        i32::MAX
    } else {
        c as i32
    }
}

fn read_near(source: &TiledBuffer, bounds: Option<Rect>, x: i64, y: i64) -> (r: Rgba32F)
    requires
        source.wf(),
        bounds == tile_bounds(source@),
    ensures
        r == pixel_near(source@, x as int, y as int),
{
    match bounds {
        Some(b) => source.get_pixel(
            IVec2::new(
                clamp_into(x, b.x as i64, b.right()),
                clamp_into(y, b.y as i64, b.bottom()),
            ),
        ),
        None => Rgba32F::transparent(),
    }
}

/// Rec.709 luma of a linear pixel, gamma-encoded for perceptual weighting.
pub open spec fn perceived_luma<M: Arith>(m: &M, px: Rgba32F) -> u32 {
    let r: u32 = srgb_encoded(m, px.r);
    let g: u32 = srgb_encoded(m, px.g);
    let b: u32 = srgb_encoded(m, px.b);
    sum(m, sum(m, product(m, LUMA_RED, r), product(m, LUMA_GREEN, g)), product(m, LUMA_BLUE, b))
}

/// Rec.709 luma of a linear pixel, gamma-encoded for perceptual weighting.
fn perceptual_luma<M: Arith>(m: &M, px: Rgba32F) -> (out: u32)
    requires
        m.wf(),
    ensures
        out == perceived_luma(m, px),
{
    let r: u32 = srgb_encode(m, px.r);
    let g: u32 = srgb_encode(m, px.g);
    let b: u32 = srgb_encode(m, px.b);
    plus(m, plus(m, times(m, LUMA_RED, r), times(m, LUMA_GREEN, g)), times(m, LUMA_BLUE, b))
}

/// One component of the Sobel gradient: the far side less the near side, the middle
/// of each counted twice.
pub open spec fn slope<M: Arith>(m: &M, a: u32, b: u32, c: u32, d: u32, e: u32, f: u32) -> u32 {
    let near: u32 = difference(m, difference(m, negated(a), product(m, F_TWO, b)), c);
    sum(m, sum(m, sum(m, near, d), product(m, F_TWO, e)), f)
}

/// One component of the Sobel gradient: the far side less the near side, the middle
/// of each counted twice.
fn sobel<M: Arith>(m: &M, a: u32, b: u32, c: u32, d: u32, e: u32, f: u32) -> (out: u32)
    requires
        m.wf(),
    ensures
        out == slope(m, a, b, c, d, e, f),
{
    let near: u32 = minus(m, minus(m, negate(a), times(m, F_TWO, b)), c);
    plus(m, plus(m, plus(m, near, d), times(m, F_TWO, e)), f)
}

/// The gradient magnitude of the eight pixels around one, row by row.
#[verifier::opaque]
pub open spec fn edge_strength<M: Arith>(math: &M, s: Seq<Rgba32F>) -> u32 {
    let l = |i: int| perceived_luma(math, s[i]);
    let gx = slope(math, l(0), l(3), l(5), l(2), l(4), l(7));
    let gy = slope(math, l(0), l(1), l(2), l(5), l(6), l(7));
    root(math, sum(math, product(math, gx, gx), product(math, gy, gy)))
}

fn edge_of<M: Arith>(math: &M, s: &Vec<Rgba32F>) -> (r: u32)
    requires
        math.wf(),
        s@.len() == 8,
    ensures
        r == edge_strength(math, s@),
{
    proof {
        reveal(edge_strength);
    }
    let l0: u32 = perceptual_luma(math, s[0]);
    let l1: u32 = perceptual_luma(math, s[1]);
    let l2: u32 = perceptual_luma(math, s[2]);
    let l3: u32 = perceptual_luma(math, s[3]);
    let l4: u32 = perceptual_luma(math, s[4]);
    let l5: u32 = perceptual_luma(math, s[5]);
    let l6: u32 = perceptual_luma(math, s[6]);
    let l7: u32 = perceptual_luma(math, s[7]);
    let gx: u32 = sobel(math, l0, l3, l5, l2, l4, l7);
    let gy: u32 = sobel(math, l0, l1, l2, l5, l6, l7);
    sqrt(math, plus(math, times(math, gx, gx), times(math, gy, gy)))
}

/// The pixels of a rectangle that come before `(x, y)`, row by row.
spec fn scanned(region: Rect, x: int, y: int, p: IVec2) -> bool {
    region.has(p.x as int, p.y as int) && (p.y < y || (p.y == y && p.x < x))
}

/// The field holds, for each pixel of `region` with `i32` coordinates, once, its
/// gradient magnitude.
pub open spec fn is_field<M: Arith>(
    math: &M,
    m: Map<(i32, i32), Seq<Rgba32F>>,
    region: Rect,
    field: Seq<(IVec2, u32)>,
) -> bool {
    &&& forall|i: int|
        0 <= i < field.len() ==> region.has((#[trigger] field[i]).0.x as int, field[i].0.y as int)
            && field[i].1 == edge_strength(math, around(m, field[i].0))
    &&& forall|i: int, j: int|
        0 <= i < j < field.len() ==> (#[trigger] field[i]).0.y < (#[trigger] field[j]).0.y || (
        field[i].0.y == field[j].0.y && field[i].0.x < field[j].0.x)
    &&& forall|p: IVec2| #[trigger]
        region.has(p.x as int, p.y as int) ==> exists|i: int|
            0 <= i < field.len() && (#[trigger] field[i]).0 == p
}

spec fn field_so_far<M: Arith>(
    math: &M,
    m: Map<(i32, i32), Seq<Rgba32F>>,
    region: Rect,
    field: Seq<(IVec2, u32)>,
    x: int,
    y: int,
) -> bool {
    &&& forall|i: int|
        0 <= i < field.len() ==> scanned(region, x, y, (#[trigger] field[i]).0) && field[i].1
            == edge_strength(math, around(m, field[i].0))
    &&& forall|i: int, j: int|
        0 <= i < j < field.len() ==> (#[trigger] field[i]).0.y < (#[trigger] field[j]).0.y || (
        field[i].0.y == field[j].0.y && field[i].0.x < field[j].0.x)
    &&& forall|p: IVec2| #[trigger]
        scanned(region, x, y, p) ==> exists|i: int|
            0 <= i < field.len() && (#[trigger] field[i]).0 == p
}

/// Compute the gradient-magnitude field of `source` over `region`, row by row.
///
/// Pixels beyond the buffer's occupied bounds are treated as their nearest
/// neighbour within them. Used by the magnetic lasso to find edges to snap to.
pub fn edge_magnitude<M: Arith>(
    math: &M,
    source: &TiledBuffer,
    region: Rect,
) -> (field: Vec<(IVec2, u32)>)
    requires
        math.wf(),
        source.wf(),
    ensures
        is_field(math, source@, region, field@),
{
    let mut field: Vec<(IVec2, u32)> = Vec::new();
    let right: i64 = if region.right() > 0x8000_0000 { 0x8000_0000 } else { region.right() };
    let bottom: i64 = if region.bottom() > 0x8000_0000 { 0x8000_0000 } else { region.bottom() };
    let bounds: Option<Rect> = source.bounds();
    let mut y: i64 = region.y as i64;
    while y < bottom
        invariant
            bounds == tile_bounds(source@),
            math.wf(),
            source.wf(),
            right == (if region.right_edge() > 0x8000_0000 { 0x8000_0000 } else {
                region.right_edge()
            }),
            bottom == (if region.bottom_edge() > 0x8000_0000 { 0x8000_0000 } else {
                region.bottom_edge()
            }),
            region.y <= y <= bottom,
            field_so_far(math, source@, region, field@, region.x as int, y as int),
        decreases bottom - y,
    {
        let mut x: i64 = region.x as i64;
        while x < right
            invariant
                bounds == tile_bounds(source@),
                math.wf(),
                source.wf(),
                right == (if region.right_edge() > 0x8000_0000 { 0x8000_0000 } else {
                    region.right_edge()
                }),
                bottom == (if region.bottom_edge() > 0x8000_0000 { 0x8000_0000 } else {
                    region.bottom_edge()
                }),
                region.y <= y < bottom,
                region.x <= x <= right,
                field_so_far(math, source@, region, field@, x as int, y as int),
            decreases right - x,
        {
            let p: IVec2 = IVec2::new(x as i32, y as i32);
            let mut near: Vec<Rgba32F> = Vec::new();
            near.push(read_near(source, bounds, x - 1, y - 1));
            near.push(read_near(source, bounds, x, y - 1));
            near.push(read_near(source, bounds, x + 1, y - 1));
            near.push(read_near(source, bounds, x - 1, y));
            near.push(read_near(source, bounds, x + 1, y));
            near.push(read_near(source, bounds, x - 1, y + 1));
            near.push(read_near(source, bounds, x, y + 1));
            near.push(read_near(source, bounds, x + 1, y + 1));
            assert(near@ =~= around(source@, p));
            let ghost before = field@;
            let mag: u32 = edge_of(math, &near);
            field.push((p, mag));
            proof {
                assert forall|q: IVec2| #[trigger] scanned(
                    region,
                    x + 1,
                    y as int,
                    q,
                ) implies exists|i: int| 0 <= i < field@.len() && (#[trigger] field@[i]).0 == q by {
                    if q == p {
                        assert(field@[before.len() as int].0 == q);
                    } else {
                        assert(scanned(region, x as int, y as int, q));
                        let i = choose|i: int| 0 <= i < before.len() && (#[trigger] before[i]).0 == q;
                        assert(field@[i].0 == q);
                    }
                }
                assert forall|i: int| 0 <= i < field@.len() implies scanned(
                    region,
                    x + 1,
                    y as int,
                    (#[trigger] field@[i]).0,
                ) && field@[i].1 == edge_strength(math, around(source@, field@[i].0)) by {
                    if i < before.len() {
                        assert(before[i] == field@[i]);
                    }
                }
                assert forall|i: int, j: int| 0 <= i < j < field@.len() implies (#[trigger] field@[i]).0.y
                    < (#[trigger] field@[j]).0.y || (field@[i].0.y == field@[j].0.y
                    && field@[i].0.x < field@[j].0.x) by {
                    assert(before[i] == field@[i]);
                    if j < before.len() {
                        assert(before[j] == field@[j]);
                    }
                }
            }
            x = x + 1;
        }
        proof {
            assert forall|q: IVec2| #[trigger] scanned(
                region,
                region.x as int,
                y + 1,
                q,
            ) implies exists|i: int| 0 <= i < field@.len() && (#[trigger] field@[i]).0 == q by {
                assert(scanned(region, x as int, y as int, q));
            }
        }
        y = y + 1;
    }
    proof {
        assert forall|p: IVec2| #[trigger] region.has(p.x as int, p.y as int) implies exists|i: int|
            0 <= i < field@.len() && (#[trigger] field@[i]).0 == p by {
            assert(scanned(region, region.x as int, y as int, p));
        }
    }
    field
}

/// An entry is near enough and strong enough to snap to.
pub open spec fn snaps(e: (IVec2, u32), center: IVec2, radius: u32, threshold: u32) -> bool {
    in_disk(e.0, center, Some(radius)) && less(threshold, e.1)
}

/// The first strongest one of the entries that may be snapped to.
pub open spec fn best_so_far(
    field: Seq<(IVec2, u32)>,
    center: IVec2,
    radius: u32,
    threshold: u32,
) -> Option<int>
    decreases field.len(),
{
    if field.len() == 0 {
        None
    } else {
        let n = field.len() - 1;
        let prior = best_so_far(field.drop_last(), center, radius, threshold);
        if !snaps(field[n], center, radius, threshold) {
            prior
        } else {
            match prior {
                None => Some(n),
                Some(i) => if less(field[i].1, field[n].1) { Some(n) } else { Some(i) },
            }
        }
    }
}

/// How strong the edge at `p` is: what the first entry for it says, or zero if there is
/// none.
pub open spec fn strength_at(field: Seq<(IVec2, u32)>, p: IVec2) -> u32
    decreases field.len(),
{
    if field.len() == 0 {
        F_ZERO
    } else if field[0].0 == p {
        field[0].1
    } else {
        strength_at(field.drop_first(), p)
    }
}

/// Where the lasso snaps to: the strongest edge in the disk, or the center if nothing
/// clears the threshold.
pub open spec fn snapped(
    field: Seq<(IVec2, u32)>,
    center: IVec2,
    radius: u32,
    threshold: u32,
) -> (IVec2, u32) {
    match best_so_far(field, center, radius, threshold) {
        Some(k) => field[k],
        None => (center, strength_at(field, center)),
    }
}

/// What is snapped to clears the threshold within the disk, and nothing in the
/// disk is stronger.
pub proof fn snapping_takes_the_strongest_edge(
    field: Seq<(IVec2, u32)>,
    center: IVec2,
    radius: u32,
    threshold: u32,
    j: int,
)
    requires
        0 <= j < field.len(),
        snaps(field[j], center, radius, threshold),
    ensures
        best_so_far(field, center, radius, threshold) matches Some(i) && 0 <= i < field.len()
            && snaps(field[i], center, radius, threshold) && !less(field[i].1, field[j].1),
    decreases field.len(),
{
    let n = field.len() - 1;
    let shorter = field.drop_last();
    if j < n {
        assert(shorter[j] == field[j]);
        snapping_takes_the_strongest_edge(shorter, center, radius, threshold, j);
        let i = best_so_far(shorter, center, radius, threshold)->0;
        assert(shorter[i] == field[i]);
    } else {
        lemma_best_in_range(shorter, center, radius, threshold);
        if let Some(i) = best_so_far(shorter, center, radius, threshold) {
            assert(shorter[i] == field[i]);
        }
    }
}

proof fn lemma_best_in_range(
    field: Seq<(IVec2, u32)>,
    center: IVec2,
    radius: u32,
    threshold: u32,
)
    ensures
        best_so_far(field, center, radius, threshold) matches Some(i) ==> 0 <= i < field.len()
            && snaps(field[i], center, radius, threshold),
    decreases field.len(),
{
    if field.len() > 0 {
        let shorter = field.drop_last();
        lemma_best_in_range(shorter, center, radius, threshold);
        if let Some(i) = best_so_far(shorter, center, radius, threshold) {
            assert(shorter[i] == field[i]);
        }
    }
}

/// Find the strongest-edge pixel within `radius` (Euclidean) of `center` in
/// `field`, returning it if its magnitude exceeds `contrast_threshold`.
///
/// `field` is the list returned by [`edge_magnitude`]. Returns `center` if no pixel in
/// the disk clears the threshold, with its magnitude in the field, or zero if the field
/// does not hold it.
pub fn snap_to_edge(
    field: &Vec<(IVec2, u32)>,
    center: IVec2,
    radius: u32,
    contrast_threshold: u32,
) -> (r: (IVec2, u32))
    ensures
        r == snapped(field@, center, radius, contrast_threshold),
{
    let mut best: Option<usize> = None;
    let mut i: usize = 0;
    assert(field@.take(0) =~= Seq::empty());
    while i < field.len()
        invariant
            i <= field@.len(),
            match best {
                Some(k) => k < i && best_so_far(
                    field@.take(i as int),
                    center,
                    radius,
                    contrast_threshold,
                ) == Some(k as int),
                None => best_so_far(field@.take(i as int), center, radius, contrast_threshold)
                    == None::<int>,
            },
        decreases field@.len() - i,
    {
        let p: IVec2 = field[i].0;
        let mag: u32 = field[i].1;
        proof {
            let t = field@.take(i + 1);
            assert(t.drop_last() =~= field@.take(i as int));
            assert(t[i as int] == field@[i as int]);
            if let Some(k) = best {
                assert(t[k as int] == field@[k as int]);
            }
        }
        if within_radius(p, center, Some(radius)) && is_less(contrast_threshold, mag) {
            match best {
                None => {
                    best = Some(i);
                },
                Some(k) => {
                    if is_less(field[k].1, mag) {
                        best = Some(i);
                    }
                },
            }
        }
        i = i + 1;
    }
    assert(field@.take(i as int) =~= field@);
    match best {
        Some(k) => field[k],
        None => (center, find_strength(field, center)),
    }
}

fn find_strength(field: &Vec<(IVec2, u32)>, p: IVec2) -> (r: u32)
    ensures
        r == strength_at(field@, p),
{
    let mut i: usize = 0;
    assert(field@.skip(0) =~= field@);
    while i < field.len()
        invariant
            i <= field@.len(),
            strength_at(field@, p) == strength_at(field@.skip(i as int), p),
        decreases field@.len() - i,
    {
        assert(field@.skip(i as int)[0] == field@[i as int]);
        assert(field@.skip(i as int).drop_first() =~= field@.skip(i + 1));
        if field[i].0 == p {
            return field[i].1;
        }
        i = i + 1;
    }
    F_ZERO
}

/// Without an edge to snap to, the lasso stays at the center.
pub proof fn without_an_edge_the_center_stays(
    field: Seq<(IVec2, u32)>,
    center: IVec2,
    radius: u32,
    threshold: u32,
)
    requires
        forall|j: int|
            0 <= j < field.len() ==> !snaps(#[trigger] field[j], center, radius, threshold),
    ensures
        snapped(field, center, radius, threshold).0 == center,
{
    lemma_best_in_range(field, center, radius, threshold);
}

/// The number nearest to a difference of coordinates.
pub open spec fn gap_of(a: i32, b: i32) -> u32 {
    number_of_int(a - b)
}

pub(crate) fn gap(a: i32, b: i32) -> (r: u32)
    ensures
        r == gap_of(a, b),
{
    from_i64(a as i64 - b as i64)
}

/// The length of a vector.
pub open spec fn hypotenuse<M: Arith>(m: &M, x: u32, y: u32) -> u32 {
    root(m, sum(m, product(m, x, x), product(m, y, y)))
}

/// The length of a vector.
pub(crate) fn hypot<M: Arith>(m: &M, x: u32, y: u32) -> (out: u32)
    requires
        m.wf(),
    ensures
        out == hypotenuse(m, x, y),
{
    sqrt(m, plus(m, times(m, x, x), times(m, y, y)))
}

/// The distance of a point from the line through two others, or from the first of
/// them where they are one.
#[verifier::opaque]
pub open spec fn line_distance<M: Arith>(m: &M, p: IVec2, a: IVec2, b: IVec2) -> u32 {
    let dx: u32 = gap_of(b.x, a.x);
    let dy: u32 = gap_of(b.y, a.y);
    let len2: u32 = sum(m, product(m, dx, dx), product(m, dy, dy));
    if less(len2, F_TINY) {
        hypotenuse(m, gap_of(p.x, a.x), gap_of(p.y, a.y))
    } else {
        let t: u32 = quotient(
            m,
            sum(m, product(m, gap_of(p.x, a.x), dx), product(m, gap_of(p.y, a.y), dy)),
            len2,
        );
        let px: u32 = sum(m, number_of_i32(a.x), product(m, t, dx));
        let py: u32 = sum(m, number_of_i32(a.y), product(m, t, dy));
        hypotenuse(m, difference(m, number_of_i32(p.x), px), difference(m, number_of_i32(p.y), py))
    }
}

/// The distance of a point from the line through two others, or from the first of
/// them where they are one.
fn perp_dist<M: Arith>(m: &M, p: IVec2, a: IVec2, b: IVec2) -> (out: u32)
    requires
        m.wf(),
    ensures
        out == line_distance(m, p, a, b),
{
    proof {
        reveal(line_distance);
    }
    let dx: u32 = gap(b.x, a.x);
    let dy: u32 = gap(b.y, a.y);
    let len2: u32 = plus(m, times(m, dx, dx), times(m, dy, dy));
    if is_less(len2, F_TINY) {
        hypot(m, gap(p.x, a.x), gap(p.y, a.y))
    } else {
        let t: u32 = over(
            m,
            plus(m, times(m, gap(p.x, a.x), dx), times(m, gap(p.y, a.y), dy)),
            len2,
        );
        let px: u32 = plus(m, from_i32(a.x), times(m, t, dx));
        let py: u32 = plus(m, from_i32(a.y), times(m, t, dy));
        hypot(m, minus(m, from_i32(p.x), px), minus(m, from_i32(p.y), py))
    }
}

/// The largest distance of the points before `n` from the line between the ends,
/// and the first point that has it; zero and the start if none has more.
pub open spec fn farthest<M: Arith>(
    math: &M,
    points: Seq<IVec2>,
    n: int,
) -> (u32, int)
    decreases n,
{
    if n <= 1 {
        (F_ZERO, 0)
    } else {
        let prior = farthest(math, points, n - 1);
        let d = line_distance(math, points[n - 1], points[0], points.last());
        if less(prior.0, d) { (d, n - 1) } else { prior }
    }
}

/// A path without the points that lie nearer than `epsilon` to the line between
/// the ends of their part of it.
pub open spec fn simplified<M: Arith>(
    math: &M,
    points: Seq<IVec2>,
    epsilon: u32,
) -> Seq<IVec2>
    decreases points.len(),
{
    if points.len() < 3 {
        points
    } else {
        let f = farthest(math, points, points.len() - 1);
        if less(f.0, epsilon) {
            seq![points[0], points.last()]
        } else if 0 < f.1 < points.len() - 1 {
            simplified(math, points.take(f.1 + 1), epsilon).drop_last() + simplified(
                math,
                points.skip(f.1),
                epsilon,
            )
        } else {
            points
        }
    }
}

/// A simplified path starts and ends where the path does, and names only points
/// of the path.
pub proof fn simplifying_keeps_the_ends<M: Arith>(
    math: &M,
    points: Seq<IVec2>,
    epsilon: u32,
)
    requires
        points.len() > 0,
    ensures
        simplified(math, points, epsilon).len() > 0,
        simplified(math, points, epsilon)[0] == points[0],
        simplified(math, points, epsilon).last() == points.last(),
        forall|i: int|
            0 <= i < simplified(math, points, epsilon).len() ==> points.contains(
                #[trigger] simplified(math, points, epsilon)[i],
            ),
        simplified(math, points, epsilon).len() <= points.len(),
        points.len() >= 2 ==> simplified(math, points, epsilon).len() >= 2,
    decreases points.len(),
{
    if points.len() >= 3 {
        let f = farthest(math, points, points.len() - 1);
        if less(f.0, epsilon) {
            assert(points.contains(points[0]));
            assert(points.contains(points.last()));
        } else if 0 < f.1 < points.len() - 1 {
            let (a, b) = (points.take(f.1 + 1), points.skip(f.1));
            simplifying_keeps_the_ends(math, a, epsilon);
            simplifying_keeps_the_ends(math, b, epsilon);
            let (u, v) = (simplified(math, a, epsilon), simplified(math, b, epsilon));
            let r = u.drop_last() + v;
            assert forall|i: int| 0 <= i < r.len() implies points.contains(#[trigger] r[i]) by {
                if i < u.len() - 1 {
                    assert(a.contains(u[i]));
                    let k = choose|k: int| 0 <= k < a.len() && a[k] == u[i];
                    assert(points[k] == u[i]);
                } else {
                    let w = v[i - (u.len() - 1)];
                    assert(b.contains(w));
                    let k = choose|k: int| 0 <= k < b.len() && b[k] == w;
                    assert(points[k + f.1] == w);
                }
            }
        }
    }
    assert forall|i: int| 0 <= i < points.len() implies points.contains(#[trigger] points[i]) by {}
}

/// The point lies nearer than `epsilon` to the line through two others, as far as
/// its distance is a number.
pub open spec fn near<M: Arith>(math: &M, p: IVec2, a: IVec2, b: IVec2, epsilon: u32) -> bool {
    nan(line_distance(math, p, a, b)) || less(line_distance(math, p, a, b), epsilon)
}

proof fn lemma_farthest<M: Arith>(math: &M, points: Seq<IVec2>, n: int, k: int)
    requires
        1 <= k < n <= points.len(),
    ensures
        !nan(farthest(math, points, n).0),
        !less(
            farthest(math, points, n).0,
            line_distance(math, points[k], points[0], points.last()),
        ),
    decreases n,
{
    if k < n - 1 {
        lemma_farthest(math, points, n - 1, k);
    } else if n > 2 {
        lemma_farthest(math, points, n - 1, 1);
    } else {
        assert(farthest(math, points, 1) == (F_ZERO, 0int));
    }
}

/// Simplifying a path drops only vertices that lie nearer than `epsilon` to the
/// line between their neighbours in the simplified path.
pub proof fn simplifying_drops_only_near_vertices<M: Arith>(
    math: &M,
    points: Seq<IVec2>,
    epsilon: u32,
    k: int,
)
    requires
        0 <= k < points.len(),
    ensures
        simplified(math, points, epsilon).contains(points[k]) || exists|i: int|
            0 <= i < simplified(math, points, epsilon).len() - 1 && near(
                math,
                points[k],
                #[trigger] simplified(math, points, epsilon)[i],
                simplified(math, points, epsilon)[i + 1],
                epsilon,
            ),
    decreases points.len(),
{
    let s = simplified(math, points, epsilon);
    if points.len() >= 3 {
        let f = farthest(math, points, points.len() - 1);
        if less(f.0, epsilon) {
            if k == 0 {
                assert(s[0] == points[k]);
            } else if k == points.len() - 1 {
                assert(s[1] == points[k]);
            } else {
                lemma_farthest(math, points, points.len() - 1, k);
                assert(near(math, points[k], s[0], s[1], epsilon));
            }
        } else if 0 < f.1 < points.len() - 1 {
            let (a, b) = (points.take(f.1 + 1), points.skip(f.1));
            simplifying_keeps_the_ends(math, a, epsilon);
            simplifying_keeps_the_ends(math, b, epsilon);
            let (u, v) = (simplified(math, a, epsilon), simplified(math, b, epsilon));
            let n: int = u.len() - 1;
            assert(s == u.drop_last() + v);
            assert forall|i: int| 0 <= i < u.len() implies s[i] == #[trigger] u[i] by {}
            assert forall|i: int| 0 <= i < v.len() implies s[i + n] == #[trigger] v[i] by {}
            if k <= f.1 {
                simplifying_drops_only_near_vertices(math, a, epsilon, k);
                if u.contains(a[k]) {
                    let i = choose|i: int| 0 <= i < u.len() && u[i] == a[k];
                    assert(s[i] == points[k]);
                } else {
                    let i = choose|i: int|
                        0 <= i < u.len() - 1 && near(math, a[k], #[trigger] u[i], u[i + 1], epsilon);
                    assert(s[i] == u[i] && s[i + 1] == u[i + 1]);
                }
            } else {
                simplifying_drops_only_near_vertices(math, b, epsilon, k - f.1);
                if v.contains(b[k - f.1]) {
                    let i = choose|i: int| 0 <= i < v.len() && v[i] == b[k - f.1];
                    assert(s[i + n] == points[k]);
                } else {
                    let i = choose|i: int|
                        0 <= i < v.len() - 1 && near(
                            math,
                            b[k - f.1],
                            #[trigger] v[i],
                            v[i + 1],
                            epsilon,
                        );
                    assert(s[i + n] == v[i] && s[i + 1 + n] == v[i + 1]);
                    assert(near(math, points[k], s[i + n], s[(i + n) + 1], epsilon));
                }
            }
        }
    }
}

/// Append the points from `lo` to `hi`.
fn push_part(points: &Vec<IVec2>, lo: usize, hi: usize, out: &mut Vec<IVec2>)
    requires
        lo <= hi < points@.len(),
    ensures
        final(out)@ == old(out)@ + points@.subrange(lo as int, hi + 1),
{
    let ghost start = out@;
    let mut i: usize = lo;
    assert(out@ =~= start + points@.subrange(lo as int, lo as int));
    while i < hi
        invariant
            lo <= i <= hi < points@.len(),
            out@ == start + points@.subrange(lo as int, i as int),
        decreases hi - i,
    {
        out.push(points[i]);
        assert(out@ =~= start + points@.subrange(lo as int, i + 1));
        i = i + 1;
    }
    out.push(points[hi]);
    assert(out@ =~= start + points@.subrange(lo as int, hi + 1));
}

fn simplify_part<M: Arith>(
    math: &M,
    points: &Vec<IVec2>,
    lo: usize,
    hi: usize,
    epsilon: u32,
    out: &mut Vec<IVec2>,
)
    requires
        math.wf(),
        lo <= hi < points@.len(),
    ensures
        final(out)@ == old(out)@ + simplified(
            math,
            points@.subrange(lo as int, hi + 1),
            epsilon,
        ),
    decreases hi - lo,
{
    let ghost part = points@.subrange(lo as int, hi + 1);
    let ghost start = out@;
    if hi - lo < 2 {
        push_part(points, lo, hi, out);
        return;
    }
    let a: IVec2 = points[lo];
    let b: IVec2 = points[hi];
    let mut max_d: u32 = F_ZERO;
    let mut idx: usize = lo;
    let mut i: usize = lo + 1;
    while i < hi
        invariant
            math.wf(),
            lo < i <= hi < points@.len(),
            lo <= idx < i,
            part == points@.subrange(lo as int, hi + 1),
            a == part[0],
            b == part.last(),
            farthest(math, part, i - lo) == (max_d, idx - lo),
        decreases hi - i,
    {
        let d: u32 = perp_dist(math, points[i], a, b);
        assert(part[i - lo] == points@[i as int]);
        if is_less(max_d, d) {
            max_d = d;
            idx = i;
        }
        i = i + 1;
    }
    if is_less(max_d, epsilon) {
        out.push(a);
        out.push(b);
        assert(out@ =~= start + seq![part[0], part.last()]);
    } else if idx > lo {
        simplify_part(math, points, lo, idx, epsilon, out);
        proof {
            assert(part.take(idx - lo + 1) =~= points@.subrange(lo as int, idx + 1));
            assert(part.skip(idx - lo) =~= points@.subrange(idx as int, hi + 1));
            simplifying_keeps_the_ends(math, part.take(idx - lo + 1), epsilon);
        }
        let ghost u = simplified(math, part.take(idx - lo + 1), epsilon);
        let dropped: Option<IVec2> = out.pop();
        assert(out@ =~= start + u.drop_last());
        simplify_part(math, points, idx, hi, epsilon, out);
        assert(out@ =~= start + (u.drop_last() + simplified(
            math,
            part.skip(idx - lo),
            epsilon,
        )));
    } else {
        push_part(points, lo, hi, out);
    }
}

/// Douglas-Peucker-style simplification: drop vertices whose perpendicular
/// distance from the line between their neighbours is below `epsilon`.
///
/// Keeps the path's sharp corners so the snapped polygon tracks real edges.
pub fn simplify_path<M: Arith>(
    math: &M,
    points: Vec<IVec2>,
    epsilon: u32,
) -> (out: Vec<IVec2>)
    requires
        math.wf(),
    ensures
        out@ == simplified(math, points@, epsilon),
{
    if points.len() < 3 {
        return points;
    }
    let mut out: Vec<IVec2> = Vec::new();
    let n: usize = points.len();
    simplify_part(math, &points, 0, n - 1, epsilon, &mut out);
    proof {
        assert(points@.subrange(0, n as int) =~= points@);
        assert(out@ =~= simplified(math, points@, epsilon));
    }
    out
}

} // verus!
