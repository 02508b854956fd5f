//! Rasterization of vector layers: outline strokes and polygon fills.
use vstd::prelude::*;

use crate::buffer::{with_pixel, TiledBuffer};
use crate::coord::{fits_i32, IVec2};
use crate::float_bits::{is_less, less, nearest_i32, round_i32, F_ZERO};
use crate::kernel::Kernel;
use crate::layer::{PathView, VectorData, VectorFill, VectorPath, VectorView};
use crate::pixel::Rgba32F;

verus! {

/// The distance between two coordinates.
pub open spec fn span(a: int, b: int) -> int {
    if a <= b { b - a } else { a - b }
}

/// The coordinate one step from `p` towards `b`.
pub open spec fn toward(p: int, a: int, b: int) -> int {
    if a < b { p + 1 } else { p - 1 }
}

/// The point after `p` on the line from `a` to `b`.
///
/// With `i` columns and `j` rows behind it, a line of `d` columns and `e` rows
/// steps on in x where `2(j+1)d >= (2i+1)e` and in y where `(2j+1)d <= 2(i+1)e`:
/// always to the point nearest to the ideal line.
pub open spec fn next_point(a: (int, int), b: (int, int), p: (int, int)) -> (int, int) {
    let d = span(a.0, b.0);
    let e = span(a.1, b.1);
    let i = span(a.0, p.0);
    let j = span(a.1, p.1);
    (
        if 2 * ((j + 1) * d) >= (2 * i + 1) * e { toward(p.0, a.0, b.0) } else { p.0 },
        if (2 * j + 1) * d <= 2 * ((i + 1) * e) { toward(p.1, a.1, b.1) } else { p.1 },
    )
}

/// `p` lies in the box between `a` and `b`.
pub open spec fn in_box(a: (int, int), b: (int, int), p: (int, int)) -> bool {
    &&& span(a.0, p.0) + span(p.0, b.0) == span(a.0, b.0)
    &&& span(a.1, p.1) + span(p.1, b.1) == span(a.1, b.1)
}

/// The points of the line from `a` to `b`, from `p` on.
pub open spec fn line_from(a: (int, int), b: (int, int), p: (int, int)) -> Seq<(int, int)>
    decreases span(p.0, b.0) + span(p.1, b.1),
    when in_box(a, b, p)
{
    if p == b {
        seq![p]
    } else {
        proof {
            lemma_next_point(a, b, p);
        }
        seq![p] + line_from(a, b, next_point(a, b, p))
    }
}

/// Each step stays in the box, moves at most one column and one row, and comes
/// nearer to the end.
pub proof fn lemma_next_point(a: (int, int), b: (int, int), p: (int, int))
    requires
        in_box(a, b, p),
        p != b,
    ensures
        in_box(a, b, next_point(a, b, p)),
        span(next_point(a, b, p).0, b.0) + span(next_point(a, b, p).1, b.1) < span(p.0, b.0) + span(
            p.1,
            b.1,
        ),
        span(p.0, next_point(a, b, p).0) <= 1,
        span(p.1, next_point(a, b, p).1) <= 1,
{
    let d = span(a.0, b.0);
    let e = span(a.1, b.1);
    let i = span(a.0, p.0);
    let j = span(a.1, p.1);
    if i == d {
        assert(2 * ((j + 1) * d) < (2 * i + 1) * e) by (nonlinear_arith)
            requires
                i == d,
                0 <= d,
                0 <= j < e,
        ;
        assert((2 * j + 1) * d <= 2 * ((i + 1) * e)) by (nonlinear_arith)
            requires
                i == d,
                0 <= d,
                0 <= j < e,
        ;
    } else if j == e {
        assert((2 * j + 1) * d > 2 * ((i + 1) * e)) by (nonlinear_arith)
            requires
                j == e,
                0 <= e,
                0 <= i < d,
        ;
        assert(2 * ((j + 1) * d) >= (2 * i + 1) * e) by (nonlinear_arith)
            requires
                j == e,
                0 <= e,
                0 <= i < d,
        ;
    } else {
        assert(2 * ((j + 1) * d) >= (2 * i + 1) * e || (2 * j + 1) * d <= 2 * ((i + 1) * e))
            by (nonlinear_arith)
            requires
                0 <= i < d,
                0 <= j < e,
        ;
    }
}

/// A line starts at its start, ends at its end, stays in the box between them,
/// and each point touches the next.
pub proof fn lines_join_their_ends(a: (int, int), b: (int, int), p: (int, int))
    requires
        in_box(a, b, p),
    ensures
        ({
            let l = line_from(a, b, p);
            &&& l.len() >= 1
            &&& l[0] == p
            &&& l.last() == b
            &&& forall|k: int| 0 <= k < l.len() ==> in_box(a, b, #[trigger] l[k])
            &&& forall|k: int|
                0 <= k < l.len() - 1 ==> span((#[trigger] l[k]).0, l[k + 1].0) <= 1 && span(
                    l[k].1,
                    l[k + 1].1,
                ) <= 1
        }),
    decreases span(p.0, b.0) + span(p.1, b.1),
{
    if p != b {
        lemma_next_point(a, b, p);
        let n = next_point(a, b, p);
        lines_join_their_ends(a, b, n);
        let l = line_from(a, b, p);
        let m = line_from(a, b, n);
        assert(l =~= seq![p] + m);
        assert forall|k: int| 0 <= k < l.len() implies in_box(a, b, #[trigger] l[k]) by {
            if k > 0 {
                assert(l[k] == m[k - 1]);
            }
        }
        assert forall|k: int| 0 <= k < l.len() - 1 implies span((#[trigger] l[k]).0, l[k + 1].0)
            <= 1 && span(l[k].1, l[k + 1].1) <= 1 by {
            assert(l[k + 1] == m[k]);
            if k > 0 {
                assert(l[k] == m[k - 1]);
                assert(m[k - 1 + 1] == m[k]);
            }
        }
    }
}

fn span_i64(a: i64, b: i64) -> (r: i64)
    requires
        -0x1_0000_0000_0000 <= a <= 0x1_0000_0000_0000,
        -0x1_0000_0000_0000 <= b <= 0x1_0000_0000_0000,
    ensures
        r == span(a as int, b as int),
{
    if a <= b { b - a } else { a - b }
}

/// Points as whole numbers.
pub open spec fn points(v: Seq<(i64, i64)>) -> Seq<(int, int)> {
    v.map_values(|p: (i64, i64)| (p.0 as int, p.1 as int))
}

/// The points of a line.
pub fn bresenham_line(a: (i64, i64), b: (i64, i64)) -> (out: Vec<(i64, i64)>)
    requires
        -0x4_0000_0000 <= a.0 <= 0x4_0000_0000,
        -0x4_0000_0000 <= a.1 <= 0x4_0000_0000,
        -0x4_0000_0000 <= b.0 <= 0x4_0000_0000,
        -0x4_0000_0000 <= b.1 <= 0x4_0000_0000,
    ensures
        points(out@) == line_from(
            (a.0 as int, a.1 as int),
            (b.0 as int, b.1 as int),
            (a.0 as int, a.1 as int),
        ),
{
    let ghost ga = (a.0 as int, a.1 as int);
    let ghost gb = (b.0 as int, b.1 as int);
    let d: i64 = span_i64(a.0, b.0);
    let e: i64 = span_i64(a.1, b.1);
    let mut x: i64 = a.0;
    let mut y: i64 = a.1;
    let mut out: Vec<(i64, i64)> = Vec::new();
    assert(points(out@) + line_from(ga, gb, ga) =~= line_from(ga, gb, ga));
    while x != b.0 || y != b.1
        invariant
            -0x4_0000_0000 <= a.0 <= 0x4_0000_0000,
            -0x4_0000_0000 <= a.1 <= 0x4_0000_0000,
            -0x4_0000_0000 <= b.0 <= 0x4_0000_0000,
            -0x4_0000_0000 <= b.1 <= 0x4_0000_0000,
            ga == (a.0 as int, a.1 as int),
            gb == (b.0 as int, b.1 as int),
            d == span(ga.0, gb.0),
            e == span(ga.1, gb.1),
            in_box(ga, gb, (x as int, y as int)),
            points(out@) + line_from(ga, gb, (x as int, y as int)) == line_from(ga, gb, ga),
        decreases span(x as int, gb.0) + span(y as int, gb.1),
    {
        let ghost p = (x as int, y as int);
        let ghost before = out@;
        out.push((x, y));
        proof {
            lemma_next_point(ga, gb, p);
            assert(points(out@) =~= points(before).push(p));
            assert(points(out@) + line_from(ga, gb, next_point(ga, gb, p)) =~= points(before)
                + line_from(ga, gb, p));
        }
        let i: i128 = span_i64(a.0, x) as i128;
        let j: i128 = span_i64(a.1, y) as i128;
        proof {
            assert((j + 1) * d <= 0x10_0000_0000 * 0x10_0000_0000 && (j + 1) * d >= 0)
                by (nonlinear_arith)
                requires
                    0 <= j < 0x10_0000_0000,
                    0 <= d <= 0x10_0000_0000,
            ;
            assert((2 * i + 1) * e <= 0x20_0000_0000 * 0x10_0000_0000 && (2 * i + 1) * e >= 0)
                by (nonlinear_arith)
                requires
                    0 <= i < 0x10_0000_0000,
                    0 <= e <= 0x10_0000_0000,
            ;
            assert((2 * j + 1) * d <= 0x20_0000_0000 * 0x10_0000_0000 && (2 * j + 1) * d >= 0)
                by (nonlinear_arith)
                requires
                    0 <= j < 0x10_0000_0000,
                    0 <= d <= 0x10_0000_0000,
            ;
            assert((i + 1) * e <= 0x10_0000_0000 * 0x10_0000_0000 && (i + 1) * e >= 0)
                by (nonlinear_arith)
                requires
                    0 <= i < 0x10_0000_0000,
                    0 <= e <= 0x10_0000_0000,
            ;
        }
        let step_x: bool = 2 * ((j + 1) * d as i128) >= (2 * i + 1) * e as i128;
        let step_y: bool = (2 * j + 1) * d as i128 <= 2 * ((i + 1) * e as i128);
        if step_x {
            x = if a.0 < b.0 { x + 1 } else { x - 1 };
        }
        if step_y {
            y = if a.1 < b.1 { y + 1 } else { y - 1 };
        }
        assert((x as int, y as int) == next_point(ga, gb, p));
    }
    let ghost before = out@;
    out.push((x, y));
    proof {
        assert(points(out@) =~= points(before).push(gb));
        assert(points(out@) =~= points(before) + line_from(ga, gb, gb));
    }
    out
}

/// A map of tiles after the points of `pts` within the `i32` coordinates were set
/// to `px`, in order.
pub open spec fn with_points(
    m: Map<(i32, i32), Seq<Rgba32F>>,
    pts: Seq<(int, int)>,
    px: Rgba32F,
) -> Map<(i32, i32), Seq<Rgba32F>>
    decreases pts.len(),
{
    if pts.len() == 0 {
        m
    } else {
        let p = pts.last();
        let r = with_points(m, pts.drop_last(), px);
        if fits_i32(p.0) && fits_i32(p.1) {
            with_pixel(r, IVec2 { x: p.0 as i32, y: p.1 as i32 }, px)
        } else {
            r
        }
    }
}

/// Pixel positions as points.
pub open spec fn positions(v: Seq<IVec2>) -> Seq<(int, int)> {
    v.map_values(|p: IVec2| (p.x as int, p.y as int))
}

fn plot(buf: &mut TiledBuffer, pts: &Vec<(i64, i64)>, px: Rgba32F)
    requires
        old(buf).wf(),
    ensures
        final(buf).wf(),
        final(buf)@ == with_points(old(buf)@, points(pts@), px),
{
    let mut i: usize = 0;
    assert(points(pts@).take(0) =~= Seq::empty());
    while i < pts.len()
        invariant
            buf.wf(),
            i <= pts@.len(),
            buf@ == with_points(old(buf)@, points(pts@).take(i as int), px),
        decreases pts@.len() - i,
    {
        let p: (i64, i64) = pts[i];
        proof {
            assert(points(pts@).take(i + 1).drop_last() =~= points(pts@).take(i as int));
            assert(points(pts@).take(i + 1).last() == (p.0 as int, p.1 as int));
        }
        if -0x8000_0000 <= p.0 && p.0 <= 0x7fff_ffff && -0x8000_0000 <= p.1 && p.1 <= 0x7fff_ffff {
            buf.set_pixel(IVec2::new(p.0 as i32, p.1 as i32), px);
        }
        i = i + 1;
    }
    assert(points(pts@).take(i as int) =~= points(pts@));
}

fn plot_positions(buf: &mut TiledBuffer, pts: &Vec<IVec2>, px: Rgba32F)
    requires
        old(buf).wf(),
    ensures
        final(buf).wf(),
        final(buf)@ == with_points(old(buf)@, positions(pts@), px),
{
    let mut i: usize = 0;
    assert(positions(pts@).take(0) =~= Seq::empty());
    while i < pts.len()
        invariant
            buf.wf(),
            i <= pts@.len(),
            buf@ == with_points(old(buf)@, positions(pts@).take(i as int), px),
        decreases pts@.len() - i,
    {
        let p: IVec2 = pts[i];
        proof {
            assert(positions(pts@).take(i + 1).drop_last() =~= positions(pts@).take(i as int));
            assert(positions(pts@).take(i + 1).last() == (p.x as int, p.y as int));
        }
        buf.set_pixel(p, px);
        i = i + 1;
    }
    assert(positions(pts@).take(i as int) =~= positions(pts@));
}

/// How far beside the path, and on which side, line number `k` of a stroke runs:
/// 0, 1, -1, 2, -2 and so on.
pub open spec fn side_of(k: int) -> int {
    if k == 0 {
        0
    } else if k % 2 == 1 {
        (k + 1) / 2
    } else {
        -((k + 1) / 2)
    }
}

/// Line number `k` of the stroke of the segment from `a` to `b`.
pub open spec fn stroke_line<K: Kernel>(kern: &K, a: IVec2, b: IVec2, k: int) -> Seq<(int, int)> {
    let n = kern.normal_of(a, b);
    let ox = clip_unit(n.x as int) * side_of(k);
    let oy = clip_unit(n.y as int) * side_of(k);
    line_from((a.x + ox, a.y + oy), (b.x + ox, b.y + oy), (a.x + ox, a.y + oy))
}

/// A direction is at most one pixel long along each axis.
pub open spec fn clip_unit(v: int) -> int {
    if v < -1 { -1 } else if v > 1 { 1 } else { v }
}

/// The first `n` lines of the stroke of a segment, drawn.
pub open spec fn segment_drawn<K: Kernel>(
    kern: &K,
    m: Map<(i32, i32), Seq<Rgba32F>>,
    a: IVec2,
    b: IVec2,
    n: int,
    px: Rgba32F,
) -> Map<(i32, i32), Seq<Rgba32F>>
    decreases n,
{
    if n <= 0 {
        m
    } else {
        with_points(
            segment_drawn(kern, m, a, b, n - 1, px),
            stroke_line(kern, a, b, n - 1),
            px,
        )
    }
}

/// The number of segments of a path.
pub open spec fn segments(p: PathView) -> int {
    if p.closed { p.vertices.len() as int } else { p.vertices.len() - 1 }
}

/// The first `n` segments of a path, drawn.
pub open spec fn stroke_drawn<K: Kernel>(
    kern: &K,
    m: Map<(i32, i32), Seq<Rgba32F>>,
    p: PathView,
    n: int,
) -> Map<(i32, i32), Seq<Rgba32F>>
    decreases n,
{
    if n <= 0 {
        m
    } else {
        let a = p.vertices[n - 1];
        let b = p.vertices[n % p.vertices.len() as int];
        segment_drawn(
            kern,
            stroke_drawn(kern, m, p, n - 1),
            a,
            b,
            nearest_i32(p.width),
            p.color,
        )
    }
}

/// A path, drawn: its fill, if it has one and is an area, below its stroke, if it
/// has one.
pub open spec fn path_drawn<K: Kernel>(
    kern: &K,
    m: Map<(i32, i32), Seq<Rgba32F>>,
    p: PathView,
) -> Map<(i32, i32), Seq<Rgba32F>> {
    if p.vertices.len() < 2 {
        m
    } else {
        let f = match p.fill {
            VectorFill::Solid(c) => if less(F_ZERO, c.a) && p.vertices.len() >= 3 {
                with_points(m, positions(kern.filled(p.vertices)), c)
            } else {
                m
            },
            VectorFill::NoFill => m,
        };
        if less(F_ZERO, p.color.a) && less(F_ZERO, p.width) {
            stroke_drawn(kern, f, p, segments(p))
        } else {
            f
        }
    }
}

/// Paths, drawn in order.
pub open spec fn paths_drawn<K: Kernel>(kern: &K, paths: Seq<PathView>) -> Map<
    (i32, i32),
    Seq<Rgba32F>,
>
    decreases paths.len(),
{
    if paths.len() == 0 {
        Map::empty()
    } else {
        path_drawn(kern, paths_drawn(kern, paths.drop_last()), paths.last())
    }
}

/// The pixels of vector data: the pre-rasterized ones if there are any, else
/// those of its paths.
pub open spec fn vector_pixels<K: Kernel>(kern: &K, d: VectorView) -> Map<
    (i32, i32),
    Seq<Rgba32F>,
> {
    match d.rasterized {
        Some(m) => m,
        None => paths_drawn(kern, d.paths),
    }
}

fn clip_to_unit(v: i32) -> (r: i64)
    ensures
        r == clip_unit(v as int),
{
    if v < -1 { -1 } else if v > 1 { 1 } else { v as i64 }
}

fn draw_segment<K: Kernel>(
    kern: &K,
    buf: &mut TiledBuffer,
    a: IVec2,
    b: IVec2,
    w: i32,
    px: Rgba32F,
)
    requires
        kern.wf(),
        old(buf).wf(),
    ensures
        final(buf).wf(),
        final(buf)@ == segment_drawn(kern, old(buf)@, a, b, w as int, px),
{
    // Widen the stroke by drawing parallel lines offset across the segment
    // direction, so that the line is centered on the path.
    let n: IVec2 = kern.normal(a, b);
    let nx: i64 = clip_to_unit(n.x);
    let ny: i64 = clip_to_unit(n.y);
    let mut k: i32 = 0;
    while k < w
        invariant
            kern.wf(),
            buf.wf(),
            0 <= k <= w || (k == 0 && w < 0),
            n == kern.normal_of(a, b),
            nx == clip_unit(n.x as int),
            ny == clip_unit(n.y as int),
            buf@ == segment_drawn(kern, old(buf)@, a, b, k as int, px),
        decreases w - k,
    {
        let side: i64 = if k == 0 {
            0
        } else if k % 2 == 1 {
            (k as i64 + 1) / 2
        } else {
            -((k as i64 + 1) / 2)
        };
        assert(side == side_of(k as int));
        assert(-0x8000_0000 <= nx * side <= 0x8000_0000) by (nonlinear_arith)
            requires
                -1 <= nx <= 1,
                -0x8000_0000 <= side <= 0x8000_0000,
        ;
        assert(-0x8000_0000 <= ny * side <= 0x8000_0000) by (nonlinear_arith)
            requires
                -1 <= ny <= 1,
                -0x8000_0000 <= side <= 0x8000_0000,
        ;
        let ox: i64 = nx * side;
        let oy: i64 = ny * side;
        let pts: Vec<(i64, i64)> = bresenham_line(
            (a.x as i64 + ox, a.y as i64 + oy),
            (b.x as i64 + ox, b.y as i64 + oy),
        );
        plot(buf, &pts, px);
        k = k + 1;
    }
}

fn draw_path<K: Kernel>(kern: &K, buf: &mut TiledBuffer, path: &VectorPath)
    requires
        kern.wf(),
        old(buf).wf(),
    ensures
        final(buf).wf(),
        final(buf)@ == path_drawn(kern, old(buf)@, path@),
{
    let n: usize = path.vertices.len();
    if n < 2 {
        return;
    }
    if let VectorFill::Solid(c) = path.fill {
        if is_less(F_ZERO, c.a) && n >= 3 {
            let pts: Vec<IVec2> = kern.fill(&path.vertices);
            plot_positions(buf, &pts, c);
        }
    }
    let ghost m = buf@;
    if is_less(F_ZERO, path.stroke.color.a) && is_less(F_ZERO, path.stroke.width) {
        let edges: usize = if path.closed { n } else { n - 1 };
        let w: i32 = round_i32(path.stroke.width);
        let mut i: usize = 0;
        while i < edges
            invariant
                kern.wf(),
                buf.wf(),
                n == path.vertices@.len(),
                n >= 2,
                i <= edges <= n,
                edges == segments(path@),
                w == nearest_i32(path.stroke.width),
                buf@ == stroke_drawn(kern, m, path@, i as int),
            decreases edges - i,
        {
            let a: IVec2 = path.vertices[i];
            let next: usize = if i + 1 == n { 0 } else { i + 1 };
            proof {
                assert((i + 1) % (n as int) == next) by {
                    if i + 1 < n {
                        vstd::arithmetic::div_mod::lemma_small_mod((i + 1) as nat, n as nat);
                    } else {
                        vstd::arithmetic::div_mod::lemma_mod_self_0(n as int);
                    }
                }
            }
            let b: IVec2 = path.vertices[next];
            draw_segment(kern, buf, a, b, w, path.stroke.color);
            i = i + 1;
        }
    }
}

/// Rasterize vector paths into a layer-local buffer (even-odd fill and outline
/// stroke).
///
/// This ignores any pre-rasterized cache, so it is useful for rebuilding the
/// authoritative cache from the current editable paths.
pub fn rasterize_vector_paths<K: Kernel>(kern: &K, data: &VectorData) -> (buf: TiledBuffer)
    requires
        kern.wf(),
    ensures
        buf.wf(),
        buf@ == paths_drawn(kern, data@.paths),
{
    let mut buf: TiledBuffer = TiledBuffer::new();
    let mut i: usize = 0;
    assert(data@.paths.take(0) =~= Seq::empty());
    while i < data.paths.len()
        invariant
            kern.wf(),
            buf.wf(),
            i <= data.paths@.len(),
            buf@ == paths_drawn(kern, data@.paths.take(i as int)),
        decreases data.paths@.len() - i,
    {
        proof {
            assert(data@.paths.take(i + 1).drop_last() =~= data@.paths.take(i as int));
            assert(data@.paths.take(i + 1).last() == data.paths@[i as int]@);
        }
        draw_path(kern, &mut buf, &data.paths[i]);
        i = i + 1;
    }
    assert(data@.paths.take(i as int) =~= data@.paths);
    buf
}

/// Resolve a vector layer's pixel content.
///
/// If a pre-rasterized cache is present (text glyphs, an imported SVG, or a
/// cache rebuilt after an edit) it is treated as the authoritative pixel source
/// and the editable paths are not drawn again. Otherwise the paths are
/// rasterized on demand.
pub fn rasterize_vector_data<K: Kernel>(kern: &K, data: &VectorData) -> (buf: TiledBuffer)
    requires
        kern.wf(),
        data.wf(),
    ensures
        buf.wf(),
        buf@ == vector_pixels(kern, data@),
{
    match &data.rasterized {
        Some(b) => b.clone(),
        None => rasterize_vector_paths(kern, data),
    }
}

} // verus!
