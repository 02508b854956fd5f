//! Lines and outlines.
use vstd::prelude::*;

use vstd::arithmetic::div_mod::{lemma_mod_self_0, lemma_small_mod};

use crate::buffer::{full_tiles, pixel_at};
use crate::coord::IVec2;
use crate::float_bits::nearest_i32;
use crate::kernel::Kernel;
use crate::laws::strokes::{on_stroke, strokes_color_their_lines};
use crate::layer::PathView;
use crate::pixel::Rgba32F;
use crate::vector_raster::{
    in_box, lemma_next_point, line_from, next_point, segments, span, stroke_drawn,
};

verus! {

/// How far a point with `i` columns and `j` rows behind it is off the ideal line of `d`
/// columns and `e` rows, measured in half pixels along the shorter side and multiplied
/// by the longer one.
pub open spec fn off_line(d: int, e: int, i: int, j: int) -> int {
    2 * (i * e) - 2 * (j * d)
}

/// The longer side of a line.
pub open spec fn longer(d: int, e: int) -> int {
    if d >= e { d } else { e }
}

/// Every point of a line is at most half a pixel off the ideal line, and a line has one
/// point for each column, or for each row if it has more of those.
pub proof fn lines_stay_within_half_a_pixel(a: (int, int), b: (int, int), p: (int, int))
    requires
        in_box(a, b, p),
        ({
            let (d, e) = (span(a.0, b.0), span(a.1, b.1));
            let off = off_line(d, e, span(a.0, p.0), span(a.1, p.1));
            -longer(d, e) <= off <= longer(d, e)
        }),
    ensures
        ({
            let (d, e) = (span(a.0, b.0), span(a.1, b.1));
            let l = line_from(a, b, p);
            &&& forall|k: int|
                0 <= k < l.len() ==> -longer(d, e) <= off_line(
                    d,
                    e,
                    span(a.0, (#[trigger] l[k]).0),
                    span(a.1, l[k].1),
                ) <= longer(d, e)
            &&& d >= e ==> l.len() == span(p.0, b.0) + 1
            &&& d < e ==> l.len() == span(p.1, b.1) + 1
        }),
    decreases span(p.0, b.0) + span(p.1, b.1),
{
    let (d, e) = (span(a.0, b.0), span(a.1, b.1));
    let (i, j) = (span(a.0, p.0), span(a.1, p.1));
    let off = off_line(d, e, i, j);
    if p != b {
        lemma_next_point(a, b, p);
        let n = next_point(a, b, p);
        let (u, v) = (span(a.0, n.0), span(a.1, n.1));
        let sx = 2 * ((j + 1) * d) >= (2 * i + 1) * e;
        let sy = (2 * j + 1) * d <= 2 * ((i + 1) * e);
        assert(2 * ((j + 1) * d) - (2 * i + 1) * e == 2 * d - e - off) by (nonlinear_arith)
            requires
                off == 2 * (i * e) - 2 * (j * d),
        ;
        assert(2 * ((i + 1) * e) - (2 * j + 1) * d == off + 2 * e - d) by (nonlinear_arith)
            requires
                off == 2 * (i * e) - 2 * (j * d),
        ;
        assert(u == if sx { i + 1 } else { i });
        assert(v == if sy { j + 1 } else { j });
        let ahead = off_line(d, e, u, v);
        assert(ahead == off + (if sx { 2 * e } else { 0 }) - (if sy { 2 * d } else { 0 }))
            by (nonlinear_arith)
            requires
                off == 2 * (i * e) - 2 * (j * d),
                ahead == 2 * (u * e) - 2 * (v * d),
                u == if sx { i + 1 } else { i },
                v == if sy { j + 1 } else { j },
        ;
        if d >= e {
            assert(sx);
        } else {
            assert(sy);
        }
        lines_stay_within_half_a_pixel(a, b, n);
        let l = line_from(a, b, p);
        let rest = line_from(a, b, n);
        assert(l =~= seq![p] + rest);
        assert forall|k: int| 0 <= k < l.len() implies -longer(d, e) <= off_line(
            d,
            e,
            span(a.0, (#[trigger] l[k]).0),
            span(a.1, l[k].1),
        ) <= longer(d, e) by {
            if k > 0 {
                assert(l[k] == rest[k - 1]);
            }
        }
    }
}

/// A line from its start on meets what the points of a line are held to.
pub proof fn lines_start_on_themselves(a: (int, int), b: (int, int))
    ensures
        in_box(a, b, a),
        ({
            let (d, e) = (span(a.0, b.0), span(a.1, b.1));
            &&& off_line(d, e, span(a.0, a.0), span(a.1, a.1)) == 0
            &&& line_from(a, b, a).len() == longer(d, e) + 1
        }),
{
    let (d, e) = (span(a.0, b.0), span(a.1, b.1));
    assert(0 * e == 0 && 0 * d == 0);
    lines_stay_within_half_a_pixel(a, b, a);
}

/// The outline of a path has a segment for each vertex where it is closed, and one less
/// where it is open.
pub proof fn closed_outlines_return(p: PathView)
    ensures
        p.closed ==> segments(p) == p.vertices.len(),
        !p.closed ==> segments(p) == p.vertices.len() - 1,
{
}

/// Drawing an outline colors the pixels on the strokes of its segments, and no others.
pub proof fn outlines_color_their_segments<K: Kernel>(
    kern: &K,
    m: Map<(i32, i32), Seq<Rgba32F>>,
    p: PathView,
    n: int,
    q: IVec2,
)
    requires
        full_tiles(m),
        !p.color.is_clear(),
        0 <= n <= p.vertices.len(),
    ensures
        full_tiles(stroke_drawn(kern, m, p, n)),
        pixel_at(stroke_drawn(kern, m, p, n), q) == if exists|i: int|
            0 <= i < n && #[trigger] on_segment(kern, p, i, q) {
            p.color
        } else {
            pixel_at(m, q)
        },
    decreases n,
{
    if n > 0 {
        outlines_color_their_segments(kern, m, p, n - 1, q);
        let below = stroke_drawn(kern, m, p, n - 1);
        let a = p.vertices[n - 1];
        let b = p.vertices[n % p.vertices.len() as int];
        strokes_color_their_lines(kern, below, a, b, nearest_i32(p.width), p.color, q);
        if n == p.vertices.len() {
            lemma_mod_self_0(n);
        } else {
            lemma_small_mod(n as nat, p.vertices.len());
        }
        assert(on_segment(kern, p, n - 1, q) == on_stroke(
            kern,
            a,
            b,
            nearest_i32(p.width),
            (q.x as int, q.y as int),
        ));
        if exists|i: int| 0 <= i < n - 1 && #[trigger] on_segment(kern, p, i, q) {
            let i = choose|i: int| 0 <= i < n - 1 && #[trigger] on_segment(kern, p, i, q);
            assert(0 <= i < n && on_segment(kern, p, i, q));
        }
    }
}

/// A pixel lies on the stroke from vertex `i` of a path to the next one, the first
/// after the last.
pub open spec fn on_segment<K: Kernel>(kern: &K, p: PathView, i: int, q: IVec2) -> bool {
    let next = if i + 1 == p.vertices.len() { 0 } else { i + 1 };
    on_stroke(
        kern,
        p.vertices[i],
        p.vertices[next],
        nearest_i32(p.width),
        (q.x as int, q.y as int),
    )
}

} // verus!
