//! Boxes around things, neighbourhoods and mirror images.
use vstd::prelude::*;

use crate::brush::{BrushKernel, BrushSettings, InputSample};
use crate::buffer::pixel_at;
use crate::buffer_region::tile_bounds;
use crate::commands::pixels::{stamp_corners, stroke_corners};
use crate::commands::transform::least;
use crate::coord::{IVec2, Rect};
use crate::kernel::Kernel;
use crate::laws::strokes::between;
use crate::ops::flip::{mirrored, FlipAxis};
use crate::ops::magnetic::around;
use crate::pixel::Rgba32F;
use crate::scanline::extremes;

verus! {

/// The extremes of points bound every point, and each is reached by one.
pub proof fn extremes_are_reached(points: Seq<IVec2>, n: int)
    requires
        1 <= n <= points.len(),
    ensures
        ({
            let e = extremes(points, n);
            &&& forall|i: int|
                0 <= i < n ==> e.0 <= (#[trigger] points[i]).x <= e.1 && e.2 <= points[i].y <= e.3
            &&& exists|i: int| 0 <= i < n && (#[trigger] points[i]).x == e.0
            &&& exists|i: int| 0 <= i < n && (#[trigger] points[i]).x == e.1
            &&& exists|i: int| 0 <= i < n && (#[trigger] points[i]).y == e.2
            &&& exists|i: int| 0 <= i < n && (#[trigger] points[i]).y == e.3
        }),
    decreases n,
{
    if n > 1 {
        extremes_are_reached(points, n - 1);
        let p = points[n - 1];
        let e = extremes(points, n - 1);
        let a = choose|i: int| 0 <= i < n - 1 && (#[trigger] points[i]).x == e.0;
        let b = choose|i: int| 0 <= i < n - 1 && (#[trigger] points[i]).x == e.1;
        let c = choose|i: int| 0 <= i < n - 1 && (#[trigger] points[i]).y == e.2;
        let d = choose|i: int| 0 <= i < n - 1 && (#[trigger] points[i]).y == e.3;
        assert(points[a].x == e.0 && points[b].x == e.1);
        assert(points[c].y == e.2 && points[d].y == e.3);
    } else {
        assert(points[0].x == extremes(points, n).0);
    }
}

/// The least coordinates of points are no larger than any point's, and each is one.
pub proof fn least_coordinates_are_reached(points: Seq<IVec2>)
    requires
        points.len() > 0,
    ensures
        forall|i: int|
            0 <= i < points.len() ==> least(points).x <= (#[trigger] points[i]).x && least(points).y
                <= points[i].y,
        exists|i: int| 0 <= i < points.len() && (#[trigger] points[i]).x == least(points).x,
        exists|i: int| 0 <= i < points.len() && (#[trigger] points[i]).y == least(points).y,
    decreases points.len(),
{
    if points.len() > 1 {
        let rest = points.drop_last();
        least_coordinates_are_reached(rest);
        let l = least(rest);
        let a = choose|i: int| 0 <= i < rest.len() && (#[trigger] rest[i]).x == l.x;
        let b = choose|i: int| 0 <= i < rest.len() && (#[trigger] rest[i]).y == l.y;
        assert(points[a].x == l.x && points[b].y == l.y);
        let last = points[points.len() - 1];
        assert(last == points.last());
        assert forall|i: int| 0 <= i < points.len() implies least(points).x <= (#[trigger]
        points[i]).x && least(points).y <= points[i].y by {
            if i < points.len() - 1 {
                assert(points[i] == rest[i]);
            }
        }
    } else {
        assert(points[0].x == least(points).x);
    }
}

/// The box around a stroke holds the box around every one of its stamps.
pub proof fn strokes_hold_their_stamps<K: Kernel, B: BrushKernel>(
    kern: &K,
    brush: &B,
    settings: BrushSettings,
    samples: Seq<InputSample>,
    i: int,
)
    requires
        0 <= i < samples.len(),
    ensures
        ({
            let all = stroke_corners(kern, brush, settings, samples);
            let one = stamp_corners(kern, brush, settings, samples[i]);
            &&& all.0.x <= one.0.x && all.0.y <= one.0.y
            &&& one.1.x <= all.1.x && one.1.y <= all.1.y
            &&& samples.len() == 1 ==> all == one
        }),
    decreases samples.len(),
{
    if i < samples.len() - 1 {
        strokes_hold_their_stamps(kern, brush, settings, samples.drop_last(), i);
    }
}

/// The neighbours of a pixel are listed row by row, without the pixel itself: the one
/// `dx` columns and `dy` rows away where that order puts it.
pub proof fn neighbours_are_listed_row_by_row(
    m: Map<(i32, i32), Seq<Rgba32F>>,
    p: IVec2,
    dx: int,
    dy: int,
)
    requires
        -1 <= dx <= 1 && -1 <= dy <= 1 && (dx != 0 || dy != 0),
        tile_bounds(m) matches Some(b) && b.has(p.x + dx, p.y + dy),
        -0x8000_0000 <= p.x + dx <= 0x7fff_ffff && -0x8000_0000 <= p.y + dy <= 0x7fff_ffff,
    ensures
        ({
            let n = 3 * (dy + 1) + (dx + 1);
            around(m, p)[if n < 4 { n } else { n - 1 }] == pixel_at(
                m,
                IVec2 { x: (p.x + dx) as i32, y: (p.y + dy) as i32 },
            )
        }),
{
}

/// Mirroring left and right keeps the row and exchanges the distances from the left
/// and the right edge; mirroring top and bottom keeps the column and exchanges those
/// from the other edges.
pub proof fn mirrors_exchange_the_edges(axis: FlipAxis, bounds: Rect, p: IVec2, q: IVec2)
    requires
        mirrored(axis, bounds, p) == Some(q),
    ensures
        axis == FlipAxis::Horizontal ==> q.y == p.y && q.x - bounds.x == (bounds.right_edge() - 1)
            - p.x,
        axis == FlipAxis::Vertical ==> q.x == p.x && q.y - bounds.y == (bounds.bottom_edge() - 1)
            - p.y,
{
}

/// The rectangle of two corners holds exactly what lies between them along both axes.
pub proof fn corners_bound_their_rectangle(a: IVec2, b: IVec2, p: IVec2)
    requires
        -0x4000_0000 <= a.x <= 0x4000_0000 && -0x4000_0000 <= a.y <= 0x4000_0000,
        -0x4000_0000 <= b.x <= 0x4000_0000 && -0x4000_0000 <= b.y <= 0x4000_0000,
    ensures
        Rect::from_corners_spec(a, b).has(p.x as int, p.y as int) <==> between(
            a.x as int,
            p.x as int,
            b.x as int,
        ) && between(a.y as int, p.y as int, b.y as int),
        Rect::from_corners_spec(a, b) == Rect::from_corners_spec(b, a),
{
}

} // verus!
