//! Canvases.
use vstd::prelude::*;

use crate::commands::canvas::{anchor_shift, resized, CanvasAnchor};
use crate::coord::Rect;
use crate::document::DocView;
use crate::float_bits::whole_numbers_survive;
use crate::laws::edges::halves_are_rounded_up;
use crate::layer::LayerId;

verus! {

/// Content anchored in the middle moves by half of what the canvas grows or shrinks,
/// rounded away from nothing.
pub proof fn middles_move_by_half(d: int)
    requires
        -0x100_0000 < d < 0x100_0000,
    ensures
        -1 <= 2 * anchor_shift(1, d) - d <= 1,
        d >= 0 ==> anchor_shift(1, d) == (d + 1) / 2,
        d <= 0 ==> anchor_shift(1, d) == -((1 - d) / 2),
{
    if d > 0 {
        halves_are_rounded_up(d as nat);
    } else if d < 0 {
        halves_are_rounded_up((-d) as nat);
    }
}

/// Whatever the canvas becomes, an anchor says which edges of it content keeps its
/// distance from: the left ones, or the right ones, or both as far as a pixel allows;
/// and the same from top to bottom.
pub proof fn anchors_hold_their_side(
    v: DocView,
    w: u32,
    h: u32,
    anchor: CanvasAnchor,
    id: LayerId,
)
    requires
        v.has(id),
        -0x100_0000 < w - v.canvas.w < 0x100_0000,
        -0x100_0000 < h - v.canvas.h < 0x100_0000,
        -0x100_0000 < v.layers[id].offset.x < 0x100_0000,
        -0x100_0000 < v.layers[id].offset.y < 0x100_0000,
    ensures
        ({
            let was = v.layers[id].offset;
            let now = resized(v, w, h, anchor).layers[id].offset;
            let (left, top) = (now.x - was.x, now.y - was.y);
            let (right, bottom) = (left - (w - v.canvas.w), top - (h - v.canvas.h));
            &&& anchor is TopLeft || anchor is CenterLeft || anchor is BottomLeft ==> left == 0
            &&& anchor is TopRight || anchor is CenterRight || anchor is BottomRight ==> right == 0
            &&& anchor is TopCenter || anchor is Center || anchor is BottomCenter ==> -1 <= left
                + right <= 1
            &&& anchor is TopLeft || anchor is TopCenter || anchor is TopRight ==> top == 0
            &&& anchor is BottomLeft || anchor is BottomCenter || anchor is BottomRight ==> bottom
                == 0
            &&& anchor is CenterLeft || anchor is Center || anchor is CenterRight ==> -1 <= top
                + bottom <= 1
            &&& resized(v, w, h, anchor).canvas == (Rect { w, h, ..v.canvas })
        }),
{
    let (dx, dy) = (w - v.canvas.w, h - v.canvas.h);
    middles_move_by_half(dx);
    middles_move_by_half(dy);
    lemma_whole_shift(dx);
    lemma_whole_shift(dy);
}

proof fn lemma_whole_shift(d: int)
    requires
        -0x100_0000 < d < 0x100_0000,
    ensures
        anchor_shift(2, d) == d,
        anchor_shift(0, d) == 0,
{
    if d > 0 {
        whole_numbers_survive(d as nat);
    } else if d < 0 {
        whole_numbers_survive((-d) as nat);
    }
}

} // verus!
