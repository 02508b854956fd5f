//! Exact (discrete) buffer mirroring for layer flip.
//!
//! Each source pixel is written to its exact mirrored local coordinate, so the
//! result is byte-faithful.
use vstd::prelude::*;

use std::sync::Arc;

use crate::buffer::{
    alike, key, pixel_at, set_pixel_keeps_sparse, set_pixel_then_get, sparse, tiles_listed,
    TiledBuffer,
};
use crate::coord::{
    fits_i32, local_index, pixel_to_tile_inverts_tile_to_pixel, tile_of, tile_rect, tile_rect_spec,
    IVec2, Rect, TileCoord,
};
use crate::pixel::{clear_px, Rgba32F};
use crate::tile::{Tile, TILE_SIZE};

verus! {

/// Which axis to mirror across.
#[derive(Clone, Copy, Debug, PartialEq, Eq, Structural)]
pub enum FlipAxis {
    /// Mirror left and right (across the vertical centre).
    Horizontal,
    /// Mirror top and bottom (across the horizontal centre).
    Vertical,
}

/// The mirror image of a position within `bounds`: the low edge and the high
/// edge change places.
pub open spec fn mirrored(axis: FlipAxis, bounds: Rect, p: IVec2) -> Option<IVec2> {
    let x = if axis == FlipAxis::Horizontal {
        bounds.x + (bounds.right_edge() - 1) - p.x
    } else {
        p.x as int
    };
    let y = if axis == FlipAxis::Vertical {
        bounds.y + (bounds.bottom_edge() - 1) - p.y
    } else {
        p.y as int
    };
    if fits_i32(x) && fits_i32(y) {
        Some(IVec2 { x: x as i32, y: y as i32 })
    } else {
        None
    }
}

/// What a mirrored buffer holds at `p`.
pub open spec fn flipped_px(
    m: Map<(i32, i32), Seq<Rgba32F>>,
    axis: FlipAxis,
    bounds: Rect,
    p: IVec2,
) -> Rgba32F {
    match mirrored(axis, bounds, p) {
        Some(s) => if !bounds.empty() && !pixel_at(m, s).is_clear() { pixel_at(m, s) } else {
            clear_px()
        },
        None => clear_px(),
    }
}

/// Pixel `s` lies in one of the first `n` tiles, or before `(lx, ly)` in tile
/// `n`.
spec fn flip_reached(
    list: Seq<(TileCoord, Arc<Tile>)>,
    n: int,
    lx: int,
    ly: int,
    s: IVec2,
) -> bool {
    ||| exists|j: int| 0 <= j < n && (#[trigger] list[j]).0 == tile_of(s)
    ||| n < list.len() && list[n].0 == tile_of(s) && (local_index(s.y as int) < ly || (local_index(
        s.y as int,
    ) == ly && local_index(s.x as int) < lx))
}

spec fn flip_value(
    m: Map<(i32, i32), Seq<Rgba32F>>,
    axis: FlipAxis,
    bounds: Rect,
    list: Seq<(TileCoord, Arc<Tile>)>,
    n: int,
    lx: int,
    ly: int,
    p: IVec2,
) -> Rgba32F {
    match mirrored(axis, bounds, p) {
        Some(s) => if flip_reached(list, n, lx, ly, s) && !pixel_at(m, s).is_clear() {
            pixel_at(m, s)
        } else {
            clear_px()
        },
        None => clear_px(),
    }
}

spec fn flip_progress(
    out: Map<(i32, i32), Seq<Rgba32F>>,
    m: Map<(i32, i32), Seq<Rgba32F>>,
    axis: FlipAxis,
    bounds: Rect,
    list: Seq<(TileCoord, Arc<Tile>)>,
    n: int,
    lx: int,
    ly: int,
) -> bool {
    forall|p: IVec2| #[trigger]
        pixel_at(out, p) == flip_value(m, axis, bounds, list, n, lx, ly, p)
}

/// Mirroring a position twice gives it back.
pub proof fn mirroring_twice(axis: FlipAxis, bounds: Rect, p: IVec2)
    ensures
        mirrored(axis, bounds, p) matches Some(s) ==> mirrored(axis, bounds, s) == Some(p),
{
}

fn mirror(axis: FlipAxis, bounds: Rect, p: IVec2) -> (r: Option<IVec2>)
    ensures
        r == mirrored(axis, bounds, p),
{
    let x: i64 = match axis {
        FlipAxis::Horizontal => bounds.x as i64 + (bounds.right() - 1) - p.x as i64,
        FlipAxis::Vertical => p.x as i64,
    };
    let y: i64 = match axis {
        FlipAxis::Horizontal => p.y as i64,
        FlipAxis::Vertical => bounds.y as i64 + (bounds.bottom() - 1) - p.y as i64,
    };
    if x < -0x8000_0000 || x > 0x7fff_ffff || y < -0x8000_0000 || y > 0x7fff_ffff {
        None
    } else {
        Some(IVec2::new(x as i32, y as i32))
    }
}

/// Mirror the pixels of one tile.
fn flip_tile(
    out: &mut TiledBuffer,
    source: &TiledBuffer,
    axis: FlipAxis,
    bounds: Rect,
    list: &Vec<(TileCoord, Arc<Tile>)>,
    n: usize,
    t: Rect,
)
    requires
        old(out).wf(),
        sparse(old(out)@),
        source.wf(),
        tiles_listed(list@, source@),
        n < list@.len(),
        tile_rect_spec(list@[n as int].0) == Some(t),
        flip_progress(old(out)@, source@, axis, bounds, list@, n as int, 0, 0),
    ensures
        final(out).wf(),
        sparse(final(out)@),
        flip_progress(final(out)@, source@, axis, bounds, list@, n + 1, 0, 0),
{
    let ghost c = list@[n as int].0;
    let mut ly: usize = 0;
    while ly < TILE_SIZE
        invariant
            out.wf(),
            sparse(out@),
            source.wf(),
            tiles_listed(list@, source@),
            n < list@.len(),
            c == list@[n as int].0,
            tile_rect_spec(c) == Some(t),
            ly <= TILE_SIZE,
            flip_progress(out@, source@, axis, bounds, list@, n as int, 0, ly as int),
        decreases TILE_SIZE - ly,
    {
        let mut lx: usize = 0;
        while lx < TILE_SIZE
            invariant
                out.wf(),
                sparse(out@),
                source.wf(),
                tiles_listed(list@, source@),
                n < list@.len(),
                c == list@[n as int].0,
                tile_rect_spec(c) == Some(t),
                ly < TILE_SIZE,
                lx <= TILE_SIZE,
                flip_progress(
                    out@,
                    source@,
                    axis,
                    bounds,
                    list@,
                    n as int,
                    lx as int,
                    ly as int,
                ),
            decreases TILE_SIZE - lx,
        {
            let s: IVec2 = IVec2::new(t.x + lx as i32, t.y + ly as i32);
            assert(source@.dom().contains(key(list@[n as int].0)));
            let px: Rgba32F = list[n].1.get(lx, ly);
            let ghost before = out@;
            proof {
                pixel_to_tile_inverts_tile_to_pixel(c, lx as int, ly as int, s);
                assert(px == pixel_at(source@, s));
                out.lemma_full();
            }
            let d: Option<IVec2> = mirror(axis, bounds, s);
            if !px.is_transparent() {
                if let Some(q) = d {
                    out.set_pixel(q, px);
                    proof {
                        set_pixel_keeps_sparse(before, q, px);
                    }
                }
            }
            proof {
                assert forall|p: IVec2| #[trigger] pixel_at(out@, p) == flip_value(
                    source@,
                    axis,
                    bounds,
                    list@,
                    n as int,
                    lx + 1,
                    ly as int,
                    p,
                ) by {
                    if !px.is_clear() && d is Some {
                        set_pixel_then_get(before, d->0, px, p);
                    }
                    assert(pixel_at(before, p) == flip_value(
                        source@,
                        axis,
                        bounds,
                        list@,
                        n as int,
                        lx as int,
                        ly as int,
                        p,
                    ));
                    mirroring_twice(axis, bounds, p);
                    mirroring_twice(axis, bounds, s);
                    if let Some(u) = mirrored(axis, bounds, p) {
                        if u == s {
                            assert(d == Some(p));
                        } else {
                            if tile_of(u) == c && local_index(u.x as int) == lx && local_index(
                                u.y as int,
                            ) == ly {
                                assert(u.x == s.x && u.y == s.y);
                            }
                            assert(flip_reached(
                                list@,
                                n as int,
                                lx + 1,
                                ly as int,
                                u,
                            ) == flip_reached(list@, n as int, lx as int, ly as int, u));
                            if d is Some {
                                assert(d->0 != p);
                            }
                        }
                    } else if d is Some {
                        assert(d->0 != p);
                    }
                }
            }
            lx = lx + 1;
        }
        proof {
            assert forall|p: IVec2| #[trigger] pixel_at(out@, p) == flip_value(
                source@,
                axis,
                bounds,
                list@,
                n as int,
                0,
                ly + 1,
                p,
            ) by {
                if let Some(u) = mirrored(axis, bounds, p) {
                    assert(flip_reached(list@, n as int, 0, ly + 1, u) == flip_reached(
                        list@,
                        n as int,
                        256,
                        ly as int,
                        u,
                    ));
                }
            }
        }
        ly = ly + 1;
    }
    proof {
        assert forall|p: IVec2| #[trigger] pixel_at(out@, p) == flip_value(
            source@,
            axis,
            bounds,
            list@,
            n + 1,
            0,
            0,
            p,
        ) by {
            if let Some(u) = mirrored(axis, bounds, p) {
                lemma_flip_next(list@, n as int, u);
            }
        }
    }
}

proof fn lemma_flip_next(list: Seq<(TileCoord, Arc<Tile>)>, n: int, u: IVec2)
    requires
        0 <= n < list.len(),
    ensures
        flip_reached(list, n + 1, 0, 0, u) == flip_reached(list, n, 0, 256, u),
{
    if exists|j: int| 0 <= j < n + 1 && (#[trigger] list[j]).0 == tile_of(u) {
        let j = choose|j: int| 0 <= j < n + 1 && (#[trigger] list[j]).0 == tile_of(u);
        assert(list[j].0 == tile_of(u));
    }
    if exists|j: int| 0 <= j < n && (#[trigger] list[j]).0 == tile_of(u) {
        let j = choose|j: int| 0 <= j < n && (#[trigger] list[j]).0 == tile_of(u);
        assert(list[j].0 == tile_of(u));
    }
    if list[n].0 == tile_of(u) {
        assert(list[n].0 == tile_of(u));
    }
}

/// Mirror a buffer's content exactly across `axis_bounds`.
///
/// Each non-transparent source pixel at local `(x, y)` is written to its
/// mirrored local coordinate, so the result is an exact reflection with no
/// interpolation artifacts. `axis_bounds` is the pixel rectangle to mirror
/// within (typically the layer's content bounds, shared with its mask so the
/// two stay aligned). An empty `axis_bounds` yields an empty buffer.
pub fn flip_buffer(buffer: &TiledBuffer, axis: FlipAxis, axis_bounds: Rect) -> (out: TiledBuffer)
    requires
        buffer.wf(),
    ensures
        out.wf(),
        sparse(out@),
        forall|p: IVec2| #[trigger] out.at(p) == flipped_px(buffer@, axis, axis_bounds, p),
{
    let mut out: TiledBuffer = TiledBuffer::new();
    if axis_bounds.is_empty() {
        return out;
    }
    let list: Vec<(TileCoord, Arc<Tile>)> = buffer.occupied_tiles();
    let mut i: usize = 0;
    while i < list.len()
        invariant
            out.wf(),
            sparse(out@),
            buffer.wf(),
            tiles_listed(list@, buffer@),
            i <= list@.len(),
            flip_progress(out@, buffer@, axis, axis_bounds, list@, i as int, 0, 0),
        decreases list@.len() - i,
    {
        if let Some(t) = tile_rect(list[i].0) {
            flip_tile(&mut out, buffer, axis, axis_bounds, &list, i, t);
        } else {
            proof {
                let c = list@[i as int].0;
                assert forall|p: IVec2| #[trigger] pixel_at(out@, p) == flip_value(
                    buffer@,
                    axis,
                    axis_bounds,
                    list@,
                    i + 1,
                    0,
                    0,
                    p,
                ) by {
                    if let Some(u) = mirrored(axis, axis_bounds, p) {
                        assert(tile_of(u) != c) by {
                            if tile_of(u) == c {
                                assert(c.x == u.x as int / 256 && c.y == u.y as int / 256);
                            }
                        }
                        lemma_flip_next(list@, i as int, u);
                        assert(flip_reached(list@, i as int, 0, 256, u) == flip_reached(
                            list@,
                            i as int,
                            0,
                            0,
                            u,
                        ));
                    }
                }
            }
        }
        i = i + 1;
    }
    proof {
        assert forall|p: IVec2| #[trigger] out.at(p) == flipped_px(
            buffer@,
            axis,
            axis_bounds,
            p,
        ) by {
            assert(pixel_at(out@, p) == out.at(p));
            if let Some(u) = mirrored(axis, axis_bounds, p) {
                if buffer@.dom().contains(key(tile_of(u))) {
                    let j = choose|j: int|
                        0 <= j < list@.len() && key((#[trigger] list@[j]).0) == key(tile_of(u));
                    assert(list@[j].0 == tile_of(u));
                    assert(flip_reached(list@, i as int, 0, 0, u));
                }
            }
        }
    }
    out
}

/// Flipping a buffer twice across the same bounds gives every pixel back (up to
/// the sign of zeros in transparent ones) whose mirror image has `i32`
/// coordinates.
pub proof fn flipping_twice_restores(
    m: Map<(i32, i32), Seq<Rgba32F>>,
    once: Map<(i32, i32), Seq<Rgba32F>>,
    twice: Map<(i32, i32), Seq<Rgba32F>>,
    axis: FlipAxis,
    bounds: Rect,
    p: IVec2,
)
    requires
        !bounds.empty(),
        forall|q: IVec2| #[trigger] pixel_at(once, q) == flipped_px(m, axis, bounds, q),
        forall|q: IVec2| #[trigger] pixel_at(twice, q) == flipped_px(once, axis, bounds, q),
        mirrored(axis, bounds, p) is Some,
    ensures
        alike(pixel_at(twice, p), pixel_at(m, p)),
{
    mirroring_twice(axis, bounds, p);
    let s = mirrored(axis, bounds, p)->0;
    assert(pixel_at(once, s) == flipped_px(m, axis, bounds, s));
}

/// Mirroring keeps the pixels of the bounds inside the bounds.
pub proof fn mirror_images_stay_in_bounds(axis: FlipAxis, bounds: Rect, p: IVec2)
    requires
        bounds.has(p.x as int, p.y as int),
        bounds.right_edge() <= i32::MAX + 1,
        bounds.bottom_edge() <= i32::MAX + 1,
    ensures
        mirrored(axis, bounds, p) matches Some(s) && bounds.has(s.x as int, s.y as int),
{
}

} // verus!
