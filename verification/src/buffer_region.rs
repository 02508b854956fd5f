//! Rectangular access to a [`TiledBuffer`]: bounds, reading, writing, clearing
//! and copying of regions.
use vstd::prelude::*;

use std::sync::Arc;

use crate::buffer::{
    alike, full_tiles, key, lemma_slot, pixel_at, pruned, set_pixel_keeps_sparse,
    set_pixel_then_get, slot_of, sparse, tiles_listed, with_pixel, TiledBuffer,
};
use crate::coord::{
    clamp_len, fits_i32, local_coord_spec, local_index, pixel_to_tile_inverts_tile_to_pixel,
    pixels_lie_in_touched_tiles, tile_of, tile_rect, tile_rect_spec, IVec2, Rect, TileCoord,
};
use crate::pixel::{clear_px, Rgba32F};
use crate::tile::{blank_pixels, ink, lemma_ink_zero, slot, Tile, TILE_PIXELS, TILE_SIZE};

verus! {

/// The smallest box around a set of pixels: every pixel lies between `lo` and
/// `hi`, and each side of the box is touched.
pub open spec fn tight(s: Set<IVec2>, lo: IVec2, hi: IVec2) -> bool {
    &&& forall|p: IVec2| #[trigger]
        s.contains(p) ==> lo.x <= p.x <= hi.x && lo.y <= p.y <= hi.y
    &&& exists|p: IVec2| #[trigger] s.contains(p) && p.x == lo.x
    &&& exists|p: IVec2| #[trigger] s.contains(p) && p.y == lo.y
    &&& exists|p: IVec2| #[trigger] s.contains(p) && p.x == hi.x
    &&& exists|p: IVec2| #[trigger] s.contains(p) && p.y == hi.y
}

/// The pixels that are not transparent.
pub open spec fn inked(m: Map<(i32, i32), Seq<Rgba32F>>) -> Set<IVec2> {
    Set::new(|p: IVec2| !pixel_at(m, p).is_clear())
}

/// `b` is the smallest rectangle around the pixels that are not transparent.
pub open spec fn is_ink_box(m: Map<(i32, i32), Seq<Rgba32F>>, b: Rect) -> bool {
    exists|lo: IVec2, hi: IVec2| #[trigger]
        tight(inked(m), lo, hi) && b == Rect::from_corners_spec(lo, hi)
}

/// The smallest rectangle around the pixels that are not transparent, if there
/// are any.
pub open spec fn ink_box(m: Map<(i32, i32), Seq<Rgba32F>>) -> Option<Rect> {
    if exists|p: IVec2| #[trigger] inked(m).contains(p) {
        Some(choose|b: Rect| is_ink_box(m, b))
    } else {
        None
    }
}

/// The pixels that are not transparent and lie in one of the first `n` tiles
/// listed in `v`.
spec fn inked_in_first(
    m: Map<(i32, i32), Seq<Rgba32F>>,
    v: Seq<(TileCoord, Arc<Tile>)>,
    n: int,
) -> Set<IVec2> {
    Set::new(
        |p: IVec2|
            !pixel_at(m, p).is_clear() && exists|i: int|
                0 <= i < n && (#[trigger] v[i]).0 == tile_of(p),
    )
}

/// Each side of a box of local indices is touched by a pixel that is not
/// transparent.
spec fn box_hit(t: Seq<Rgba32F>, b: (usize, usize, usize, usize)) -> bool {
    &&& exists|ly: int| 0 <= ly < 256 && !(#[trigger] t[slot(b.0 as int, ly)]).is_clear()
    &&& exists|lx: int| 0 <= lx < 256 && !(#[trigger] t[slot(lx, b.1 as int)]).is_clear()
    &&& exists|ly: int| 0 <= ly < 256 && !(#[trigger] t[slot(b.2 as int, ly)]).is_clear()
    &&& exists|lx: int| 0 <= lx < 256 && !(#[trigger] t[slot(lx, b.3 as int)]).is_clear()
}

/// Every pixel before `(x, y)` that is not transparent lies in the box.
spec fn box_covers(t: Seq<Rgba32F>, b: (usize, usize, usize, usize), x: int, y: int) -> bool {
    forall|lx: int, ly: int|
        0 <= lx < 256 && 0 <= ly < 256 && before(lx, ly, x, y) && !(#[trigger] t[slot(
            lx,
            ly,
        )]).is_clear() ==> b.0 <= lx <= b.2 && b.1 <= ly <= b.3
}

/// The smallest box, in local indices, around the pixels of one tile that are
/// not transparent.
spec fn tile_box(t: Seq<Rgba32F>, b: (usize, usize, usize, usize)) -> bool {
    &&& b.0 <= b.2 < TILE_SIZE
    &&& b.1 <= b.3 < TILE_SIZE
    &&& box_covers(t, b, 0, 256)
    &&& box_hit(t, b)
}

/// Pixel `(lx, ly)` comes before `(x, y)` in row order.
spec fn before(lx: int, ly: int, x: int, y: int) -> bool {
    ly < y || (ly == y && lx < x)
}

/// What a scan of a tile up to `(x, y)` has found.
spec fn scanned(
    t: Seq<Rgba32F>,
    found: Option<(usize, usize, usize, usize)>,
    x: int,
    y: int,
) -> bool {
    match found {
        None => forall|lx: int, ly: int|
            0 <= lx < 256 && 0 <= ly < 256 && before(lx, ly, x, y) ==> (
            #[trigger] t[slot(lx, ly)]).is_clear(),
        Some(b) => {
            &&& b.0 <= b.2 < TILE_SIZE
            &&& b.1 <= b.3 < TILE_SIZE
            &&& box_covers(t, b, x, y)
            &&& box_hit(t, b)
        },
    }
}

proof fn lemma_scan_step(
    t: Seq<Rgba32F>,
    prev: Option<(usize, usize, usize, usize)>,
    lx: usize,
    ly: usize,
    b: (usize, usize, usize, usize),
)
    requires
        lx < TILE_SIZE,
        ly < TILE_SIZE,
        scanned(t, prev, lx as int, ly as int),
        !t[slot(lx as int, ly as int)].is_clear(),
        match prev {
            None => b == (lx, ly, lx, ly),
            Some(f) => {
                &&& b.0 == (if lx < f.0 { lx } else { f.0 })
                &&& b.1 == (if ly < f.1 { ly } else { f.1 })
                &&& b.2 == (if lx > f.2 { lx } else { f.2 })
                &&& b.3 == (if ly > f.3 { ly } else { f.3 })
            },
        },
    ensures
        scanned(t, Some(b), lx + 1, ly as int),
{
    let x = lx as int;
    let y = ly as int;
    assert(!t[slot(x, y)].is_clear());
    match prev {
        None => {
            assert(!t[slot(b.0 as int, y)].is_clear());
            assert(!t[slot(x, b.1 as int)].is_clear());
            assert(!t[slot(b.2 as int, y)].is_clear());
            assert(!t[slot(x, b.3 as int)].is_clear());
        },
        Some(f) => {
            let a0 = choose|y: int| 0 <= y < 256 && !(#[trigger] t[slot(f.0 as int, y)]).is_clear();
            let a1 = choose|x: int| 0 <= x < 256 && !(#[trigger] t[slot(x, f.1 as int)]).is_clear();
            let a2 = choose|y: int| 0 <= y < 256 && !(#[trigger] t[slot(f.2 as int, y)]).is_clear();
            let a3 = choose|x: int| 0 <= x < 256 && !(#[trigger] t[slot(x, f.3 as int)]).is_clear();
            assert(!t[slot(b.0 as int, if lx < f.0 { y } else { a0 })].is_clear());
            assert(!t[slot(if ly < f.1 { x } else { a1 }, b.1 as int)].is_clear());
            assert(!t[slot(b.2 as int, if lx > f.2 { y } else { a2 })].is_clear());
            assert(!t[slot(if ly > f.3 { x } else { a3 }, b.3 as int)].is_clear());
        },
    }
    assert(box_hit(t, b));
    assert forall|u: int, v: int|
        0 <= u < 256 && 0 <= v < 256 && before(u, v, x + 1, y) && !(#[trigger] t[slot(
            u,
            v,
        )]).is_clear() implies b.0 <= u <= b.2 && b.1 <= v <= b.3 by {
        if prev is None {
            assert(!before(u, v, x, y));
        }
    }
    assert(box_covers(t, b, x + 1, y));
}

/// The smallest box around the pixels of a tile that are not transparent.
fn tile_extent(t: &Tile) -> (r: Option<(usize, usize, usize, usize)>)
    requires
        t.wf(),
    ensures
        r is None <==> forall|i: int| 0 <= i < TILE_PIXELS ==> (#[trigger] t@[i]).is_clear(),
        r matches Some(b) ==> tile_box(t@, b),
{
    let mut found: Option<(usize, usize, usize, usize)> = None;
    let mut ly: usize = 0;
    while ly < TILE_SIZE
        invariant
            t.wf(),
            ly <= TILE_SIZE,
            scanned(t@, found, 0, ly as int),
        decreases TILE_SIZE - ly,
    {
        let mut lx: usize = 0;
        while lx < TILE_SIZE
            invariant
                t.wf(),
                ly < TILE_SIZE,
                lx <= TILE_SIZE,
                scanned(t@, found, lx as int, ly as int),
            decreases TILE_SIZE - lx,
        {
            let px: Rgba32F = t.get(lx, ly);
            if !px.is_transparent() {
                assert(!t@[slot(lx as int, ly as int)].is_clear());
                let ghost prev = found;
                found = match found {
                    None => Some((lx, ly, lx, ly)),
                    Some(b) => Some(
                        (
                            if lx < b.0 { lx } else { b.0 },
                            if ly < b.1 { ly } else { b.1 },
                            if lx > b.2 { lx } else { b.2 },
                            if ly > b.3 { ly } else { b.3 },
                        ),
                    ),
                };
                proof {
                    lemma_scan_step(t@, prev, lx, ly, found->0);
                }
            }
            lx = lx + 1;
        }
        ly = ly + 1;
    }
    proof {
        t.lemma_len();
        match found {
            None => {
                assert forall|i: int| 0 <= i < TILE_PIXELS implies (#[trigger] t@[i]).is_clear() by {
                    assert(t@[slot(i % 256, i / 256)].is_clear());
                    assert(slot(i % 256, i / 256) == i);
                }
            },
            Some(b) => {
                let y = choose|ly: int|
                    0 <= ly < 256 && !(#[trigger] t@[slot(b.0 as int, ly)]).is_clear();
                assert(0 <= slot(b.0 as int, y) < TILE_PIXELS);
            },
        }
    }
    found
}

impl TiledBuffer {
    /// Return the exact bounding rectangle of all non-transparent pixels, or
    /// `None` if the buffer is fully transparent.
    pub fn exact_bounds(&self) -> (r: Option<Rect>)
        requires
            self.wf(),
        ensures
            r == ink_box(self@),
            r is Some <==> exists|p: IVec2| #[trigger] inked(self@).contains(p),
            r matches Some(b) ==> is_ink_box(self@, b),
    {
        let r: Option<Rect> = self.find_bounds();
        proof {
            if let Some(b) = r {
                assert(is_ink_box(self@, b));
                let c = choose|c: Rect| is_ink_box(self@, c);
                ink_box_is_unique(self@, b, c);
            }
        }
        r
    }

    fn find_bounds(&self) -> (r: Option<Rect>)
        requires
            self.wf(),
        ensures
            r is Some <==> exists|p: IVec2| #[trigger] inked(self@).contains(p),
            r matches Some(b) ==> exists|lo: IVec2, hi: IVec2| #[trigger]
                tight(inked(self@), lo, hi) && b == Rect::from_corners_spec(lo, hi),
    {
        let v: Vec<(TileCoord, Arc<Tile>)> = self.occupied_tiles();
        let mut found: Option<(IVec2, IVec2)> = None;
        let mut i: usize = 0;
        proof {
            self.lemma_full();
        }
        while i < v.len()
            invariant
                i <= v@.len(),
                tiles_listed(v@, self@),
                full_tiles(self@),
                match found {
                    None => forall|p: IVec2| !(#[trigger] inked_in_first(self@, v@, i as int).contains(p)),
                    Some(f) => tight(inked_in_first(self@, v@, i as int), f.0, f.1),
                },
            decreases v@.len() - i,
        {
            let c: TileCoord = v[i].0;
            let base: Rect = match tile_rect(c) {
                Some(b) => b,
                None => {
                    proof {
                        lemma_far_step(self@, v@, i as int);
                    }
                    i = i + 1;
                    continue;
                },
            };
            let extent = tile_extent(&v[i].1);
            let ghost prev = found;
            match extent {
                None => {},
                Some(b) => {
                    let a: IVec2 = IVec2::new(base.x + b.0 as i32, base.y + b.1 as i32);
                    let z: IVec2 = IVec2::new(base.x + b.2 as i32, base.y + b.3 as i32);
                    found = match found {
                        None => Some((a, z)),
                        Some(f) => Some((f.0.min(a), f.1.max(z))),
                    };
                },
            }
            proof {
                lemma_extent_step(self@, v@, i as int, prev, extent, found);
            }
            i = i + 1;
        }
        proof {
            assert(inked_in_first(self@, v@, i as int) =~= inked(self@)) by {
                assert forall|p: IVec2| #[trigger] inked(self@).contains(p) implies inked_in_first(
                    self@,
                    v@,
                    i as int,
                ).contains(p) by {
                    assert(self@.dom().contains(key(tile_of(p))));
                    let j = choose|j: int|
                        0 <= j < v@.len() && key((#[trigger] v@[j]).0) == key(tile_of(p));
                    assert(v@[j].0 == tile_of(p));
                }
            }
        }
        match found {
            None => None,
            Some(f) => {
                let r: Rect = Rect::from_corners(f.0, f.1);
                assert(tight(inked(self@), f.0, f.1) && r == Rect::from_corners_spec(f.0, f.1));
                Some(r)
            },
        }
    }
}

/// A tile beyond the `i32` coordinates holds no pixel.
proof fn lemma_far_step(
    m: Map<(i32, i32), Seq<Rgba32F>>,
    v: Seq<(TileCoord, Arc<Tile>)>,
    i: int,
)
    requires
        0 <= i < v.len(),
        !key_in_range(key(v[i].0)),
    ensures
        inked_in_first(m, v, i + 1) == inked_in_first(m, v, i),
{
    assert(inked_in_first(m, v, i + 1) =~= inked_in_first(m, v, i)) by {
        assert forall|p: IVec2| #[trigger] inked_in_first(m, v, i + 1).contains(
            p,
        ) implies inked_in_first(m, v, i).contains(p) by {
            let j = choose|j: int| 0 <= j < i + 1 && (#[trigger] v[j]).0 == tile_of(p);
            assert(tile_of(p).x == p.x as int / 256 && tile_of(p).y == p.y as int / 256);
            assert(j < i);
        }
    }
}

proof fn lemma_extent_step(
    m: Map<(i32, i32), Seq<Rgba32F>>,
    v: Seq<(TileCoord, Arc<Tile>)>,
    i: int,
    prev: Option<(IVec2, IVec2)>,
    extent: Option<(usize, usize, usize, usize)>,
    found: Option<(IVec2, IVec2)>,
)
    requires
        0 <= i < v.len(),
        tiles_listed(v, m),
        full_tiles(m),
        fits_i32(v[i].0.x * 256),
        fits_i32(v[i].0.y * 256),
        match prev {
            None => forall|p: IVec2| !(#[trigger] inked_in_first(m, v, i).contains(p)),
            Some(f) => tight(inked_in_first(m, v, i), f.0, f.1),
        },
        match extent {
            None => (forall|k: int| 0 <= k < TILE_PIXELS ==> (#[trigger] v[i].1@[k]).is_clear())
                && found == prev,
            Some(b) => tile_box(v[i].1@, b) && found is Some && ({
                let ax = v[i].0.x * 256 + b.0;
                let ay = v[i].0.y * 256 + b.1;
                let zx = v[i].0.x * 256 + b.2;
                let zy = v[i].0.y * 256 + b.3;
                let f = found->0;
                match prev {
                    None => f.0.x == ax && f.0.y == ay && f.1.x == zx && f.1.y == zy,
                    Some(p) => {
                        &&& f.0.x == (if p.0.x <= ax { p.0.x as int } else { ax })
                        &&& f.0.y == (if p.0.y <= ay { p.0.y as int } else { ay })
                        &&& f.1.x == (if p.1.x >= zx { p.1.x as int } else { zx })
                        &&& f.1.y == (if p.1.y >= zy { p.1.y as int } else { zy })
                    },
                }
            }),
        },
    ensures
        match found {
            None => forall|p: IVec2| !(#[trigger] inked_in_first(m, v, i + 1).contains(p)),
            Some(f) => tight(inked_in_first(m, v, i + 1), f.0, f.1),
        },
{
    let c = v[i].0;
    let t = v[i].1@;
    assert(m.dom().contains(key(c)) && m[key(c)] == t);
    let s0 = inked_in_first(m, v, i);
    let s1 = inked_in_first(m, v, i + 1);
    assert forall|p: IVec2| #[trigger] s1.contains(p) <==> s0.contains(p) || (tile_of(p) == c
        && !t[slot_of(p)].is_clear()) by {
        lemma_slot(p);
        if s1.contains(p) && !s0.contains(p) {
            let j = choose|j: int| 0 <= j < i + 1 && (#[trigger] v[j]).0 == tile_of(p);
            assert(j == i);
        }
        if s0.contains(p) {
            let j = choose|j: int| 0 <= j < i && (#[trigger] v[j]).0 == tile_of(p);
            assert(v[j].0 == tile_of(p));
        }
        if tile_of(p) == c && !t[slot_of(p)].is_clear() {
            assert(v[i].0 == tile_of(p));
        }
    }
    match extent {
        None => {
            assert forall|p: IVec2| #[trigger] s1.contains(p) <==> s0.contains(p) by {
                lemma_slot(p);
                assert(t[slot_of(p)].is_clear() || !t[slot_of(p)].is_clear());
            }
            assert(s1 =~= s0);
        },
        Some(b) => {
            let f = found->0;
            let wx0 = choose|ly: int| 0 <= ly < 256 && !(#[trigger] t[slot(b.0 as int, ly)]).is_clear();
            let wy0 = choose|lx: int| 0 <= lx < 256 && !(#[trigger] t[slot(lx, b.1 as int)]).is_clear();
            let wx1 = choose|ly: int| 0 <= ly < 256 && !(#[trigger] t[slot(b.2 as int, ly)]).is_clear();
            let wy1 = choose|lx: int| 0 <= lx < 256 && !(#[trigger] t[slot(lx, b.3 as int)]).is_clear();
            let px0 = lemma_tile_pixel(c, b.0 as int, wx0);
            let py0 = lemma_tile_pixel(c, wy0, b.1 as int);
            let px1 = lemma_tile_pixel(c, b.2 as int, wx1);
            let py1 = lemma_tile_pixel(c, wy1, b.3 as int);
            assert(s1.contains(px0) && s1.contains(py0) && s1.contains(px1) && s1.contains(py1));
            assert forall|p: IVec2| #[trigger] s1.contains(p) implies f.0.x <= p.x <= f.1.x && f.0.y
                <= p.y <= f.1.y by {
                if !s0.contains(p) {
                    assert(!t[slot(local_index(p.x as int), local_index(p.y as int))].is_clear());
                    assert(c.x == p.x as int / 256 && c.y == p.y as int / 256);
                }
            }
            match prev {
                None => {
                    assert(tight(s1, f.0, f.1));
                },
                Some(g) => {
                    let a0 = choose|p: IVec2| #[trigger] s0.contains(p) && p.x == g.0.x;
                    let a1 = choose|p: IVec2| #[trigger] s0.contains(p) && p.y == g.0.y;
                    let a2 = choose|p: IVec2| #[trigger] s0.contains(p) && p.x == g.1.x;
                    let a3 = choose|p: IVec2| #[trigger] s0.contains(p) && p.y == g.1.y;
                    assert(s1.contains(a0) && s1.contains(a1) && s1.contains(a2) && s1.contains(
                        a3,
                    ));
                    assert(tight(s1, f.0, f.1));
                },
            }
        },
    }
}

/// The pixel at local index `(lx, ly)` of a tile within the `i32` coordinates.
proof fn lemma_tile_pixel(c: TileCoord, lx: int, ly: int) -> (p: IVec2)
    requires
        fits_i32(c.x * 256),
        fits_i32(c.y * 256),
        0 <= lx < 256,
        0 <= ly < 256,
    ensures
        p.x == c.x * 256 + lx,
        p.y == c.y * 256 + ly,
        tile_of(p) == c,
        slot_of(p) == slot(lx, ly),
{
    let p = IVec2 { x: (c.x * 256 + lx) as i32, y: (c.y * 256 + ly) as i32 };
    pixel_to_tile_inverts_tile_to_pixel(c, lx, ly, p);
    p
}

/// The exact bounds hold every pixel that is not transparent, unless they span
/// all 2³² columns or rows.
pub proof fn exact_bounds_hold_every_pixel(
    m: Map<(i32, i32), Seq<Rgba32F>>,
    lo: IVec2,
    hi: IVec2,
    p: IVec2,
)
    requires
        tight(inked(m), lo, hi),
        !pixel_at(m, p).is_clear(),
        hi.x - lo.x < u32::MAX,
        hi.y - lo.y < u32::MAX,
    ensures
        Rect::from_corners_spec(lo, hi).has(p.x as int, p.y as int),
{
    assert(inked(m).contains(p));
}

/// A set of pixels has one smallest box only.
pub proof fn tight_box_is_unique(s: Set<IVec2>, lo: IVec2, hi: IVec2, lo2: IVec2, hi2: IVec2)
    requires
        tight(s, lo, hi),
        tight(s, lo2, hi2),
    ensures
        lo == lo2,
        hi == hi2,
{
}

/// There is one smallest rectangle only.
pub proof fn ink_box_is_unique(m: Map<(i32, i32), Seq<Rgba32F>>, b: Rect, c: Rect)
    requires
        is_ink_box(m, b),
        is_ink_box(m, c),
    ensures
        b == c,
{
    let (lo, hi) = choose|lo: IVec2, hi: IVec2| #[trigger]
        tight(inked(m), lo, hi) && b == Rect::from_corners_spec(lo, hi);
    let (lo2, hi2) = choose|lo: IVec2, hi: IVec2| #[trigger]
        tight(inked(m), lo, hi) && c == Rect::from_corners_spec(lo, hi);
    tight_box_is_unique(inked(m), lo, hi, lo2, hi2);
}

/// The tile under key `k` lies where pixels have `i32` coordinates.
pub open spec fn key_in_range(k: (i32, i32)) -> bool {
    fits_i32(k.0 * 256) && fits_i32(k.1 * 256)
}

/// The edges (left, top, right, bottom) of the smallest box around all tiles
/// within the `i32` coordinates.
pub open spec fn tile_hull(m: Map<(i32, i32), Seq<Rgba32F>>, e: (int, int, int, int)) -> bool {
    &&& forall|k: (i32, i32)| #[trigger]
        m.dom().contains(k) && key_in_range(k) ==> e.0 <= k.0 * 256 && e.1 <= k.1 * 256 && k.0 * 256
            + 256 <= e.2 && k.1 * 256 + 256 <= e.3
    &&& exists|k: (i32, i32)| #[trigger] m.dom().contains(k) && key_in_range(k) && k.0 * 256 == e.0
    &&& exists|k: (i32, i32)| #[trigger] m.dom().contains(k) && key_in_range(k) && k.1 * 256 == e.1
    &&& exists|k: (i32, i32)| #[trigger]
        m.dom().contains(k) && key_in_range(k) && k.0 * 256 + 256 == e.2
    &&& exists|k: (i32, i32)| #[trigger]
        m.dom().contains(k) && key_in_range(k) && k.1 * 256 + 256 == e.3
}

/// The rectangle between four edges, its sides clamped.
pub open spec fn edges_rect(e: (int, int, int, int)) -> Rect {
    Rect {
        x: e.0 as i32,
        y: e.1 as i32,
        w: clamp_len(e.2 - e.0) as u32,
        h: clamp_len(e.3 - e.1) as u32,
    }
}

/// The bounding rectangle of all tiles within the `i32` coordinates.
pub open spec fn tile_bounds(m: Map<(i32, i32), Seq<Rgba32F>>) -> Option<Rect> {
    if exists|k: (i32, i32)| #[trigger] m.dom().contains(k) && key_in_range(k) {
        Some(edges_rect(choose|e: (int, int, int, int)| #[trigger] tile_hull(m, e)))
    } else {
        None
    }
}

/// The edges of the smallest box around the first `n` tiles listed in `v`, those
/// beyond the `i32` coordinates left out.
spec fn hull_so_far(
    v: Seq<(TileCoord, Arc<Tile>)>,
    n: int,
    found: Option<(i64, i64, i64, i64)>,
) -> bool {
    match found {
        None => forall|j: int| 0 <= j < n ==> !key_in_range(key((#[trigger] v[j]).0)),
        Some(e) => {
            &&& -0x8000_0000 <= e.0 <= e.2 <= 0x8000_0000
            &&& -0x8000_0000 <= e.1 <= e.3 <= 0x8000_0000
            &&& forall|j: int|
                0 <= j < n && key_in_range(key((#[trigger] v[j]).0)) ==> e.0 <= v[j].0.x * 256
                    && e.1 <= v[j].0.y * 256 && v[j].0.x * 256 + 256 <= e.2 && v[j].0.y * 256 + 256
                    <= e.3
            &&& exists|j: int|
                0 <= j < n && key_in_range(key((#[trigger] v[j]).0)) && v[j].0.x * 256 == e.0
            &&& exists|j: int|
                0 <= j < n && key_in_range(key((#[trigger] v[j]).0)) && v[j].0.y * 256 == e.1
            &&& exists|j: int|
                0 <= j < n && key_in_range(key((#[trigger] v[j]).0)) && v[j].0.x * 256 + 256 == e.2
            &&& exists|j: int|
                0 <= j < n && key_in_range(key((#[trigger] v[j]).0)) && v[j].0.y * 256 + 256 == e.3
        },
    }
}

impl TiledBuffer {
    /// Return the bounding rectangle of all occupied tiles, or `None` if empty.
    ///
    /// Tiles beyond the `i32` coordinates are left out.
    pub fn bounds(&self) -> (r: Option<Rect>)
        requires
            self.wf(),
        ensures
            r is Some <==> exists|k: (i32, i32)| #[trigger]
                self@.dom().contains(k) && key_in_range(k),
            r matches Some(b) ==> exists|e: (int, int, int, int)| #[trigger]
                tile_hull(self@, e) && b == edges_rect(e),
            r == tile_bounds(self@),
    {
        let v: Vec<(TileCoord, Arc<Tile>)> = self.occupied_tiles();
        let mut found: Option<(i64, i64, i64, i64)> = None;
        let mut i: usize = 0;
        while i < v.len()
            invariant
                i <= v@.len(),
                hull_so_far(v@, i as int, found),
            decreases v@.len() - i,
        {
            let ghost prev = found;
            if let Some(t) = tile_rect(v[i].0) {
                let l: i64 = t.x as i64;
                let u: i64 = t.y as i64;
                let r: i64 = t.right();
                let b: i64 = t.bottom();
                found = match found {
                    None => Some((l, u, r, b)),
                    Some(e) => Some(
                        (
                            if l < e.0 { l } else { e.0 },
                            if u < e.1 { u } else { e.1 },
                            if r > e.2 { r } else { e.2 },
                            if b > e.3 { b } else { e.3 },
                        ),
                    ),
                };
                proof {
                    let c = v@[i as int].0;
                    assert(key_in_range(key(c)));
                    if let Some(e) = prev {
                        let a0 = choose|j: int|
                            0 <= j < i && key_in_range(key((#[trigger] v@[j]).0)) && v@[j].0.x * 256
                                == e.0;
                        let a1 = choose|j: int|
                            0 <= j < i && key_in_range(key((#[trigger] v@[j]).0)) && v@[j].0.y * 256
                                == e.1;
                        let a2 = choose|j: int|
                            0 <= j < i && key_in_range(key((#[trigger] v@[j]).0)) && v@[j].0.x * 256
                                + 256 == e.2;
                        let a3 = choose|j: int|
                            0 <= j < i && key_in_range(key((#[trigger] v@[j]).0)) && v@[j].0.y * 256
                                + 256 == e.3;
                        assert(hull_so_far(v@, i + 1, found));
                    }
                }
            }
            i = i + 1;
        }
        match found {
            None => {
                proof {
                    assert forall|k: (i32, i32)| #[trigger] self@.dom().contains(
                        k,
                    ) implies !key_in_range(k) by {
                        let j = choose|j: int| 0 <= j < v@.len() && key((#[trigger] v@[j]).0) == k;
                        assert(!key_in_range(key(v@[j].0)));
                    }
                }
                None
            },
            Some(e) => {
                let w: i64 = e.2 - e.0;
                let h: i64 = e.3 - e.1;
                let r: Rect = Rect::new(
                    e.0 as i32,
                    e.1 as i32,
                    if w > 0xffff_ffff { u32::MAX } else { w as u32 },
                    if h > 0xffff_ffff { u32::MAX } else { h as u32 },
                );
                proof {
                    let g = (e.0 as int, e.1 as int, e.2 as int, e.3 as int);
                    assert forall|k: (i32, i32)| #[trigger] self@.dom().contains(k) && key_in_range(
                        k,
                    ) implies g.0 <= k.0 * 256 && g.1 <= k.1 * 256 && k.0 * 256 + 256 <= g.2
                        && k.1 * 256 + 256 <= g.3 by {
                        let j = choose|j: int| 0 <= j < v@.len() && key((#[trigger] v@[j]).0) == k;
                        assert(key_in_range(key(v@[j].0)));
                    }
                    let n = v@.len() as int;
                    let a0 = choose|j: int|
                        0 <= j < n && key_in_range(key((#[trigger] v@[j]).0)) && v@[j].0.x * 256
                            == e.0;
                    let a1 = choose|j: int|
                        0 <= j < n && key_in_range(key((#[trigger] v@[j]).0)) && v@[j].0.y * 256
                            == e.1;
                    let a2 = choose|j: int|
                        0 <= j < n && key_in_range(key((#[trigger] v@[j]).0)) && v@[j].0.x * 256
                            + 256 == e.2;
                    let a3 = choose|j: int|
                        0 <= j < n && key_in_range(key((#[trigger] v@[j]).0)) && v@[j].0.y * 256
                            + 256 == e.3;
                    assert(self@.dom().contains(key(v@[a0].0)));
                    assert(self@.dom().contains(key(v@[a1].0)));
                    assert(self@.dom().contains(key(v@[a2].0)));
                    assert(self@.dom().contains(key(v@[a3].0)));
                    assert(tile_hull(self@, g));
                    assert(r == edges_rect(g));
                }
                Some(r)
            },
        }
    }
}

/// The place of document pixel `(x, y)` in the row-major pixels of `rect`.
pub open spec fn rect_slot(rect: Rect, x: int, y: int) -> int {
    (y - rect.y) * rect.w + (x - rect.x)
}

/// The place of a pixel is a place of the list.
pub proof fn lemma_rect_slot(rect: Rect, x: int, y: int)
    requires
        rect.has(x, y),
    ensures
        0 <= rect_slot(rect, x, y) < rect.w * rect.h,
{
    let dx = x - rect.x;
    let dy = y - rect.y;
    let w = rect.w as int;
    let h = rect.h as int;
    assert(0 <= dy * w && dy * w + w <= h * w) by (nonlinear_arith)
        requires
            0 <= dy < h,
            0 <= w,
    ;
    assert(h * w == w * h) by (nonlinear_arith);
}

/// Different pixels have different places.
pub proof fn lemma_rect_slots_differ(rect: Rect, x: int, y: int, u: int, v: int)
    requires
        rect.has(x, y),
        rect.has(u, v),
        x != u || y != v,
    ensures
        rect_slot(rect, x, y) != rect_slot(rect, u, v),
{
    let w = rect.w as int;
    if y < v {
        assert((y - rect.y) * w + w <= (v - rect.y) * w) by (nonlinear_arith)
            requires
                y < v,
                w >= 0,
        ;
    } else if v < y {
        assert((v - rect.y) * w + w <= (y - rect.y) * w) by (nonlinear_arith)
            requires
                v < y,
                w >= 0,
        ;
    }
}

/// The pixel of a buffer at `(x, y)`; transparent beyond the `i32` coordinates.
pub open spec fn pixel_or_clear(m: Map<(i32, i32), Seq<Rgba32F>>, x: int, y: int) -> Rgba32F {
    if fits_i32(x) && fits_i32(y) {
        pixel_at(m, IVec2 { x: x as i32, y: y as i32 })
    } else {
        clear_px()
    }
}

/// The tile that holds document pixel `(x, y)`.
pub open spec fn tile_holding(x: int, y: int) -> TileCoord {
    TileCoord { x: (x / 256) as i32, y: (y / 256) as i32 }
}

/// Pixel `(x, y)` lies in one of the first `n` tiles.
spec fn handled(tiles: Seq<TileCoord>, n: int, x: int, y: int) -> bool {
    exists|j: int| 0 <= j < n && #[trigger] tiles[j] == tile_holding(x, y)
}

impl TiledBuffer {
    /// Read a rectangular region into a row-major `Vec`.
    pub fn read_rect(&self, rect: Rect) -> (out: Vec<Rgba32F>)
        requires
            self.wf(),
            rect.w * rect.h <= u32::MAX,
        ensures
            out@.len() == rect.w * rect.h,
            forall|x: int, y: int|
                #![trigger rect_slot(rect, x, y)]
                rect.has(x, y) ==> out@[rect_slot(rect, x, y)] == pixel_or_clear(self@, x, y),
    {
        let area: usize = rect.area() as usize;
        let mut out: Vec<Rgba32F> = vec![Rgba32F::transparent(); area];
        if area == 0 {
            proof {
                assert forall|x: int, y: int| rect.has(x, y) implies false by {
                    lemma_rect_slot(rect, x, y);
                }
            }
            return out;
        }
        let tiles: Vec<TileCoord> = rect.tiles_covered();
        proof {
            assert forall|x: int, y: int|
                #![trigger rect_slot(rect, x, y)]
                rect.has(x, y) implies out@[rect_slot(rect, x, y)] == clear_px() by {
                lemma_rect_slot(rect, x, y);
            }
        }
        let mut i: usize = 0;
        while i < tiles.len()
            invariant
                self.wf(),
                rect.w * rect.h <= u32::MAX,
                i <= tiles@.len(),
                tiles@.no_duplicates(),
                forall|k: int| 0 <= k < tiles@.len() ==> rect.touches(#[trigger] tiles@[k]),
                out@.len() == rect.w * rect.h,
                forall|x: int, y: int|
                    #![trigger rect_slot(rect, x, y)]
                    rect.has(x, y) ==> out@[rect_slot(rect, x, y)] == (if handled(
                        tiles@,
                        i as int,
                        x,
                        y,
                    ) {
                        pixel_or_clear(self@, x, y)
                    } else {
                        clear_px()
                    }),
            decreases tiles@.len() - i,
        {
            let c: TileCoord = tiles[i];
            if let Some(t) = tile_rect(c) {
                if let Some(tile) = self.get_tile(c) {
                    proof {
                        lemma_touched_overlaps(rect, c);
                    }
                    if let Some(inter) = t.intersect(rect) {
                        let ghost start = out@;
                        read_block(&tile, t, inter, rect, &mut out);
                        proof {
                            lemma_handled_step(tiles@, i as int, rect);
                            assert forall|x: int, y: int|
                                #![trigger rect_slot(rect, x, y)]
                                rect.has(x, y) implies out@[rect_slot(rect, x, y)] == (if handled(
                                tiles@,
                                i + 1,
                                x,
                                y,
                            ) {
                                pixel_or_clear(self@, x, y)
                            } else {
                                clear_px()
                            }) by {
                                if tile_holding(x, y) == c {
                                    lemma_in_tile(c, t, rect, inter, x, y);
                                    let p = IVec2 { x: x as i32, y: y as i32 };
                                    assert(tile_of(p) == c);
                                    assert(slot_of(p) == slot(x - t.x, y - t.y));
                                } else {
                                    lemma_not_in_tile(c, t, rect, inter, x, y);
                                }
                            }
                        }
                    }
                } else {
                    proof {
                        lemma_handled_step(tiles@, i as int, rect);
                    }
                }
            } else {
                proof {
                    lemma_handled_step(tiles@, i as int, rect);
                    assert forall|x: int, y: int| rect.has(x, y) && tile_holding(x, y)
                        == c implies pixel_or_clear(self@, x, y) == clear_px() by {
                        lemma_tile_out_of_range(rect, x, y, c);
                    }
                }
            }
            i = i + 1;
        }
        proof {
            assert forall|x: int, y: int| rect.has(x, y) implies handled(
                tiles@,
                i as int,
                x,
                y,
            ) by {
                lemma_all_handled(tiles@, rect, x, y);
            }
        }
        out
    }
}

/// Copies the pixels of a tile (whose rectangle is `t`) that lie in `inter` to
/// their places in the row-major pixels of `rect`.
fn read_block(tile: &Tile, t: Rect, inter: Rect, rect: Rect, out: &mut Vec<Rgba32F>)
    requires
        tile.wf(),
        t.w == 256 && t.h == 256,
        t.intersect_spec(rect) == Some(inter),
        rect.w * rect.h <= u32::MAX,
        old(out)@.len() == rect.w * rect.h,
    ensures
        final(out)@.len() == rect.w * rect.h,
        forall|x: int, y: int|
            #![trigger rect_slot(rect, x, y)]
            rect.has(x, y) ==> final(out)@[rect_slot(rect, x, y)] == (if inter.has(x, y) {
                tile@[slot(x - t.x, y - t.y)]
            } else {
                old(out)@[rect_slot(rect, x, y)]
            }),
{
    let rx: i64 = rect.x as i64;
    let ry: i64 = rect.y as i64;
    let tx: i64 = t.x as i64;
    let ty: i64 = t.y as i64;
    let w: usize = rect.w as usize;
    let right: i64 = inter.right();
    let bottom: i64 = inter.bottom();
    let mut y: i64 = inter.y as i64;
    while y < bottom
        invariant
            tile.wf(),
            t.w == 256 && t.h == 256,
            t.intersect_spec(rect) == Some(inter),
            rect.w * rect.h <= u32::MAX,
            rx == rect.x && ry == rect.y && tx == t.x && ty == t.y && w == rect.w,
            right == inter.right_edge() && bottom == inter.bottom_edge(),
            inter.y <= y <= bottom,
            out@.len() == rect.w * rect.h,
            forall|u: int, v: int|
                #![trigger rect_slot(rect, u, v)]
                rect.has(u, v) ==> out@[rect_slot(rect, u, v)] == (if inter.has(u, v) && v < y {
                    tile@[slot(u - t.x, v - t.y)]
                } else {
                    old(out)@[rect_slot(rect, u, v)]
                }),
        decreases bottom - y,
    {
        let mut x: i64 = inter.x as i64;
        while x < right
            invariant
                tile.wf(),
                t.w == 256 && t.h == 256,
                t.intersect_spec(rect) == Some(inter),
                rect.w * rect.h <= u32::MAX,
                rx == rect.x && ry == rect.y && tx == t.x && ty == t.y && w == rect.w,
                right == inter.right_edge() && bottom == inter.bottom_edge(),
                inter.y <= y < bottom,
                inter.x <= x <= right,
                out@.len() == rect.w * rect.h,
                forall|u: int, v: int|
                    #![trigger rect_slot(rect, u, v)]
                    rect.has(u, v) ==> out@[rect_slot(rect, u, v)] == (if inter.has(u, v) && before(
                        u,
                        v,
                        x as int,
                        y as int,
                    ) {
                        tile@[slot(u - t.x, v - t.y)]
                    } else {
                        old(out)@[rect_slot(rect, u, v)]
                    }),
            decreases right - x,
        {
            let lx: usize = (x - tx) as usize;
            let ly: usize = (y - ty) as usize;
            let px: Rgba32F = tile.get(lx, ly);
            let dx: usize = (x - rx) as usize;
            let dy: usize = (y - ry) as usize;
            proof {
                lemma_rect_slot(rect, x as int, y as int);
                assert(0 <= (y - rect.y) * rect.w) by (nonlinear_arith)
                    requires
                        y >= rect.y,
                ;
            }
            let ghost start = out@;
            out.set(dy * w + dx, px);
            proof {
                assert(dy * w + dx == rect_slot(rect, x as int, y as int));
                assert forall|u: int, v: int|
                    #![trigger rect_slot(rect, u, v)]
                    rect.has(u, v) implies out@[rect_slot(rect, u, v)] == (if inter.has(u, v)
                    && before(u, v, x + 1, y as int) {
                    tile@[slot(u - t.x, v - t.y)]
                } else {
                    old(out)@[rect_slot(rect, u, v)]
                }) by {
                    lemma_rect_slot(rect, u, v);
                    if u != x || v != y {
                        lemma_rect_slots_differ(rect, x as int, y as int, u, v);
                    }
                }
            }
            x = x + 1;
        }
        y = y + 1;
    }
}

/// A tile within the `i32` coordinates that a rectangle touches overlaps it.
proof fn lemma_touched_overlaps(rect: Rect, c: TileCoord)
    requires
        rect.touches(c),
    ensures
        tile_rect_spec(c) matches Some(t) ==> t.intersect_spec(rect) is Some,
{
}

/// A pixel of `rect` in tile `c` lies in the overlap of the two.
proof fn lemma_in_tile(c: TileCoord, t: Rect, rect: Rect, inter: Rect, x: int, y: int)
    requires
        tile_rect_spec(c) == Some(t),
        t.intersect_spec(rect) == Some(inter),
        rect.has(x, y),
        tile_holding(x, y) == c,
    ensures
        inter.has(x, y),
        fits_i32(x) && fits_i32(y),
        local_index(x) == x - t.x,
        local_index(y) == y - t.y,
{
    assert(c.x == x / 256 && c.y == y / 256);
}

/// A pixel of `rect` outside tile `c` does not lie in the overlap of the two.
proof fn lemma_not_in_tile(c: TileCoord, t: Rect, rect: Rect, inter: Rect, x: int, y: int)
    requires
        tile_rect_spec(c) == Some(t),
        t.intersect_spec(rect) == Some(inter),
        rect.has(x, y),
        tile_holding(x, y) != c,
    ensures
        !inter.has(x, y),
{
}

/// A pixel of `rect` in a tile beyond the `i32` coordinates has none.
proof fn lemma_tile_out_of_range(rect: Rect, x: int, y: int, c: TileCoord)
    requires
        rect.has(x, y),
        tile_holding(x, y) == c,
        tile_rect_spec(c) is None,
    ensures
        !(fits_i32(x) && fits_i32(y)),
{
    assert(c.x == x / 256 && c.y == y / 256);
}

proof fn lemma_handled_step(tiles: Seq<TileCoord>, n: int, rect: Rect)
    requires
        0 <= n < tiles.len(),
    ensures
        forall|x: int, y: int|
            #![trigger rect_slot(rect, x, y)]
            handled(tiles, n + 1, x, y) <==> handled(tiles, n, x, y) || tile_holding(x, y)
                == tiles[n],
        forall|x: int, y: int|
            #![trigger handled(tiles, n + 1, x, y)]
            handled(tiles, n + 1, x, y) <==> handled(tiles, n, x, y) || tile_holding(x, y)
                == tiles[n],
{
    assert forall|x: int, y: int| handled(tiles, n + 1, x, y) <==> handled(tiles, n, x, y)
        || tile_holding(x, y) == tiles[n] by {
        if handled(tiles, n + 1, x, y) {
            let j = choose|j: int| 0 <= j < n + 1 && #[trigger] tiles[j] == tile_holding(x, y);
            assert(j == n || tiles[j] == tile_holding(x, y));
        }
        if handled(tiles, n, x, y) {
            let j = choose|j: int| 0 <= j < n && #[trigger] tiles[j] == tile_holding(x, y);
            assert(tiles[j] == tile_holding(x, y));
        }
    }
}

proof fn lemma_all_handled(tiles: Seq<TileCoord>, rect: Rect, x: int, y: int)
    requires
        forall|c: TileCoord| #[trigger] tiles.contains(c) <==> rect.touches(c),
        rect.has(x, y),
    ensures
        handled(tiles, tiles.len() as int, x, y),
{
    let c = tile_holding(x, y);
    assert(c.x == x / 256 && c.y == y / 256);
    assert(rect.touches(c));
    assert(tiles.contains(c));
    let j = choose|j: int| 0 <= j < tiles.len() && tiles[j] == c;
    assert(tiles[j] == c);
}

/// Writes the pixels of `data` (row-major over `rect`) that lie in `inter` to a
/// tile whose rectangle is `t`.
fn write_block(tile: &mut Tile, t: Rect, inter: Rect, rect: Rect, data: &[Rgba32F])
    requires
        old(tile).wf(),
        t.w == 256 && t.h == 256,
        t.intersect_spec(rect) == Some(inter),
        rect.w * rect.h <= u32::MAX,
        data@.len() == rect.w * rect.h,
    ensures
        final(tile).wf(),
        forall|x: int, y: int|
            #![trigger slot(x - t.x, y - t.y)]
            t.has(x, y) ==> final(tile)@[slot(x - t.x, y - t.y)] == (if inter.has(x, y) {
                data@[rect_slot(rect, x, y)]
            } else {
                old(tile)@[slot(x - t.x, y - t.y)]
            }),
{
    let rx: i64 = rect.x as i64;
    let ry: i64 = rect.y as i64;
    let tx: i64 = t.x as i64;
    let ty: i64 = t.y as i64;
    let w: usize = rect.w as usize;
    let right: i64 = inter.right();
    let bottom: i64 = inter.bottom();
    let mut y: i64 = inter.y as i64;
    while y < bottom
        invariant
            tile.wf(),
            t.w == 256 && t.h == 256,
            t.intersect_spec(rect) == Some(inter),
            rect.w * rect.h <= u32::MAX,
            data@.len() == rect.w * rect.h,
            rx == rect.x && ry == rect.y && tx == t.x && ty == t.y && w == rect.w,
            right == inter.right_edge() && bottom == inter.bottom_edge(),
            inter.y <= y <= bottom,
            forall|u: int, v: int|
                #![trigger slot(u - t.x, v - t.y)]
                t.has(u, v) ==> tile@[slot(u - t.x, v - t.y)] == (if inter.has(u, v) && v < y {
                    data@[rect_slot(rect, u, v)]
                } else {
                    old(tile)@[slot(u - t.x, v - t.y)]
                }),
        decreases bottom - y,
    {
        let mut x: i64 = inter.x as i64;
        while x < right
            invariant
                tile.wf(),
                t.w == 256 && t.h == 256,
                t.intersect_spec(rect) == Some(inter),
                rect.w * rect.h <= u32::MAX,
                data@.len() == rect.w * rect.h,
                rx == rect.x && ry == rect.y && tx == t.x && ty == t.y && w == rect.w,
                right == inter.right_edge() && bottom == inter.bottom_edge(),
                inter.y <= y < bottom,
                inter.x <= x <= right,
                forall|u: int, v: int|
                    #![trigger slot(u - t.x, v - t.y)]
                    t.has(u, v) ==> tile@[slot(u - t.x, v - t.y)] == (if inter.has(u, v) && before(
                        u,
                        v,
                        x as int,
                        y as int,
                    ) {
                        data@[rect_slot(rect, u, v)]
                    } else {
                        old(tile)@[slot(u - t.x, v - t.y)]
                    }),
            decreases right - x,
        {
            let lx: usize = (x - tx) as usize;
            let ly: usize = (y - ty) as usize;
            let dx: usize = (x - rx) as usize;
            let dy: usize = (y - ry) as usize;
            proof {
                lemma_rect_slot(rect, x as int, y as int);
                assert(0 <= (y - rect.y) * rect.w) by (nonlinear_arith)
                    requires
                        y >= rect.y,
                ;
                tile.lemma_len();
            }
            tile.set(lx, ly, data[dy * w + dx]);
            assert(dy * w + dx == rect_slot(rect, x as int, y as int));
            x = x + 1;
        }
        y = y + 1;
    }
}

/// Sets the pixels of a tile (whose rectangle is `t`) that lie in `inter` to the
/// transparent pixel.
fn clear_block(tile: &mut Tile, t: Rect, inter: Rect, rect: Rect)
    requires
        old(tile).wf(),
        t.w == 256 && t.h == 256,
        t.intersect_spec(rect) == Some(inter),
    ensures
        final(tile).wf(),
        forall|x: int, y: int|
            #![trigger slot(x - t.x, y - t.y)]
            t.has(x, y) ==> final(tile)@[slot(x - t.x, y - t.y)] == (if inter.has(x, y) {
                clear_px()
            } else {
                old(tile)@[slot(x - t.x, y - t.y)]
            }),
{
    let tx: i64 = t.x as i64;
    let ty: i64 = t.y as i64;
    let right: i64 = inter.right();
    let bottom: i64 = inter.bottom();
    let mut y: i64 = inter.y as i64;
    while y < bottom
        invariant
            tile.wf(),
            t.w == 256 && t.h == 256,
            t.intersect_spec(rect) == Some(inter),
            tx == t.x && ty == t.y,
            right == inter.right_edge() && bottom == inter.bottom_edge(),
            inter.y <= y <= bottom,
            forall|u: int, v: int|
                #![trigger slot(u - t.x, v - t.y)]
                t.has(u, v) ==> tile@[slot(u - t.x, v - t.y)] == (if inter.has(u, v) && v < y {
                    clear_px()
                } else {
                    old(tile)@[slot(u - t.x, v - t.y)]
                }),
        decreases bottom - y,
    {
        let mut x: i64 = inter.x as i64;
        while x < right
            invariant
                tile.wf(),
                t.w == 256 && t.h == 256,
                t.intersect_spec(rect) == Some(inter),
                tx == t.x && ty == t.y,
                right == inter.right_edge() && bottom == inter.bottom_edge(),
                inter.y <= y < bottom,
                inter.x <= x <= right,
                forall|u: int, v: int|
                    #![trigger slot(u - t.x, v - t.y)]
                    t.has(u, v) ==> tile@[slot(u - t.x, v - t.y)] == (if inter.has(u, v) && before(
                        u,
                        v,
                        x as int,
                        y as int,
                    ) {
                        clear_px()
                    } else {
                        old(tile)@[slot(u - t.x, v - t.y)]
                    }),
            decreases right - x,
        {
            let lx: usize = (x - tx) as usize;
            let ly: usize = (y - ty) as usize;
            proof {
                tile.lemma_len();
            }
            tile.set(lx, ly, Rgba32F::transparent());
            x = x + 1;
        }
        y = y + 1;
    }
}

/// True if every pixel of `data` (row-major over `rect`) that lies in `inter` is
/// transparent.
fn block_is_clear(inter: Rect, rect: Rect, data: &[Rgba32F]) -> (r: bool)
    requires
        forall|x: int, y: int| inter.has(x, y) ==> rect.has(x, y),
        !inter.empty(),
        rect.w * rect.h <= u32::MAX,
        data@.len() == rect.w * rect.h,
    ensures
        r <==> forall|x: int, y: int|
            #![trigger rect_slot(rect, x, y)]
            inter.has(x, y) ==> data@[rect_slot(rect, x, y)].is_clear(),
{
    let rx: i64 = rect.x as i64;
    let ry: i64 = rect.y as i64;
    let w: usize = rect.w as usize;
    let right: i64 = inter.right();
    let bottom: i64 = inter.bottom();
    let mut y: i64 = inter.y as i64;
    while y < bottom
        invariant
            forall|x: int, y: int| inter.has(x, y) ==> rect.has(x, y),
            !inter.empty(),
            rect.w * rect.h <= u32::MAX,
            data@.len() == rect.w * rect.h,
            rx == rect.x && ry == rect.y && w == rect.w,
            right == inter.right_edge() && bottom == inter.bottom_edge(),
            inter.y <= y <= bottom,
            forall|u: int, v: int|
                #![trigger rect_slot(rect, u, v)]
                inter.has(u, v) && v < y ==> data@[rect_slot(rect, u, v)].is_clear(),
        decreases bottom - y,
    {
        let mut x: i64 = inter.x as i64;
        while x < right
            invariant
                forall|x: int, y: int| inter.has(x, y) ==> rect.has(x, y),
                !inter.empty(),
                rect.w * rect.h <= u32::MAX,
                data@.len() == rect.w * rect.h,
                rx == rect.x && ry == rect.y && w == rect.w,
                right == inter.right_edge() && bottom == inter.bottom_edge(),
                inter.y <= y < bottom,
                inter.x <= x <= right,
                forall|u: int, v: int|
                    #![trigger rect_slot(rect, u, v)]
                    inter.has(u, v) && before(u, v, x as int, y as int) ==> data@[rect_slot(
                        rect,
                        u,
                        v,
                    )].is_clear(),
            decreases right - x,
        {
            assert(inter.has(x as int, y as int));
            assert(rect.has(x as int, y as int));
            let dx: usize = (x - rx) as usize;
            let dy: usize = (y - ry) as usize;
            proof {
                lemma_rect_slot(rect, x as int, y as int);
                assert(0 <= (y - rect.y) * rect.w) by (nonlinear_arith)
                    requires
                        y >= rect.y,
                ;
            }
            assert(dy * w + dx == rect_slot(rect, x as int, y as int));
            if !data[dy * w + dx].is_transparent() {
                return false;
            }
            x = x + 1;
        }
        y = y + 1;
    }
    true
}

/// What a buffer holds at `q` once `data` was written over `rect`.
pub open spec fn blitted(
    m: Map<(i32, i32), Seq<Rgba32F>>,
    rect: Rect,
    data: Seq<Rgba32F>,
    q: IVec2,
) -> Rgba32F {
    if rect.has(q.x as int, q.y as int) {
        data[rect_slot(rect, q.x as int, q.y as int)]
    } else {
        pixel_at(m, q)
    }
}

/// What a buffer holds at `q` once `rect` was cleared.
pub open spec fn cleared(m: Map<(i32, i32), Seq<Rgba32F>>, rect: Rect, q: IVec2) -> Rgba32F {
    if rect.has(q.x as int, q.y as int) {
        clear_px()
    } else {
        pixel_at(m, q)
    }
}

/// Tile `k` of `m` is the same in `n`.
pub open spec fn same_tile(
    m: Map<(i32, i32), Seq<Rgba32F>>,
    n: Map<(i32, i32), Seq<Rgba32F>>,
    k: (i32, i32),
) -> bool {
    (m.dom().contains(k) <==> n.dom().contains(k)) && (m.dom().contains(k) ==> m[k] == n[k])
}

/// Tiles listed before number `n`.
spec fn in_first(tiles: Seq<TileCoord>, n: int, k: (i32, i32)) -> bool {
    exists|j: int| 0 <= j < n && key(#[trigger] tiles[j]) == k
}

/// After the first `n` tiles: their pixels hold the outcome, the other tiles are
/// as before.
spec fn blit_progress(
    m0: Map<(i32, i32), Seq<Rgba32F>>,
    m: Map<(i32, i32), Seq<Rgba32F>>,
    tiles: Seq<TileCoord>,
    n: int,
    rect: Rect,
    data: Seq<Rgba32F>,
) -> bool {
    &&& forall|q: IVec2|
        in_first(tiles, n, key(tile_of(q))) ==> alike(
            #[trigger] pixel_at(m, q),
            blitted(m0, rect, data, q),
        )
    &&& forall|k: (i32, i32)| !in_first(tiles, n, k) ==> #[trigger] same_tile(m0, m, k)
}

spec fn clear_progress(
    m0: Map<(i32, i32), Seq<Rgba32F>>,
    m: Map<(i32, i32), Seq<Rgba32F>>,
    tiles: Seq<TileCoord>,
    n: int,
    rect: Rect,
) -> bool {
    &&& forall|q: IVec2|
        in_first(tiles, n, key(tile_of(q))) ==> #[trigger] pixel_at(m, q) == cleared(m0, rect, q)
    &&& forall|k: (i32, i32)| !in_first(tiles, n, k) ==> #[trigger] same_tile(m0, m, k)
}

proof fn lemma_in_first_step(tiles: Seq<TileCoord>, n: int)
    requires
        0 <= n < tiles.len(),
    ensures
        forall|k: (i32, i32)| #[trigger]
            in_first(tiles, n + 1, k) <==> in_first(tiles, n, k) || k == key(tiles[n]),
{
    assert forall|k: (i32, i32)| #[trigger] in_first(tiles, n + 1, k) <==> in_first(tiles, n, k)
        || k == key(tiles[n]) by {
        if in_first(tiles, n + 1, k) {
            let j = choose|j: int| 0 <= j < n + 1 && key(#[trigger] tiles[j]) == k;
            assert(j == n || key(tiles[j]) == k);
        }
        if in_first(tiles, n, k) {
            let j = choose|j: int| 0 <= j < n && key(#[trigger] tiles[j]) == k;
            assert(key(tiles[j]) == k);
        }
        if k == key(tiles[n]) {
            assert(key(tiles[n]) == k);
        }
    }
}

proof fn lemma_not_in_first(tiles: Seq<TileCoord>, n: int)
    requires
        0 <= n < tiles.len(),
        tiles.no_duplicates(),
    ensures
        !in_first(tiles, n, key(tiles[n])),
{
    if in_first(tiles, n, key(tiles[n])) {
        let j = choose|j: int| 0 <= j < n && key(#[trigger] tiles[j]) == key(tiles[n]);
        assert(tiles[j] == tiles[n]);
    }
}

proof fn lemma_all_in_first(tiles: Seq<TileCoord>, rect: Rect)
    requires
        forall|c: TileCoord| #[trigger] tiles.contains(c) <==> rect.touches(c),
    ensures
        forall|q: IVec2| #[trigger]
            rect.has(q.x as int, q.y as int) ==> in_first(
                tiles,
                tiles.len() as int,
                key(tile_of(q)),
            ),
        forall|c: TileCoord|
            in_first(tiles, tiles.len() as int, key(c)) <==> #[trigger] rect.touches(c),
{
    assert forall|c: TileCoord|
        in_first(tiles, tiles.len() as int, key(c)) <==> #[trigger] rect.touches(c) by {
        if rect.touches(c) {
            assert(tiles.contains(c));
            let j = choose|j: int| 0 <= j < tiles.len() && tiles[j] == c;
            assert(key(tiles[j]) == key(c));
        }
        if in_first(tiles, tiles.len() as int, key(c)) {
            let j = choose|j: int| 0 <= j < tiles.len() && key(#[trigger] tiles[j]) == key(c);
            assert(tiles[j] == c);
            assert(tiles.contains(c));
        }
    }
    assert forall|q: IVec2| #[trigger] rect.has(q.x as int, q.y as int) implies in_first(
        tiles,
        tiles.len() as int,
        key(tile_of(q)),
    ) by {
        pixels_lie_in_touched_tiles(rect, q);
        assert(rect.touches(tile_of(q)));
    }
}

/// Dropping the tiles without ink changes no pixel but for the sign of zeros.
pub proof fn pruning_keeps_pixels(m: Map<(i32, i32), Seq<Rgba32F>>, q: IVec2)
    requires
        full_tiles(m),
    ensures
        alike(pixel_at(pruned(m), q), pixel_at(m, q)),
{
    let k = key(tile_of(q));
    lemma_slot(q);
    if m.dom().contains(k) && ink(m[k]) == 0 {
        lemma_ink_zero(m[k]);
        assert(m[k][slot_of(q)].is_clear());
    }
}

/// One tile's worth of pixels, where tile `c` (with rectangle `t`) now holds
/// `new`.
proof fn lemma_tile_written(m: Map<(i32, i32), Seq<Rgba32F>>, c: TileCoord, t: Rect, q: IVec2)
    requires
        tile_rect_spec(c) == Some(t),
        tile_of(q) == c,
    ensures
        t.has(q.x as int, q.y as int),
        slot_of(q) == slot(q.x - t.x, q.y - t.y),
{
    assert(c.x == q.x as int / 256 && c.y == q.y as int / 256);
}

impl TiledBuffer {
    /// Write a row-major rectangle of pixels into the buffer, and remove tiles
    /// that hold no ink.
    pub fn blit_rect(&mut self, rect: Rect, data: &[Rgba32F])
        requires
            old(self).wf(),
            rect.w * rect.h <= u32::MAX,
            data@.len() == rect.w * rect.h,
        ensures
            final(self).wf(),
            rect.empty() ==> final(self)@ == old(self)@,
            !rect.empty() ==> sparse(final(self)@),
            forall|q: IVec2|
                alike(#[trigger] final(self).at(q), blitted(old(self)@, rect, data@, q)),
            forall|c: TileCoord|
                !rect.touches(c) && !rect.empty() ==> #[trigger] same_tile(
                    pruned(old(self)@),
                    final(self)@,
                    key(c),
                ),
    {
        if rect.is_empty() {
            return;
        }
        let tiles: Vec<TileCoord> = rect.tiles_covered();
        let ghost m0 = self@;
        let mut i: usize = 0;
        proof {
            self.lemma_full();
            assert(blit_progress(m0, self@, tiles@, 0, rect, data@));
        }
        while i < tiles.len()
            invariant
                self.wf(),
                full_tiles(m0),
                !rect.empty(),
                rect.w * rect.h <= u32::MAX,
                data@.len() == rect.w * rect.h,
                i <= tiles@.len(),
                tiles@.no_duplicates(),
                forall|k: int| 0 <= k < tiles@.len() ==> rect.touches(#[trigger] tiles@[k]),
                blit_progress(m0, self@, tiles@, i as int, rect, data@),
            decreases tiles@.len() - i,
        {
            let c: TileCoord = tiles[i];
            let ghost m1 = self@;
            proof {
                lemma_in_first_step(tiles@, i as int);
                lemma_not_in_first(tiles@, i as int);
                lemma_touched_overlaps(rect, c);
                assert(rect.touches(c));
                assert(same_tile(m0, m1, key(c)));
            }
            if let Some(t) = tile_rect(c) {
                if let Some(inter) = t.intersect(rect) {
                    // Avoid materialising a tile if this source region is entirely
                    // transparent and the buffer has no tile there yet.
                    let skip: bool = self.get_tile(c).is_none() && block_is_clear(inter, rect, data);
                    if !skip {
                        let tile = self.tile_mut(c);
                        write_block(tile, t, inter, rect, data);
                        proof {
                            lemma_blit_step(m0, m1, self@, tiles@, i as int, rect, data@, t, inter);
                        }
                    } else {
                        proof {
                            assert forall|q: IVec2| tile_of(q) == c implies alike(
                                #[trigger] pixel_at(m1, q),
                                blitted(m0, rect, data@, q),
                            ) by {
                                lemma_tile_written(m1, c, t, q);
                                if rect.has(q.x as int, q.y as int) {
                                    assert(inter.has(q.x as int, q.y as int));
                                    assert(data@[rect_slot(
                                        rect,
                                        q.x as int,
                                        q.y as int,
                                    )].is_clear());
                                }
                            }
                            assert(blit_progress(m0, self@, tiles@, i + 1, rect, data@));
                        }
                    }
                }
            } else {
                proof {
                    assert forall|q: IVec2| tile_of(q) != c by {
                        if tile_of(q) == c {
                            assert(c.x == q.x as int / 256 && c.y == q.y as int / 256);
                        }
                    }
                    assert(blit_progress(m0, self@, tiles@, i + 1, rect, data@));
                }
            }
            i = i + 1;
        }
        let ghost m2 = self@;
        proof {
            self.lemma_full();
        }
        self.prune_empty_tiles();
        proof {
            lemma_all_in_first(tiles@, rect);
            assert forall|q: IVec2|
                alike(#[trigger] self.at(q), blitted(m0, rect, data@, q)) by {
                pruning_keeps_pixels(m2, q);
                if !in_first(tiles@, tiles@.len() as int, key(tile_of(q))) {
                    assert(same_tile(m0, m2, key(tile_of(q))));
                    assert(!rect.has(q.x as int, q.y as int));
                } else {
                    assert(alike(pixel_at(m2, q), blitted(m0, rect, data@, q)));
                }
            }
            assert forall|c: TileCoord| !rect.touches(c) implies #[trigger] same_tile(
                pruned(m0),
                self@,
                key(c),
            ) by {
                assert(same_tile(m0, m2, key(c)));
            }
        }
    }

    /// Set every pixel in `rect` to transparent and remove empty tiles.
    pub fn clear_rect(&mut self, rect: Rect)
        requires
            old(self).wf(),
        ensures
            final(self).wf(),
            sparse(final(self)@),
            forall|q: IVec2|
                alike(#[trigger] final(self).at(q), cleared(old(self)@, rect, q)),
            forall|c: TileCoord|
                !rect.touches(c) ==> #[trigger] same_tile(
                    pruned(old(self)@),
                    final(self)@,
                    key(c),
                ),
    {
        let tiles: Vec<TileCoord> = rect.tiles_covered();
        let ghost m0 = self@;
        let mut i: usize = 0;
        proof {
            self.lemma_full();
            assert(clear_progress(m0, self@, tiles@, 0, rect));
        }
        while i < tiles.len()
            invariant
                self.wf(),
                full_tiles(m0),
                i <= tiles@.len(),
                tiles@.no_duplicates(),
                forall|k: int| 0 <= k < tiles@.len() ==> rect.touches(#[trigger] tiles@[k]),
                clear_progress(m0, self@, tiles@, i as int, rect),
            decreases tiles@.len() - i,
        {
            let c: TileCoord = tiles[i];
            let ghost m1 = self@;
            proof {
                lemma_in_first_step(tiles@, i as int);
                lemma_not_in_first(tiles@, i as int);
                lemma_touched_overlaps(rect, c);
                assert(rect.touches(c));
                assert(same_tile(m0, m1, key(c)));
            }
            let present: bool = self.get_tile(c).is_some();
            if present {
                if let Some(t) = tile_rect(c) {
                    if let Some(inter) = t.intersect(rect) {
                        let tile = self.tile_mut(c);
                        clear_block(tile, t, inter, rect);
                        proof {
                            lemma_clear_step(m0, m1, self@, tiles@, i as int, rect, t, inter);
                        }
                    }
                } else {
                    proof {
                        assert forall|q: IVec2| tile_of(q) != c by {
                            if tile_of(q) == c {
                                assert(c.x == q.x as int / 256 && c.y == q.y as int / 256);
                            }
                        }
                        assert(clear_progress(m0, self@, tiles@, i + 1, rect));
                    }
                }
            } else {
                assert(clear_progress(m0, self@, tiles@, i + 1, rect));
            }
            i = i + 1;
        }
        let ghost m2 = self@;
        proof {
            self.lemma_full();
        }
        self.prune_empty_tiles();
        proof {
            lemma_all_in_first(tiles@, rect);
            assert forall|q: IVec2| alike(#[trigger] self.at(q), cleared(m0, rect, q)) by {
                pruning_keeps_pixels(m2, q);
                if !in_first(tiles@, tiles@.len() as int, key(tile_of(q))) {
                    assert(same_tile(m0, m2, key(tile_of(q))));
                    assert(!rect.has(q.x as int, q.y as int));
                } else {
                    assert(pixel_at(m2, q) == cleared(m0, rect, q));
                }
            }
            assert forall|c: TileCoord| !rect.touches(c) implies #[trigger] same_tile(
                pruned(m0),
                self@,
                key(c),
            ) by {
                assert(same_tile(m0, m2, key(c)));
            }
        }
    }
}

proof fn lemma_blit_step(
    m0: Map<(i32, i32), Seq<Rgba32F>>,
    m1: Map<(i32, i32), Seq<Rgba32F>>,
    m: Map<(i32, i32), Seq<Rgba32F>>,
    tiles: Seq<TileCoord>,
    i: int,
    rect: Rect,
    data: Seq<Rgba32F>,
    t: Rect,
    inter: Rect,
)
    requires
        full_tiles(m0),
        0 <= i < tiles.len(),
        tiles.no_duplicates(),
        blit_progress(m0, m1, tiles, i, rect, data),
        tile_rect_spec(tiles[i]) == Some(t),
        t.intersect_spec(rect) == Some(inter),
        m.dom().contains(key(tiles[i])),
        m == m1.insert(key(tiles[i]), m[key(tiles[i])]),
        forall|x: int, y: int|
            #![trigger slot(x - t.x, y - t.y)]
            t.has(x, y) ==> m[key(tiles[i])][slot(x - t.x, y - t.y)] == (if inter.has(x, y) {
                data[rect_slot(rect, x, y)]
            } else if m1.dom().contains(key(tiles[i])) {
                m1[key(tiles[i])][slot(x - t.x, y - t.y)]
            } else {
                blank_pixels()[slot(x - t.x, y - t.y)]
            }),
    ensures
        blit_progress(m0, m, tiles, i + 1, rect, data),
{
    lemma_in_first_step(tiles, i);
    lemma_not_in_first(tiles, i);
    let c = tiles[i];
    assert(same_tile(m0, m1, key(c)));
    assert forall|q: IVec2| in_first(tiles, i + 1, key(tile_of(q))) implies alike(
        #[trigger] pixel_at(m, q),
        blitted(m0, rect, data, q),
    ) by {
        if tile_of(q) == c {
            lemma_tile_written(m, c, t, q);
            lemma_slot(q);
        } else {
            assert(key(tile_of(q)) != key(c));
            assert(pixel_at(m1, q) == pixel_at(m, q));
        }
    }
    assert forall|k: (i32, i32)| !in_first(tiles, i + 1, k) implies #[trigger] same_tile(m0, m, k) by {
        assert(same_tile(m0, m1, k));
    }
}

proof fn lemma_clear_step(
    m0: Map<(i32, i32), Seq<Rgba32F>>,
    m1: Map<(i32, i32), Seq<Rgba32F>>,
    m: Map<(i32, i32), Seq<Rgba32F>>,
    tiles: Seq<TileCoord>,
    i: int,
    rect: Rect,
    t: Rect,
    inter: Rect,
)
    requires
        full_tiles(m0),
        0 <= i < tiles.len(),
        tiles.no_duplicates(),
        clear_progress(m0, m1, tiles, i, rect),
        tile_rect_spec(tiles[i]) == Some(t),
        t.intersect_spec(rect) == Some(inter),
        m1.dom().contains(key(tiles[i])),
        m == m1.insert(key(tiles[i]), m[key(tiles[i])]),
        forall|x: int, y: int|
            #![trigger slot(x - t.x, y - t.y)]
            t.has(x, y) ==> m[key(tiles[i])][slot(x - t.x, y - t.y)] == (if inter.has(x, y) {
                clear_px()
            } else {
                m1[key(tiles[i])][slot(x - t.x, y - t.y)]
            }),
    ensures
        clear_progress(m0, m, tiles, i + 1, rect),
{
    lemma_in_first_step(tiles, i);
    lemma_not_in_first(tiles, i);
    let c = tiles[i];
    assert(same_tile(m0, m1, key(c)));
    assert forall|q: IVec2| in_first(tiles, i + 1, key(tile_of(q))) implies #[trigger] pixel_at(m, q)
        == cleared(m0, rect, q) by {
        if tile_of(q) == c {
            lemma_tile_written(m, c, t, q);
            lemma_slot(q);
        } else {
            assert(key(tile_of(q)) != key(c));
            assert(pixel_at(m1, q) == pixel_at(m, q));
        }
    }
    assert forall|k: (i32, i32)| !in_first(tiles, i + 1, k) implies #[trigger] same_tile(m0, m, k) by {
        assert(same_tile(m0, m1, k));
    }
}

/// What a buffer holds at `q` once the pixels of `src` in `rect` that are not
/// transparent were copied to it, each moved by `offset`.
pub open spec fn copied(
    m: Map<(i32, i32), Seq<Rgba32F>>,
    src: Map<(i32, i32), Seq<Rgba32F>>,
    rect: Rect,
    offset: IVec2,
    q: IVec2,
) -> Rgba32F {
    match local_coord_spec(q, offset) {
        Some(p) => if rect.has(p.x as int, p.y as int) && !pixel_at(src, p).is_clear() {
            pixel_at(src, p)
        } else {
            pixel_at(m, q)
        },
        None => pixel_at(m, q),
    }
}

/// The copy so far: of the tiles before number `n`, and of tile `c` the pixels
/// before `(x, y)`.
spec fn copy_reached(
    tiles: Seq<TileCoord>,
    n: int,
    x: int,
    y: int,
    p: IVec2,
) -> bool {
    in_first(tiles, n, key(tile_of(p))) || (n < tiles.len() && tile_of(p) == tiles[n] && before(
        p.x as int,
        p.y as int,
        x,
        y,
    ))
}

spec fn copy_progress(
    m0: Map<(i32, i32), Seq<Rgba32F>>,
    m: Map<(i32, i32), Seq<Rgba32F>>,
    src: Map<(i32, i32), Seq<Rgba32F>>,
    rect: Rect,
    offset: IVec2,
    tiles: Seq<TileCoord>,
    n: int,
    x: int,
    y: int,
) -> bool {
    &&& forall|q: IVec2| #[trigger]
        pixel_at(m, q) == (match local_coord_spec(q, offset) {
            Some(p) => if copy_reached(tiles, n, x, y, p) {
                copied(m0, src, rect, offset, q)
            } else {
                pixel_at(m0, q)
            },
            None => pixel_at(m0, q),
        })
}

impl TiledBuffer {
    /// Copy a rectangular region from `src` into this buffer at `dst_offset`.
    ///
    /// Transparent pixels are not copied, nor those that would leave the `i32`
    /// coordinates.
    pub fn copy_region(&mut self, src: &Self, src_rect: Rect, dst_offset: IVec2)
        requires
            old(self).wf(),
            src.wf(),
        ensures
            final(self).wf(),
            forall|q: IVec2| #[trigger]
                final(self).at(q) == copied(old(self)@, src@, src_rect, dst_offset, q),
            sparse(old(self)@) ==> sparse(final(self)@),
            forall|k: (i32, i32)| !key_in_range(k) ==> #[trigger] same_tile(
                old(self)@,
                final(self)@,
                k,
            ),
    {
        if src_rect.is_empty() {
            return;
        }
        let tiles: Vec<TileCoord> = src_rect.tiles_covered();
        let ghost m0 = self@;
        let mut i: usize = 0;
        proof {
            self.lemma_full();
            src.lemma_full();
            lemma_copy_row_start(m0, m0, src@, src_rect, dst_offset, tiles@, 0);
        }
        while i < tiles.len()
            invariant
                self.wf(),
                src.wf(),
                full_tiles(m0),
                full_tiles(src@),
                i <= tiles@.len(),
                tiles@.no_duplicates(),
                forall|k: int| 0 <= k < tiles@.len() ==> src_rect.touches(#[trigger] tiles@[k]),
                copy_progress(
                    m0,
                    self@,
                    src@,
                    src_rect,
                    dst_offset,
                    tiles@,
                    i as int,
                    i32::MIN as int,
                    i32::MIN as int,
                ),
                sparse(m0) ==> sparse(self@),
                forall|k: (i32, i32)| !key_in_range(k) ==> #[trigger] same_tile(m0, self@, k),
            decreases tiles@.len() - i,
        {
            let c: TileCoord = tiles[i];
            proof {
                lemma_touched_overlaps(src_rect, c);
                assert(src_rect.touches(c));
            }
            if let Some(tile) = src.get_tile(c) {
                if let Some(t) = tile_rect(c) {
                    if let Some(inter) = t.intersect(src_rect) {
                        copy_block(
                            self,
                            src,
                            src_rect,
                            dst_offset,
                            &tile,
                            t,
                            inter,
                            &tiles,
                            i,
                            Ghost(m0),
                        );
                    }
                } else {
                    proof {
                        assert forall|q: IVec2| tile_of(q) != c by {
                            if tile_of(q) == c {
                                assert(c.x == q.x as int / 256 && c.y == q.y as int / 256);
                            }
                        }
                        lemma_copy_tile_done(m0, self@, src@, src_rect, dst_offset, tiles@, i as int);
                    }
                }
            } else {
                proof {
                    lemma_copy_tile_done(m0, self@, src@, src_rect, dst_offset, tiles@, i as int);
                }
            }
            i = i + 1;
        }
        proof {
            lemma_all_in_first(tiles@, src_rect);
            assert forall|q: IVec2| #[trigger] self.at(q) == copied(
                m0,
                src@,
                src_rect,
                dst_offset,
                q,
            ) by {
                assert(pixel_at(self@, q) == self.at(q));
                match local_coord_spec(q, dst_offset) {
                    Some(p) => {
                        if src_rect.has(p.x as int, p.y as int) {
                            assert(in_first(tiles@, tiles@.len() as int, key(tile_of(p))));
                        }
                    },
                    None => {},
                }
            }
        }
    }
}

/// Nothing of tile `n` lies before the first pixel.
proof fn lemma_copy_row_start(
    m0: Map<(i32, i32), Seq<Rgba32F>>,
    m: Map<(i32, i32), Seq<Rgba32F>>,
    src: Map<(i32, i32), Seq<Rgba32F>>,
    rect: Rect,
    offset: IVec2,
    tiles: Seq<TileCoord>,
    n: int,
)
    requires
        m0 == m,
        n == 0,
    ensures
        copy_progress(m0, m, src, rect, offset, tiles, n, i32::MIN as int, i32::MIN as int),
{
}

/// A tile without pixels to copy is done at once.
proof fn lemma_copy_tile_done(
    m0: Map<(i32, i32), Seq<Rgba32F>>,
    m: Map<(i32, i32), Seq<Rgba32F>>,
    src: Map<(i32, i32), Seq<Rgba32F>>,
    rect: Rect,
    offset: IVec2,
    tiles: Seq<TileCoord>,
    n: int,
)
    requires
        0 <= n < tiles.len(),
        copy_progress(m0, m, src, rect, offset, tiles, n, i32::MIN as int, i32::MIN as int),
        forall|p: IVec2| tile_of(p) == tiles[n] ==> (#[trigger] pixel_at(src, p)).is_clear(),
    ensures
        copy_progress(m0, m, src, rect, offset, tiles, n + 1, i32::MIN as int, i32::MIN as int),
{
    lemma_in_first_step(tiles, n);
    assert forall|q: IVec2| #[trigger] pixel_at(m, q) == (match local_coord_spec(q, offset) {
        Some(p) => if copy_reached(tiles, n + 1, i32::MIN as int, i32::MIN as int, p) {
            copied(m0, src, rect, offset, q)
        } else {
            pixel_at(m0, q)
        },
        None => pixel_at(m0, q),
    }) by {
        match local_coord_spec(q, offset) {
            Some(p) => {
                assert(in_first(tiles, n + 1, key(tile_of(p))) <==> in_first(
                    tiles,
                    n,
                    key(tile_of(p)),
                ) || key(tile_of(p)) == key(tiles[n]));
                if tile_of(p) == tiles[n] {
                    assert(pixel_at(src, p).is_clear());
                }
            },
            None => {},
        }
    }
}

/// Copies the pixels of one source tile.
fn copy_block(
    dst: &mut TiledBuffer,
    src: &TiledBuffer,
    rect: Rect,
    offset: IVec2,
    tile: &Tile,
    t: Rect,
    inter: Rect,
    tiles: &Vec<TileCoord>,
    i: usize,
    Ghost(m0): Ghost<Map<(i32, i32), Seq<Rgba32F>>>,
)
    requires
        old(dst).wf(),
        src.wf(),
        tile.wf(),
        full_tiles(m0),
        i < tiles@.len(),
        tiles@.no_duplicates(),
        tile_rect_spec(tiles@[i as int]) == Some(t),
        t.intersect_spec(rect) == Some(inter),
        src@.dom().contains(key(tiles@[i as int])),
        tile@ == src@[key(tiles@[i as int])],
        copy_progress(
            m0,
            old(dst)@,
            src@,
            rect,
            offset,
            tiles@,
            i as int,
            i32::MIN as int,
            i32::MIN as int,
        ),
        sparse(m0) ==> sparse(old(dst)@),
        forall|k: (i32, i32)| !key_in_range(k) ==> #[trigger] same_tile(m0, old(dst)@, k),
    ensures
        final(dst).wf(),
        copy_progress(
            m0,
            final(dst)@,
            src@,
            rect,
            offset,
            tiles@,
            i + 1,
            i32::MIN as int,
            i32::MIN as int,
        ),
        sparse(m0) ==> sparse(final(dst)@),
        forall|k: (i32, i32)| !key_in_range(k) ==> #[trigger] same_tile(m0, final(dst)@, k),
{
    let ghost c = tiles@[i as int];
    let right: i64 = inter.right();
    let bottom: i64 = inter.bottom();
    let tx: i64 = t.x as i64;
    let ty: i64 = t.y as i64;
    let mut y: i64 = inter.y as i64;
    proof {
        lemma_copy_skip_to(m0, dst@, src@, rect, offset, tiles@, i as int, t, inter);
    }
    while y < bottom
        invariant
            dst.wf(),
            src.wf(),
            tile.wf(),
            full_tiles(m0),
            i < tiles@.len(),
            c == tiles@[i as int],
            tile_rect_spec(c) == Some(t),
            t.intersect_spec(rect) == Some(inter),
            src@.dom().contains(key(c)),
            tile@ == src@[key(c)],
            right == inter.right_edge() && bottom == inter.bottom_edge(),
            tx == t.x && ty == t.y,
            inter.y <= y <= bottom,
            copy_progress(
                m0,
                dst@,
                src@,
                rect,
                offset,
                tiles@,
                i as int,
                inter.x as int,
                y as int,
            ),
            sparse(m0) ==> sparse(dst@),
            forall|k: (i32, i32)| !key_in_range(k) ==> #[trigger] same_tile(m0, dst@, k),
        decreases bottom - y,
    {
        let mut x: i64 = inter.x as i64;
        while x < right
            invariant
                dst.wf(),
                src.wf(),
                tile.wf(),
                full_tiles(m0),
                i < tiles@.len(),
                c == tiles@[i as int],
                tile_rect_spec(c) == Some(t),
                t.intersect_spec(rect) == Some(inter),
                src@.dom().contains(key(c)),
                tile@ == src@[key(c)],
                right == inter.right_edge() && bottom == inter.bottom_edge(),
                tx == t.x && ty == t.y,
                inter.y <= y < bottom,
                inter.x <= x <= right,
                copy_progress(
                    m0,
                    dst@,
                    src@,
                    rect,
                    offset,
                    tiles@,
                    i as int,
                    x as int,
                    y as int,
                ),
                sparse(m0) ==> sparse(dst@),
                forall|k: (i32, i32)| !key_in_range(k) ==> #[trigger] same_tile(m0, dst@, k),
            decreases right - x,
        {
            let lx: usize = (x - tx) as usize;
            let ly: usize = (y - ty) as usize;
            let px: Rgba32F = tile.get(lx, ly);
            let ghost m1 = dst@;
            let ghost p = IVec2 { x: x as i32, y: y as i32 };
            proof {
                dst.lemma_full();
                assert(p.x == x && p.y == y);
                pixel_to_tile_inverts_tile_to_pixel(c, x - t.x, y - t.y, p);
                assert(px == pixel_at(src@, p));
            }
            let dx: i64 = x + offset.x as i64;
            let dy: i64 = y + offset.y as i64;
            if !px.is_transparent() && -0x8000_0000 <= dx && dx <= 0x7fff_ffff && -0x8000_0000 <= dy
                && dy <= 0x7fff_ffff {
                let q: IVec2 = IVec2::new(dx as i32, dy as i32);
                dst.set_pixel(q, px);
                proof {
                    set_pixel_keeps_range(m1, q, px);
                    if sparse(m0) {
                        set_pixel_keeps_sparse(m1, q, px);
                    }
                    assert forall|k: (i32, i32)| !key_in_range(k) implies #[trigger] same_tile(
                        m0,
                        dst@,
                        k,
                    ) by {
                        assert(same_tile(m0, m1, k));
                        assert(same_tile(m1, dst@, k));
                    }
                }
            }
            proof {
                lemma_copy_pixel(m0, m1, dst@, src@, rect, offset, tiles@, i as int, p);
            }
            x = x + 1;
        }
        proof {
            lemma_copy_next_row(m0, dst@, src@, rect, offset, tiles@, i as int, t, inter, y as int);
        }
        y = y + 1;
    }
    proof {
        lemma_copy_finish(m0, dst@, src@, rect, offset, tiles@, i as int, t, inter);
    }
}

/// Writing a pixel leaves the tiles beyond the `i32` coordinates alone.
proof fn set_pixel_keeps_range(m: Map<(i32, i32), Seq<Rgba32F>>, q: IVec2, px: Rgba32F)
    ensures
        forall|k: (i32, i32)| !key_in_range(k) ==> #[trigger] same_tile(m, with_pixel(m, q, px), k),
{
    assert(key_in_range(key(tile_of(q)))) by {
        assert(tile_of(q).x == q.x as int / 256 && tile_of(q).y == q.y as int / 256);
    }
}

proof fn lemma_copy_skip_to(
    m0: Map<(i32, i32), Seq<Rgba32F>>,
    m: Map<(i32, i32), Seq<Rgba32F>>,
    src: Map<(i32, i32), Seq<Rgba32F>>,
    rect: Rect,
    offset: IVec2,
    tiles: Seq<TileCoord>,
    n: int,
    t: Rect,
    inter: Rect,
)
    requires
        0 <= n < tiles.len(),
        tile_rect_spec(tiles[n]) == Some(t),
        t.intersect_spec(rect) == Some(inter),
        copy_progress(m0, m, src, rect, offset, tiles, n, i32::MIN as int, i32::MIN as int),
    ensures
        copy_progress(m0, m, src, rect, offset, tiles, n, inter.x as int, inter.y as int),
{
    assert forall|q: IVec2| #[trigger] pixel_at(m, q) == (match local_coord_spec(q, offset) {
        Some(p) => if copy_reached(tiles, n, inter.x as int, inter.y as int, p) {
            copied(m0, src, rect, offset, q)
        } else {
            pixel_at(m0, q)
        },
        None => pixel_at(m0, q),
    }) by {
        match local_coord_spec(q, offset) {
            Some(p) => {
                if tile_of(p) == tiles[n] && before(
                    p.x as int,
                    p.y as int,
                    inter.x as int,
                    inter.y as int,
                ) {
                    lemma_tile_written(m, tiles[n], t, p);
                    assert(!rect.has(p.x as int, p.y as int));
                }
            },
            None => {},
        }
    }
}

proof fn lemma_copy_pixel(
    m0: Map<(i32, i32), Seq<Rgba32F>>,
    m1: Map<(i32, i32), Seq<Rgba32F>>,
    m: Map<(i32, i32), Seq<Rgba32F>>,
    src: Map<(i32, i32), Seq<Rgba32F>>,
    rect: Rect,
    offset: IVec2,
    tiles: Seq<TileCoord>,
    n: int,
    p0: IVec2,
)
    requires
        0 <= n < tiles.len(),
        full_tiles(m1),
        tile_of(p0) == tiles[n],
        rect.has(p0.x as int, p0.y as int),
        copy_progress(m0, m1, src, rect, offset, tiles, n, p0.x as int, p0.y as int),
        ({
            let dx = p0.x + offset.x;
            let dy = p0.y + offset.y;
            if !pixel_at(src, p0).is_clear() && fits_i32(dx) && fits_i32(dy) {
                m == with_pixel(
                    m1,
                    IVec2 { x: dx as i32, y: dy as i32 },
                    pixel_at(src, p0),
                )
            } else {
                m == m1
            }
        }),
    ensures
        copy_progress(m0, m, src, rect, offset, tiles, n, p0.x + 1, p0.y as int),
{
    let dx = p0.x + offset.x;
    let dy = p0.y + offset.y;
    let q0 = IVec2 { x: dx as i32, y: dy as i32 };
    assert forall|q: IVec2| #[trigger] pixel_at(m, q) == (match local_coord_spec(q, offset) {
        Some(p) => if copy_reached(tiles, n, p0.x + 1, p0.y as int, p) {
            copied(m0, src, rect, offset, q)
        } else {
            pixel_at(m0, q)
        },
        None => pixel_at(m0, q),
    }) by {
        if !pixel_at(src, p0).is_clear() && fits_i32(dx) && fits_i32(dy) {
            set_pixel_then_get(m1, q0, pixel_at(src, p0), q);
        }
        assert(pixel_at(m1, q) == pixel_at(m1, q));
        match local_coord_spec(q, offset) {
            Some(p) => {
                if p == p0 {
                    assert(q.x == dx && q.y == dy);
                    assert(q == q0);
                } else {
                    assert(copy_reached(tiles, n, p0.x + 1, p0.y as int, p) <==> copy_reached(
                        tiles,
                        n,
                        p0.x as int,
                        p0.y as int,
                        p,
                    ));
                }
            },
            None => {},
        }
    }
}

proof fn lemma_copy_next_row(
    m0: Map<(i32, i32), Seq<Rgba32F>>,
    m: Map<(i32, i32), Seq<Rgba32F>>,
    src: Map<(i32, i32), Seq<Rgba32F>>,
    rect: Rect,
    offset: IVec2,
    tiles: Seq<TileCoord>,
    n: int,
    t: Rect,
    inter: Rect,
    y: int,
)
    requires
        0 <= n < tiles.len(),
        tile_rect_spec(tiles[n]) == Some(t),
        t.intersect_spec(rect) == Some(inter),
        inter.y <= y < inter.bottom_edge(),
        copy_progress(m0, m, src, rect, offset, tiles, n, inter.right_edge(), y),
    ensures
        copy_progress(m0, m, src, rect, offset, tiles, n, inter.x as int, y + 1),
{
    assert forall|q: IVec2| #[trigger] pixel_at(m, q) == (match local_coord_spec(q, offset) {
        Some(p) => if copy_reached(tiles, n, inter.x as int, y + 1, p) {
            copied(m0, src, rect, offset, q)
        } else {
            pixel_at(m0, q)
        },
        None => pixel_at(m0, q),
    }) by {
        match local_coord_spec(q, offset) {
            Some(p) => {
                if tile_of(p) == tiles[n] {
                    lemma_tile_written(m, tiles[n], t, p);
                }
            },
            None => {},
        }
    }
}

proof fn lemma_copy_finish(
    m0: Map<(i32, i32), Seq<Rgba32F>>,
    m: Map<(i32, i32), Seq<Rgba32F>>,
    src: Map<(i32, i32), Seq<Rgba32F>>,
    rect: Rect,
    offset: IVec2,
    tiles: Seq<TileCoord>,
    n: int,
    t: Rect,
    inter: Rect,
)
    requires
        0 <= n < tiles.len(),
        tile_rect_spec(tiles[n]) == Some(t),
        t.intersect_spec(rect) == Some(inter),
        copy_progress(m0, m, src, rect, offset, tiles, n, inter.x as int, inter.bottom_edge()),
    ensures
        copy_progress(m0, m, src, rect, offset, tiles, n + 1, i32::MIN as int, i32::MIN as int),
{
    lemma_in_first_step(tiles, n);
    assert forall|q: IVec2| #[trigger] pixel_at(m, q) == (match local_coord_spec(q, offset) {
        Some(p) => if copy_reached(tiles, n + 1, i32::MIN as int, i32::MIN as int, p) {
            copied(m0, src, rect, offset, q)
        } else {
            pixel_at(m0, q)
        },
        None => pixel_at(m0, q),
    }) by {
        match local_coord_spec(q, offset) {
            Some(p) => {
                assert(in_first(tiles, n + 1, key(tile_of(p))) <==> in_first(
                    tiles,
                    n,
                    key(tile_of(p)),
                ) || key(tile_of(p)) == key(tiles[n]));
                if tile_of(p) == tiles[n] {
                    lemma_tile_written(m, tiles[n], t, p);
                }
            },
            None => {},
        }
    }
}

/// Writing a rectangle of pixels and reading it back gives the same pixels (up
/// to the sign of zeros in transparent ones), as far as the rectangle lies
/// within the `i32` coordinates.
pub proof fn blit_then_read(
    m0: Map<(i32, i32), Seq<Rgba32F>>,
    m: Map<(i32, i32), Seq<Rgba32F>>,
    rect: Rect,
    data: Seq<Rgba32F>,
    x: int,
    y: int,
)
    requires
        forall|q: IVec2| alike(#[trigger] pixel_at(m, q), blitted(m0, rect, data, q)),
        rect.has(x, y),
        fits_i32(x) && fits_i32(y),
    ensures
        alike(pixel_or_clear(m, x, y), data[rect_slot(rect, x, y)]),
{
    let q = IVec2 { x: x as i32, y: y as i32 };
    assert(alike(pixel_at(m, q), blitted(m0, rect, data, q)));
}

} // verus!
