//! Merging a raster layer with the one below it.
use vstd::prelude::*;

use std::sync::Arc;

use ahash::{AHashSet, RandomState};

use crate::arith::Arith;
use crate::blend::{blended_alpha_is_sound, unseen_source_keeps};
use crate::buffer::{
    key, pixel_at, set_pixel_keeps_sparse, set_pixel_then_get, sparse, tiles_listed, TiledBuffer,
};
use crate::compositor::{
    closed_all, composite_px, masked_px, over, pixel_state, sum_offset, PixelState,
};
use crate::coord_set::{
    coord_members, coord_set_insert, coord_set_iter, coord_set_len, coord_set_new,
};
use crate::coord::{fits_i32, local_coord, local_coord_spec, tile_of, IVec2, Rect, TileCoord};
use crate::document::{
    active_outside, dropped, paint, paint_list, subtree, unlisted, DocView, Document,
};
use crate::error::OgreError;
use crate::float_bits::{clamp01_nan0, is_less, is_zero, less, unit, zero, F_ONE, F_ZERO};
use crate::float_kernel::FloatKernel;
use crate::kernel::Kernel;
use crate::layer::{fresh_layer, BlendMode, ContentView, Layer, LayerContent, LayerId, LayerView};
use crate::pixel::{clear_px, Rgba32F};
use crate::tile::Tile;

verus! {

/// Maximum number of document-space tiles a merge will process before rejecting
/// the operation as too large.
pub const MAX_MERGE_TILES: usize = 4096;

/// A tile that lies within the `i32` coordinates with its right and bottom
/// edge.
pub open spec fn whole_tile(k: (i32, i32)) -> bool {
    i32::MIN <= k.0 * 256 && k.0 * 256 + 256 <= i32::MAX && i32::MIN <= k.1 * 256 && k.1 * 256
        + 256 <= i32::MAX
}

/// Rectangle of a tile in pixel coordinates.
///
/// Returns `None` if the tile rect does not fully fit inside `i32`.
pub fn local_tile_rect(c: TileCoord) -> (r: Option<Rect>)
    ensures
        r == (if whole_tile(key(c)) {
            Some(Rect { x: (c.x * 256) as i32, y: (c.y * 256) as i32, w: 256, h: 256 })
        } else {
            None
        }),
{
    let x: i64 = c.x as i64 * 256;
    let y: i64 = c.y as i64 * 256;
    if x < -0x8000_0000 || x + 256 > 0x7fff_ffff || y < -0x8000_0000 || y + 256 > 0x7fff_ffff {
        None
    } else {
        Some(Rect::new(x as i32, y as i32, 256, 256))
    }
}

/// Tile `k`, moved by `offset`, as far as it has `i32` coordinates.
pub open spec fn shifted_tile(k: (i32, i32), offset: IVec2) -> Rect {
    Rect { x: (k.0 * 256 + offset.x) as i32, y: (k.1 * 256 + offset.y) as i32, w: 256, h: 256 }
}

/// Tile `k` can be moved by `offset`.
pub open spec fn shiftable(k: (i32, i32), offset: IVec2) -> bool {
    whole_tile(k) && fits_i32(k.0 * 256 + offset.x) && fits_i32(k.1 * 256 + offset.y)
}

/// Every tile can be moved by `offset`.
pub open spec fn all_shiftable(m: Map<(i32, i32), Seq<Rgba32F>>, offset: IVec2) -> bool {
    forall|k: (i32, i32)| #[trigger] m.dom().contains(k) ==> shiftable(k, offset)
}

/// A tile of `m`, moved by `offset`, touches document tile `t`.
pub open spec fn covers(m: Map<(i32, i32), Seq<Rgba32F>>, offset: IVec2, t: (i32, i32)) -> bool {
    exists|k: (i32, i32)| #[trigger]
        m.dom().contains(k) && shifted_tile(k, offset).touches(TileCoord { x: t.0, y: t.1 })
}

/// Collect the document-space tile coordinates covered by a layer's occupied
/// tiles, shifted by the layer offset.
fn doc_space_occupied_tiles(
    buffer: &TiledBuffer,
    offset: IVec2,
    tiles: &mut AHashSet<(i32, i32), RandomState>,
) -> (r: Result<(), OgreError>)
    requires
        buffer.wf(),
    ensures
        r is Ok <==> all_shiftable(buffer@, offset),
        r matches Err(e) ==> e == OgreError::InvalidOperation("layer offset out of range"),
        r is Ok ==> forall|t: (i32, i32)| #[trigger]
            coord_members(*final(tiles)).contains(t) <==> coord_members(*old(tiles)).contains(t)
                || covers(buffer@, offset, t),
{
    let list: Vec<(TileCoord, Arc<Tile>)> = buffer.occupied_tiles();
    let ghost s0 = coord_members(*tiles);
    let mut i: usize = 0;
    while i < list.len()
        invariant
            i <= list@.len(),
            tiles_listed(list@, buffer@),
            s0 == coord_members(*old(tiles)),
            forall|j: int| 0 <= j < i ==> shiftable(key((#[trigger] list@[j]).0), offset),
            forall|t: (i32, i32)| #[trigger]
                coord_members(*tiles).contains(t) <==> s0.contains(t) || covered_by_first(
                    list@,
                    i as int,
                    offset,
                    t,
                ),
        decreases list@.len() - i,
    {
        let c: TileCoord = list[i].0;
        assert(buffer@.dom().contains(key(list@[i as int].0)));
        let rect: Rect = match local_tile_rect(c) {
            Some(r) => r,
            None => {
                assert(!all_shiftable(buffer@, offset));
                return Err(OgreError::InvalidOperation("layer offset out of range"));
            },
        };
        match (rect.x.checked_add(offset.x), rect.y.checked_add(offset.y)) {
            (Some(x), Some(y)) => {
                let doc_rect: Rect = Rect::new(x, y, 256, 256);
                assert(doc_rect == shifted_tile(key(c), offset));
                let touched: Vec<TileCoord> = doc_rect.tiles_covered();
                let ghost s1 = coord_members(*tiles);
                let mut j: usize = 0;
                while j < touched.len()
                    invariant
                        j <= touched@.len(),
                        forall|t: (i32, i32)| #[trigger]
                            coord_members(*tiles).contains(t) <==> s1.contains(t) || exists|n: int|
                                0 <= n < j && key(#[trigger] touched@[n]) == t,
                    decreases touched@.len() - j,
                {
                    let t: TileCoord = touched[j];
                    let ghost before = coord_members(*tiles);
                    let fresh: bool = coord_set_insert(tiles, (t.x, t.y));
                    proof {
                        assert forall|u: (i32, i32)| #[trigger] coord_members(*tiles).contains(
                            u,
                        ) <==> s1.contains(u) || exists|n: int|
                            0 <= n < j + 1 && key(#[trigger] touched@[n]) == u by {
                            assert(key(touched@[j as int]) == key(t));
                            if before.contains(u) && !s1.contains(u) {
                                let n = choose|n: int| 0 <= n < j && key(#[trigger] touched@[n]) == u;
                                assert(key(touched@[n]) == u);
                            }
                        }
                    }
                    j = j + 1;
                }
                proof {
                    assert forall|t: (i32, i32)| #[trigger] coord_members(*tiles).contains(t)
                        <==> s0.contains(t) || covered_by_first(list@, i + 1, offset, t) by {
                        let tc = TileCoord { x: t.0, y: t.1 };
                        lemma_covered_step(list@, i as int, offset, t);
                        assert(touched@.contains(tc) <==> doc_rect.touches(tc));
                        if touched@.contains(tc) {
                            let n = choose|n: int| 0 <= n < touched@.len() && touched@[n] == tc;
                            assert(key(touched@[n]) == t);
                        }
                        if exists|n: int| 0 <= n < j && key(#[trigger] touched@[n]) == t {
                            let n = choose|n: int| 0 <= n < j && key(#[trigger] touched@[n]) == t;
                            assert(touched@[n] == tc);
                        }
                    }
                }
            },
            _ => {
                assert(!all_shiftable(buffer@, offset));
                return Err(OgreError::InvalidOperation("layer offset out of range"));
            },
        }
        i = i + 1;
    }
    proof {
        assert forall|k: (i32, i32)| #[trigger] buffer@.dom().contains(k) implies shiftable(
            k,
            offset,
        ) by {
            let j = choose|j: int| 0 <= j < list@.len() && key((#[trigger] list@[j]).0) == k;
            assert(shiftable(key(list@[j].0), offset));
        }
        assert forall|t: (i32, i32)| #[trigger] coord_members(*tiles).contains(t) <==> s0.contains(t)
            || covers(buffer@, offset, t) by {
            if covers(buffer@, offset, t) {
                let k = choose|k: (i32, i32)| #[trigger]
                    buffer@.dom().contains(k) && shifted_tile(k, offset).touches(
                        TileCoord { x: t.0, y: t.1 },
                    );
                let j = choose|j: int| 0 <= j < list@.len() && key((#[trigger] list@[j]).0) == k;
                assert(shifted_tile(key(list@[j].0), offset).touches(
                    TileCoord { x: t.0, y: t.1 },
                ));
            }
            if covered_by_first(list@, i as int, offset, t) {
                let j = choose|j: int|
                    0 <= j < i && shifted_tile(key((#[trigger] list@[j]).0), offset).touches(
                        TileCoord { x: t.0, y: t.1 },
                    );
                assert(buffer@.dom().contains(key(list@[j].0)));
            }
        }
    }
    Ok(())
}

/// One of the first `n` tiles listed, moved by `offset`, touches document tile
/// `t`.
spec fn covered_by_first(
    list: Seq<(TileCoord, Arc<Tile>)>,
    n: int,
    offset: IVec2,
    t: (i32, i32),
) -> bool {
    exists|j: int|
        0 <= j < n && shifted_tile(key((#[trigger] list[j]).0), offset).touches(
            TileCoord { x: t.0, y: t.1 },
        )
}

proof fn lemma_covered_step(
    list: Seq<(TileCoord, Arc<Tile>)>,
    i: int,
    offset: IVec2,
    t: (i32, i32),
)
    requires
        0 <= i < list.len(),
    ensures
        covered_by_first(list, i + 1, offset, t) <==> covered_by_first(list, i, offset, t)
            || shifted_tile(key(list[i].0), offset).touches(TileCoord { x: t.0, y: t.1 }),
{
    let tc = TileCoord { x: t.0, y: t.1 };
    if covered_by_first(list, i + 1, offset, t) {
        let j = choose|j: int|
            0 <= j < i + 1 && shifted_tile(key((#[trigger] list[j]).0), offset).touches(tc);
        assert(shifted_tile(key(list[j].0), offset).touches(tc));
    }
    if covered_by_first(list, i, offset, t) {
        let j = choose|j: int|
            0 <= j < i && shifted_tile(key((#[trigger] list[j]).0), offset).touches(tc);
        assert(shifted_tile(key(list[j].0), offset).touches(tc));
    }
    if shifted_tile(key(list[i].0), offset).touches(tc) {
        assert(shifted_tile(key(list[i].0), offset).touches(tc));
    }
}

/// The tiles of a layer's pixels.
pub open spec fn tiles_of(l: LayerView) -> Map<(i32, i32), Seq<Rgba32F>> {
    l.content->buffer
}

/// The tiles of a layer's mask.
pub open spec fn mask_of(l: LayerView) -> Option<Map<(i32, i32), Seq<Rgba32F>>> {
    l.content->mask
}

/// A layer's own pixel at `p`, with its alpha scaled by the mask; transparent if
/// the layer does not show.
pub open spec fn shown_px<K: Kernel>(kern: &K, l: LayerView, p: IVec2) -> Rgba32F {
    if l.visible && !zero(unit(l.opacity)) {
        masked_px(kern, tiles_of(l), mask_of(l), p)
    } else {
        clear_px()
    }
}

/// A layer's own pixel at `p`, faded by the opacity of the layer.
pub open spec fn faded_px<K: Kernel>(kern: &K, l: LayerView, p: IVec2) -> Rgba32F {
    let px = shown_px(kern, l, p);
    Rgba32F { a: kern.scaled(px.a, unit(l.opacity)), ..px }
}

/// A pixel, or the transparent one if it is not visible.
pub open spec fn seen_px(px: Rgba32F) -> Rgba32F {
    if less(F_ZERO, px.a) { px } else { clear_px() }
}

/// What two layers, merged, hold at document position `q`.
pub open spec fn merged_px<K: Kernel>(
    kern: &K,
    lower: LayerView,
    upper: LayerView,
    q: IVec2,
) -> Rgba32F {
    match (local_coord_spec(q, lower.offset), local_coord_spec(q, upper.offset)) {
        (Some(lp), Some(up)) => {
            let out = kern.blended(
                upper.blend,
                faded_px(kern, lower, lp),
                shown_px(kern, upper, up),
                unit(upper.opacity),
            );
            seen_px(out)
        },
        _ => clear_px(),
    }
}

/// What the compositor makes of `dst` when it lays a raster layer at the root over it.
pub open spec fn laid_over<K: Kernel>(kern: &K, l: LayerView, q: IVec2, dst: Rgba32F) -> Rgba32F {
    over(kern, l, tiles_of(l), mask_of(l), IVec2 { x: 0, y: 0 }, q, dst)
}

/// Merging folds the two layers as the compositor does.
///
/// A document with just these layers shows the upper one laid over the lower one laid
/// over nothing. A merged pixel is the upper layer laid in the same way over the lower
/// layer's faded pixel, which is what the lower layer laid over nothing is without
/// rounding.
pub proof fn merging_folds_as_the_compositor<M: Arith>(
    kern: &FloatKernel<M>,
    v: DocView,
    lo: LayerId,
    up: LayerId,
    q: IVec2,
)
    requires
        v.is_raster(lo),
        v.is_raster(up),
        local_coord_spec(q, v.layers[lo].offset) is Some,
        local_coord_spec(q, v.layers[up].offset) is Some,
    ensures
        ({
            let (lower, upper) = (v.layers[lo], v.layers[up]);
            let p = local_coord_spec(q, lower.offset)->0;
            &&& composite_px(kern, v, q, seq![(lo, 0u8), (up, 0u8)]) == laid_over(
                kern,
                upper,
                q,
                laid_over(kern, lower, q, clear_px()),
            )
            &&& laid_over(kern, lower, q, clear_px()) == kern.blended(
                lower.blend,
                clear_px(),
                shown_px(kern, lower, p),
                unit(lower.opacity),
            )
            &&& merged_px(kern, lower, upper, q) == seen_px(
                laid_over(kern, upper, q, faded_px(kern, lower, p)),
            )
        }),
{
    let (lower, upper) = (v.layers[lo], v.layers[up]);
    let both = seq![(lo, 0u8), (up, 0u8)];
    assert(both.drop_last() =~= seq![(lo, 0u8)]);
    assert(both.drop_last().drop_last() =~= Seq::<(LayerId, u8)>::empty());
    reveal_with_fuel(pixel_state, 3);
    lemma_laid(kern, lower, q, clear_px());
    let p = local_coord_spec(q, lower.offset)->0;
    lemma_laid(kern, upper, q, faded_px(kern, lower, p));
    let first = PixelState {
        accum: laid_over(kern, lower, q, clear_px()),
        stack: Seq::empty(),
        skip: None,
    };
    assert(pixel_state(kern, v, q, both.drop_last()) == first);
    let last = PixelState {
        accum: laid_over(kern, upper, q, first.accum),
        stack: Seq::empty(),
        skip: None,
    };
    assert(pixel_state(kern, v, q, both) == last);
    assert(closed_all(kern, last) == last);
}

proof fn lemma_laid<M: Arith>(kern: &FloatKernel<M>, l: LayerView, q: IVec2, dst: Rgba32F)
    requires
        l.content is Raster,
        local_coord_spec(q, l.offset) is Some,
    ensures
        laid_over(kern, l, q, dst) == kern.blended(
            l.blend,
            dst,
            shown_px(kern, l, local_coord_spec(q, l.offset)->0),
            unit(l.opacity),
        ),
{
    let px = shown_px(kern, l, local_coord_spec(q, l.offset)->0);
    assert(sum_offset(l.offset, IVec2 { x: 0, y: 0 }) == Some(l.offset));
    if zero(px.a) {
        unseen_source_keeps(&kern.math, l.blend, dst, px, unit(l.opacity));
    }
}

/// The document tiles that either layer covers.
pub open spec fn merged_tiles(lower: LayerView, upper: LayerView) -> Set<(i32, i32)> {
    Set::new(
        |t: (i32, i32)|
            covers(tiles_of(lower), lower.offset, t) || covers(tiles_of(upper), upper.offset, t),
    )
}

/// Why two layers cannot be merged.
pub open spec fn merge_error(lower: LayerView, upper: LayerView) -> Option<OgreError> {
    if !(lower.content is Raster) || !(upper.content is Raster) {
        Some(OgreError::NotRaster)
    } else if lower.locked {
        Some(OgreError::LayerLocked(lower.id))
    } else if upper.locked {
        Some(OgreError::LayerLocked(upper.id))
    } else if lower.blend != BlendMode::Normal {
        Some(OgreError::InvalidOperation("lower layer must be Normal blend for merge"))
    } else if !all_shiftable(tiles_of(lower), lower.offset) || !all_shiftable(
        tiles_of(upper),
        upper.offset,
    ) {
        Some(OgreError::InvalidOperation("layer offset out of range"))
    } else if merged_tiles(lower, upper).len() > MAX_MERGE_TILES {
        Some(OgreError::InvalidOperation("merged region exceeds tile budget"))
    } else if exists|t: (i32, i32)| #[trigger]
        merged_tiles(lower, upper).contains(t) && !whole_tile(t) {
        Some(OgreError::InvalidOperation("layer offset out of range"))
    } else {
        None
    }
}

fn shown_pixel<K: Kernel>(
    kern: &K,
    layer: &Layer,
    buffer: &TiledBuffer,
    mask: &Option<TiledBuffer>,
    p: IVec2,
) -> (r: Rgba32F)
    requires
        kern.wf(),
        layer.wf(),
        layer.content == (LayerContent::Raster { buffer: *buffer, mask: *mask }),
    ensures
        r == shown_px(kern, layer@, p),
{
    if !layer.visible || is_zero(clamp01_nan0(layer.opacity)) {
        return Rgba32F::transparent();
    }
    let mut px: Rgba32F = buffer.get_pixel(p);
    if let Some(m) = mask {
        let cov: u32 = clamp01_nan0(m.get_pixel(p).r);
        px.a = kern.scale(px.a, cov);
    }
    px
}

/// The pixels of the first `n` tiles, and of tile `n` those before `(x, y)`, are
/// merged; the rest is empty.
spec fn merge_progress<K: Kernel>(
    kern: &K,
    m: Map<(i32, i32), Seq<Rgba32F>>,
    lower: LayerView,
    upper: LayerView,
    tiles: Seq<(i32, i32)>,
    n: int,
    x: int,
    y: int,
) -> bool {
    forall|q: IVec2| #[trigger]
        pixel_at(m, q) == (if merge_reached(tiles, n, x, y, q) {
            merged_px(kern, lower, upper, q)
        } else {
            clear_px()
        })
}

spec fn merge_reached(tiles: Seq<(i32, i32)>, n: int, x: int, y: int, q: IVec2) -> bool {
    ||| exists|j: int| 0 <= j < n && #[trigger] tiles[j] == key(tile_of(q))
    ||| n < tiles.len() && tiles[n] == key(tile_of(q)) && (q.y < y || (q.y == y && q.x < x))
}

/// Merge the pixels of one document tile.
fn merge_tile<K: Kernel>(
    kern: &K,
    lower: &Layer,
    upper: &Layer,
    out: &mut TiledBuffer,
    rect: Rect,
    tiles: &Vec<(i32, i32)>,
    n: usize,
)
    requires
        kern.wf(),
        lower.wf(),
        upper.wf(),
        lower.content is Raster,
        upper.content is Raster,
        old(out).wf(),
        sparse(old(out)@),
        n < tiles@.len(),
        tiles@.no_duplicates(),
        whole_tile(tiles@[n as int]),
        rect == (Rect {
            x: (tiles@[n as int].0 * 256) as i32,
            y: (tiles@[n as int].1 * 256) as i32,
            w: 256,
            h: 256,
        }),
        merge_progress(
            kern,
            old(out)@,
            lower@,
            upper@,
            tiles@,
            n as int,
            i32::MIN as int,
            i32::MIN as int,
        ),
    ensures
        final(out).wf(),
        sparse(final(out)@),
        merge_progress(
            kern,
            final(out)@,
            lower@,
            upper@,
            tiles@,
            n + 1,
            i32::MIN as int,
            i32::MIN as int,
        ),
{
    let (lb, lm) = match &lower.content {
        LayerContent::Raster { buffer, mask } => (buffer, mask),
        _ => {
            return;
        },
    };
    let (ub, um) = match &upper.content {
        LayerContent::Raster { buffer, mask } => (buffer, mask),
        _ => {
            return;
        },
    };
    let ghost k = tiles@[n as int];
    let lower_opacity: u32 = clamp01_nan0(lower.opacity);
    let upper_opacity: u32 = clamp01_nan0(upper.opacity);
    let mut y: i32 = rect.y;
    proof {
        assert forall|q: IVec2| #[trigger] pixel_at(out@, q) == (if merge_reached(
            tiles@,
            n as int,
            rect.x as int,
            y as int,
            q,
        ) {
            merged_px(kern, lower@, upper@, q)
        } else {
            clear_px()
        }) by {
            lemma_reach_start(tiles@, n as int, rect, q);
        }
    }
    while y < rect.y + 256
        invariant
            kern.wf(),
            lower.wf(),
            upper.wf(),
            lower.content == (LayerContent::Raster { buffer: *lb, mask: *lm }),
            upper.content == (LayerContent::Raster { buffer: *ub, mask: *um }),
            lower_opacity == unit(lower.opacity),
            upper_opacity == unit(upper.opacity),
            out.wf(),
            sparse(out@),
            n < tiles@.len(),
            k == tiles@[n as int],
            whole_tile(k),
            rect == (Rect { x: (k.0 * 256) as i32, y: (k.1 * 256) as i32, w: 256, h: 256 }),
            rect.y <= y <= rect.y + 256,
            merge_progress(
                kern,
                out@,
                lower@,
                upper@,
                tiles@,
                n as int,
                rect.x as int,
                y as int,
            ),
        decreases rect.y + 256 - y,
    {
        let mut x: i32 = rect.x;
        while x < rect.x + 256
            invariant
                kern.wf(),
                lower.wf(),
                upper.wf(),
                lower.content == (LayerContent::Raster { buffer: *lb, mask: *lm }),
                upper.content == (LayerContent::Raster { buffer: *ub, mask: *um }),
                lower_opacity == unit(lower.opacity),
                upper_opacity == unit(upper.opacity),
                out.wf(),
                sparse(out@),
                n < tiles@.len(),
                k == tiles@[n as int],
                whole_tile(k),
                rect == (Rect { x: (k.0 * 256) as i32, y: (k.1 * 256) as i32, w: 256, h: 256 }),
                rect.y <= y < rect.y + 256,
                rect.x <= x <= rect.x + 256,
                merge_progress(
                    kern,
                    out@,
                    lower@,
                    upper@,
                    tiles@,
                    n as int,
                    x as int,
                    y as int,
                ),
            decreases rect.x + 256 - x,
        {
            let q: IVec2 = IVec2::new(x, y);
            let ghost before = out@;
            proof {
                out.lemma_full();
                assert(key(tile_of(q)) == k);
            }
            if let (Some(lp), Some(up)) = (
                local_coord(q, lower.offset),
                local_coord(q, upper.offset),
            ) {
                let mut low: Rgba32F = shown_pixel(kern, lower, lb, lm, lp);
                low.a = kern.scale(low.a, lower_opacity);
                let up_px: Rgba32F = shown_pixel(kern, upper, ub, um, up);
                let px: Rgba32F = kern.blend(upper.blend, low, up_px, upper_opacity);
                if is_less(F_ZERO, px.a) {
                    out.set_pixel(q, px);
                    proof {
                        set_pixel_keeps_sparse(before, q, px);
                        assert(!px.is_clear());
                    }
                }
            }
            proof {
                assert forall|u: IVec2| #[trigger] pixel_at(out@, u) == (if merge_reached(
                    tiles@,
                    n as int,
                    x + 1,
                    y as int,
                    u,
                ) {
                    merged_px(kern, lower@, upper@, u)
                } else {
                    clear_px()
                }) by {
                    let px = merged_px(kern, lower@, upper@, q);
                    if out@ != before {
                        set_pixel_then_get(before, q, px, u);
                    }
                    assert(pixel_at(before, u) == (if merge_reached(
                        tiles@,
                        n as int,
                        x as int,
                        y as int,
                        u,
                    ) {
                        merged_px(kern, lower@, upper@, u)
                    } else {
                        clear_px()
                    }));
                    if u != q {
                        assert(merge_reached(tiles@, n as int, x + 1, y as int, u)
                            == merge_reached(tiles@, n as int, x as int, y as int, u));
                    }
                }
            }
            x = x + 1;
        }
        proof {
            assert forall|u: IVec2| #[trigger] pixel_at(out@, u) == (if merge_reached(
                tiles@,
                n as int,
                rect.x as int,
                y + 1,
                u,
            ) {
                merged_px(kern, lower@, upper@, u)
            } else {
                clear_px()
            }) by {
                if key(tile_of(u)) == k {
                    assert(u.x as int / 256 == k.0 && u.y as int / 256 == k.1);
                }
            }
        }
        y = y + 1;
    }
    proof {
        assert forall|u: IVec2| #[trigger] pixel_at(out@, u) == (if merge_reached(
            tiles@,
            n + 1,
            i32::MIN as int,
            i32::MIN as int,
            u,
        ) {
            merged_px(kern, lower@, upper@, u)
        } else {
            clear_px()
        }) by {
            if key(tile_of(u)) == k {
                assert(u.x as int / 256 == k.0 && u.y as int / 256 == k.1);
                assert(tiles@[n as int] == key(tile_of(u)));
                assert(merge_reached(tiles@, n as int, rect.x as int, y as int, u));
                assert(merge_reached(tiles@, n + 1, i32::MIN as int, i32::MIN as int, u));
            } else {
                lemma_reach_next(tiles@, n as int, rect.x as int, y as int, u);
            }
        }
    }
}

proof fn lemma_reach_start(tiles: Seq<(i32, i32)>, n: int, rect: Rect, q: IVec2)
    requires
        0 <= n < tiles.len(),
        whole_tile(tiles[n]),
        rect.x == tiles[n].0 * 256,
        rect.y == tiles[n].1 * 256,
    ensures
        merge_reached(tiles, n, rect.x as int, rect.y as int, q) == merge_reached(
            tiles,
            n,
            i32::MIN as int,
            i32::MIN as int,
            q,
        ),
{
    if tiles[n] == key(tile_of(q)) {
        assert(q.x as int / 256 == tiles[n].0 && q.y as int / 256 == tiles[n].1);
    }
}

proof fn lemma_reach_next(tiles: Seq<(i32, i32)>, n: int, x: int, y: int, q: IVec2)
    requires
        0 <= n < tiles.len(),
        tiles[n] != key(tile_of(q)),
    ensures
        merge_reached(tiles, n + 1, i32::MIN as int, i32::MIN as int, q) == merge_reached(
            tiles,
            n,
            x,
            y,
            q,
        ),
{
    if exists|j: int| 0 <= j < n + 1 && #[trigger] tiles[j] == key(tile_of(q)) {
        let j = choose|j: int| 0 <= j < n + 1 && #[trigger] tiles[j] == key(tile_of(q));
        assert(j < n);
        assert(tiles[j] == key(tile_of(q)));
    }
    if exists|j: int| 0 <= j < n && #[trigger] tiles[j] == key(tile_of(q)) {
        let j = choose|j: int| 0 <= j < n && #[trigger] tiles[j] == key(tile_of(q));
        assert(tiles[j] == key(tile_of(q)));
    }
}

/// Composite two raster layers into a single document-space (zero-offset)
/// buffer, applying visibility, opacity, masks, and the upper layer's blend
/// mode. The lower layer must use normal blending.
///
/// The two layers are composited over the union of their occupied document-space
/// tiles.
pub fn merge_raster_layers<K: Kernel>(kern: &K, lower: &Layer, upper: &Layer) -> (r: Result<
    TiledBuffer,
    OgreError,
>)
    requires
        kern.wf(),
        lower.wf(),
        upper.wf(),
    ensures
        match merge_error(lower@, upper@) {
            Some(e) => r matches Err(x) && x == e,
            None => r matches Ok(b) && b.wf() && sparse(b@) && forall|q: IVec2| #[trigger]
                b.at(q) == (if merged_tiles(lower@, upper@).contains(key(tile_of(q))) {
                    merged_px(kern, lower@, upper@, q)
                } else {
                    clear_px()
                }),
        },
{
    let lower_buffer: &TiledBuffer = match lower.buffer() {
        Some(b) => b,
        None => {
            return Err(OgreError::NotRaster);
        },
    };
    let upper_buffer: &TiledBuffer = match upper.buffer() {
        Some(b) => b,
        None => {
            return Err(OgreError::NotRaster);
        },
    };
    if lower.locked {
        return Err(OgreError::LayerLocked(lower.id));
    }
    if upper.locked {
        return Err(OgreError::LayerLocked(upper.id));
    }
    if lower.blend != BlendMode::Normal {
        return Err(OgreError::InvalidOperation("lower layer must be Normal blend for merge"));
    }
    let mut set: AHashSet<(i32, i32), RandomState> = coord_set_new();
    match doc_space_occupied_tiles(lower_buffer, lower.offset, &mut set) {
        Ok(_) => {},
        Err(e) => {
            return Err(e);
        },
    }
    match doc_space_occupied_tiles(upper_buffer, upper.offset, &mut set) {
        Ok(_) => {},
        Err(e) => {
            return Err(e);
        },
    }
    assert(coord_members(set) =~= merged_tiles(lower@, upper@));
    if coord_set_len(&set) > MAX_MERGE_TILES {
        return Err(OgreError::InvalidOperation("merged region exceeds tile budget"));
    }
    let tiles: Vec<(i32, i32)> = coord_set_iter(&set);
    let mut out: TiledBuffer = TiledBuffer::new();
    let mut i: usize = 0;
    while i < tiles.len()
        invariant
            kern.wf(),
            lower.wf(),
            upper.wf(),
            lower.content is Raster,
            upper.content is Raster,
            i <= tiles@.len(),
            tiles@.no_duplicates(),
            forall|t: (i32, i32)| #[trigger]
                tiles@.contains(t) <==> merged_tiles(lower@, upper@).contains(t),
            forall|j: int| 0 <= j < i ==> whole_tile(#[trigger] tiles@[j]),
            merge_error(lower@, upper@) is None || (exists|t: (i32, i32)| #[trigger]
                merged_tiles(lower@, upper@).contains(t) && !whole_tile(t)) && merge_error(
                lower@,
                upper@,
            ) == Some(OgreError::InvalidOperation("layer offset out of range")),
            out.wf(),
            sparse(out@),
            merge_progress(
                kern,
                out@,
                lower@,
                upper@,
                tiles@,
                i as int,
                i32::MIN as int,
                i32::MIN as int,
            ),
        decreases tiles@.len() - i,
    {
        let t: (i32, i32) = tiles[i];
        assert(tiles@.contains(t));
        match local_tile_rect(TileCoord { x: t.0, y: t.1 }) {
            Some(rect) => {
                merge_tile(kern, lower, upper, &mut out, rect, &tiles, i);
            },
            None => {
                assert(merged_tiles(lower@, upper@).contains(t) && !whole_tile(t));
                return Err(OgreError::InvalidOperation("layer offset out of range"));
            },
        }
        i = i + 1;
    }
    proof {
        assert forall|t: (i32, i32)| #[trigger] merged_tiles(lower@, upper@).contains(
            t,
        ) implies whole_tile(t) by {
            assert(tiles@.contains(t));
            let j = choose|j: int| 0 <= j < tiles@.len() && tiles@[j] == t;
            assert(whole_tile(tiles@[j]));
        }
        assert forall|q: IVec2| #[trigger] out.at(q) == (if merged_tiles(lower@, upper@).contains(
            key(tile_of(q)),
        ) {
            merged_px(kern, lower@, upper@, q)
        } else {
            clear_px()
        }) by {
            assert(pixel_at(out@, q) == out.at(q));
            let t = key(tile_of(q));
            if merged_tiles(lower@, upper@).contains(t) {
                assert(tiles@.contains(t));
                let j = choose|j: int| 0 <= j < tiles@.len() && tiles@[j] == t;
                assert(tiles@[j] == key(tile_of(q)));
            } else if merge_reached(
                tiles@,
                i as int,
                i32::MIN as int,
                i32::MIN as int,
                q,
            ) {
                let j = choose|j: int| 0 <= j < i && #[trigger] tiles@[j] == key(tile_of(q));
                assert(tiles@.contains(t));
            }
        }
    }
    Ok(out)
}

/// `b` holds the pixels of two merged layers, and no tile without ink.
pub open spec fn is_merge<K: Kernel>(
    kern: &K,
    lower: LayerView,
    upper: LayerView,
    b: Map<(i32, i32), Seq<Rgba32F>>,
) -> bool {
    &&& sparse(b)
    &&& forall|q: IVec2| #[trigger]
        pixel_at(b, q) == (if merged_tiles(lower, upper).contains(key(tile_of(q))) {
            merged_px(kern, lower, upper, q)
        } else {
            clear_px()
        })
}

/// Why `upper` cannot be merged with what is below it, before its place is
/// looked at.
pub open spec fn upper_error(v: DocView, upper: LayerId) -> Option<OgreError> {
    if !v.has(upper) {
        Some(OgreError::LayerNotFound(upper))
    } else if !v.is_raster(upper) {
        Some(OgreError::NotRaster)
    } else if v.layers[upper].locked {
        Some(OgreError::LayerLocked(upper))
    } else if !v.placed(upper) {
        Some(OgreError::LayerNotFound(upper))
    } else {
        None
    }
}

/// Why `upper`, at position `i` of the list of `parent`, cannot be merged with
/// what is below it.
pub open spec fn below_error(
    v: DocView,
    upper: LayerId,
    parent: Option<LayerId>,
    i: int,
) -> Option<OgreError> {
    let lower = v.list(parent)[i - 1];
    if i == 0 {
        Some(OgreError::InvalidOperation("no layer below the target"))
    } else if !v.has(lower) {
        Some(OgreError::LayerNotFound(lower))
    } else {
        merge_error(v.layers[lower], v.layers[upper])
    }
}

/// The layer that takes the place of `lower` when it is merged to `b`.
pub open spec fn merged_layer(
    v: DocView,
    lower: LayerId,
    b: Map<(i32, i32), Seq<Rgba32F>>,
) -> LayerView {
    LayerView {
        id: lower,
        ..fresh_layer(v.layers[lower].name, ContentView::Raster { buffer: b, mask: None })
    }
}

/// A document with just a merged layer shows the merged pixels laid over nothing.
pub proof fn merged_layers_show_their_pixels<M: Arith>(
    kern: &FloatKernel<M>,
    v: DocView,
    lo: LayerId,
    b: Map<(i32, i32), Seq<Rgba32F>>,
    w: DocView,
    q: IVec2,
)
    requires
        w.layers[lo] == merged_layer(v, lo, b),
    ensures
        composite_px(kern, w, q, seq![(lo, 0u8)]) == kern.blended(
            BlendMode::Normal,
            clear_px(),
            pixel_at(b, q),
            F_ONE,
        ),
{
    let only = seq![(lo, 0u8)];
    assert(only.drop_last() =~= Seq::<(LayerId, u8)>::empty());
    reveal_with_fuel(pixel_state, 2);
    let l = w.layers[lo];
    lemma_laid(kern, l, q, clear_px());
    let last = PixelState {
        accum: laid_over(kern, l, q, clear_px()),
        stack: Seq::empty(),
        skip: None,
    };
    assert(pixel_state(kern, w, q, only) == last);
    assert(closed_all(kern, last) == last);
}

/// `z` is the document with `upper` merged into `lower` and gone.
pub open spec fn merged_down<K: Kernel>(
    kern: &K,
    v: DocView,
    upper: LayerId,
    lower: LayerId,
    b: Map<(i32, i32), Seq<Rgba32F>>,
    z: DocView,
) -> bool {
    &&& is_merge(kern, v.layers[lower], v.layers[upper], b)
    &&& exists|w: DocView| #[trigger]
        unlisted(v.with_layer(lower, merged_layer(v, lower, b)), upper, w) && z == dropped(
            w,
            seq![upper],
            active_outside(v, seq![upper]),
        )
}

/// At document position `q` merging two layers loses nothing to rounding: a pixel of
/// the lower layer, and a merged one, lies over nothing as it is, and scaling zero
/// gives zero.
pub open spec fn merges_exactly<K: Kernel>(
    kern: &K,
    lower: LayerView,
    upper: LayerView,
    q: IVec2,
) -> bool {
    let p = local_coord_spec(q, lower.offset)->0;
    let merged = merged_px(kern, lower, upper, q);
    &&& kern.blended(
        BlendMode::Normal,
        clear_px(),
        shown_px(kern, lower, p),
        unit(lower.opacity),
    ) == faded_px(kern, lower, p)
    &&& kern.blended(BlendMode::Normal, clear_px(), merged, F_ONE) == merged
    &&& forall|c: u32| zero(#[trigger] kern.scaled(F_ZERO, unit(c)))
}

/// Outside the tiles of the merged layers neither of them shows anything.
proof fn lemma_uncovered<K: Kernel>(kern: &K, l: LayerView, q: IVec2)
    requires
        l.content is Raster,
        all_shiftable(tiles_of(l), l.offset),
        local_coord_spec(q, l.offset) is Some,
        !covers(tiles_of(l), l.offset, key(tile_of(q))),
        forall|c: u32| zero(#[trigger] kern.scaled(F_ZERO, unit(c))),
    ensures
        zero(shown_px(kern, l, local_coord_spec(q, l.offset)->0).a),
{
    let p = local_coord_spec(q, l.offset)->0;
    let k = key(tile_of(p));
    if tiles_of(l).dom().contains(k) {
        assert(shiftable(k, l.offset));
        let r = shifted_tile(k, l.offset);
        assert(r.has(q.x as int, q.y as int));
        crate::coord::pixels_lie_in_touched_tiles(r, q);
        assert(tile_of(q) == (TileCoord { x: key(tile_of(q)).0, y: key(tile_of(q)).1 }));
        assert(covers(tiles_of(l), l.offset, key(tile_of(q))));
    }
    assert(pixel_at(tiles_of(l), p) == clear_px());
}

/// Merging down keeps what a document of two layers shows, wherever nothing is lost
/// to rounding.
///
/// The merged layer stands alone in the tree, under the name and the identifier of
/// the lower one.
pub proof fn merging_keeps_the_composite<M: Arith>(
    kern: &FloatKernel<M>,
    v: DocView,
    upper: LayerId,
    lower: LayerId,
    b: Map<(i32, i32), Seq<Rgba32F>>,
    z: DocView,
    q: IVec2,
)
    requires
        v.ids_agree(),
        v.order == seq![lower, upper],
        v.sits_at(lower, None, 0),
        v.sits_at(upper, None, 1),
        merge_error(v.layers[lower], v.layers[upper]) is None,
        merged_down(kern, v, upper, lower, b, z),
        local_coord_spec(q, v.layers[lower].offset) is Some,
        local_coord_spec(q, v.layers[upper].offset) is Some,
        merges_exactly(kern, v.layers[lower], v.layers[upper], q),
    ensures
        z.order == seq![lower],
        !z.has(upper),
        z.layers[lower] == merged_layer(v, lower, b),
        paint_list(v, v.order, 0, Set::empty()) matches Ok(a) && paint_list(
            z,
            z.order,
            0,
            Set::empty(),
        ) matches Ok(c) && composite_px(kern, z, q, c.0) == composite_px(kern, v, q, a.0),
{
    let (lo, up) = (v.layers[lower], v.layers[upper]);
    let v1 = v.with_layer(lower, merged_layer(v, lower, b));
    let w = choose|w: DocView| #[trigger]
        unlisted(v1, upper, w) && z == dropped(w, seq![upper], active_outside(v, seq![upper]));
    assert(v.order[0] == lower && v.order[1] == upper);
    assert(lower != upper);
    assert(v1.order.contains(upper));
    assert(v1.placed(upper));
    let (parent, i) = choose|parent: Option<LayerId>, i: int| #[trigger]
        v1.sits_at(upper, parent, i) && w == v1.with_list(parent, v1.list(parent).remove(i));
    if let Some(p) = parent {
        assert(v1.is_parent(p, upper));
        assert(v.is_parent(p, upper));
        assert(false);
    }
    assert(i == 1);
    assert(v1.order.remove(1) =~= seq![lower]);
    assert(seq![upper].to_set() =~= set![upper]) by {
        assert(seq![upper][0] == upper);
    }
    assert(z.order == seq![lower]);
    assert(z.layers =~= v1.layers.remove(upper));
    lemma_two_painted(v, lower, upper);
    lemma_one_painted(z, lower);
    let p = local_coord_spec(q, lo.offset)->0;
    let m = merged_px(kern, lo, up, q);
    let x = laid_over(kern, up, q, faded_px(kern, lo, p));
    merging_folds_as_the_compositor(kern, v, lower, upper, q);
    merged_layers_show_their_pixels(kern, v, lower, b, z, q);
    lemma_laid(kern, up, q, faded_px(kern, lo, p));
    blended_alpha_is_sound(
        &kern.math,
        BlendMode::Normal,
        clear_px(),
        shown_px(kern, lo, p),
        unit(lo.opacity),
    );
    let u = local_coord_spec(q, up.offset)->0;
    blended_alpha_is_sound(
        &kern.math,
        up.blend,
        faded_px(kern, lo, p),
        shown_px(kern, up, u),
        unit(up.opacity),
    );
    assert(seen_px(x) == x);
    if !merged_tiles(lo, up).contains(key(tile_of(q))) {
        lemma_uncovered(kern, lo, q);
        lemma_uncovered(kern, up, q);
        unseen_source_keeps(
            &kern.math,
            BlendMode::Normal,
            clear_px(),
            shown_px(kern, lo, p),
            unit(lo.opacity),
        );
        unseen_source_keeps(
            &kern.math,
            up.blend,
            faded_px(kern, lo, p),
            shown_px(kern, up, u),
            unit(up.opacity),
        );
        assert(pixel_at(b, q) == clear_px());
        assert(m == clear_px());
    }
    assert(pixel_at(b, q) == m);
}

/// Two plain layers at the root are painted in order.
proof fn lemma_two_painted(v: DocView, lower: LayerId, upper: LayerId)
    requires
        v.ids_agree(),
        v.order == seq![lower, upper],
        lower != upper,
        v.is_raster(lower),
        v.is_raster(upper),
        !v.removed.contains(lower),
        !v.removed.contains(upper),
    ensures
        paint_list(v, v.order, 0, Set::empty()) matches Ok(a) && a.0 == seq![
            (lower, 0u8),
            (upper, 0u8),
        ],
{
    let none = Set::<LayerId>::empty();
    assert(v.order.drop_last() =~= seq![lower]);
    assert(v.order.drop_last().drop_last() =~= Seq::<LayerId>::empty());
    reveal_with_fuel(paint_list, 4);
    reveal_with_fuel(paint, 2);
}

/// One plain layer at the root is painted alone.
proof fn lemma_one_painted(v: DocView, lower: LayerId)
    requires
        v.layers.dom().finite(),
        v.order == seq![lower],
        v.is_raster(lower),
        !v.removed.contains(lower),
    ensures
        paint_list(v, v.order, 0, Set::empty()) matches Ok(a) && a.0 == seq![(lower, 0u8)],
{
    assert(v.order.drop_last() =~= Seq::<LayerId>::empty());
    reveal_with_fuel(paint_list, 3);
    reveal_with_fuel(paint, 2);
}

/// Merge the raster layer `upper` down into the raster layer below it,
/// replacing the lower with the composited result and removing the upper.
///
/// This is the raw (non-undoable) operation. Returns the id of the merged
/// (lower) layer. Fails if `upper` is not raster or is locked, there is no layer
/// below, the lower layer is not raster, is locked or does not use normal
/// blending, or the merged region exceeds the tile budget.
pub fn merge_down<K: Kernel>(kern: &K, doc: &mut Document, upper: LayerId) -> (r: Result<
    LayerId,
    OgreError,
>)
    requires
        kern.wf(),
        old(doc).wf(),
    ensures
        final(doc).wf(),
        final(doc).used() <= old(doc).used(),
        r is Err ==> final(doc)@ == old(doc)@,
        match upper_error(old(doc)@, upper) {
            Some(e) => r matches Err(x) && x == e,
            None => exists|parent: Option<LayerId>, i: int| #[trigger]
                old(doc)@.sits_at(upper, parent, i) && match below_error(
                    old(doc)@,
                    upper,
                    parent,
                    i,
                ) {
                    Some(e) => r matches Err(x) && x == e,
                    None => r matches Ok(lower) && lower == old(doc)@.list(parent)[i - 1] && exists|
                        b: Map<(i32, i32), Seq<Rgba32F>>,
                    | #[trigger]
                        merged_down(kern, old(doc)@, upper, lower, b, final(doc)@),
                },
        },
{
    let ghost v = doc@;
    match doc.layer(upper) {
        Ok(l) => {
            if !l.is_raster() {
                return Err(OgreError::NotRaster);
            }
            if l.locked {
                return Err(OgreError::LayerLocked(upper));
            }
        },
        Err(e) => {
            return Err(e);
        },
    }
    let (parent, index) = match doc.sibling_index(upper) {
        Some(x) => x,
        None => {
            return Err(OgreError::LayerNotFound(upper));
        },
    };
    assert(v.sits_at(upper, parent, index as int));
    if index == 0 {
        return Err(OgreError::InvalidOperation("no layer below the target"));
    }
    // Identify the lower layer via the sibling list so the merge is visually
    // correct even inside groups.
    let lower: LayerId = doc.sibling_at(parent, index - 1);
    let (merged, name) = match (doc.layer(lower), doc.layer(upper)) {
        (Ok(lo), Ok(up)) => match merge_raster_layers(kern, lo, up) {
            Ok(b) => (b, lo.name.clone()),
            Err(e) => {
                return Err(e);
            },
        },
        (Err(e), _) => {
            return Err(e);
        },
        (_, Err(e)) => {
            return Err(e);
        },
    };
    let ghost b = merged@;
    let mut layer: Layer = Layer::new_raster(name.as_str());
    layer.id = lower;
    layer.content = LayerContent::Raster { buffer: merged, mask: None };
    assert(layer@ == merged_layer(v, lower, b));
    match doc.layer_mut(lower) {
        Ok(l) => {
            *l = layer;
        },
        Err(_) => {},
    }
    let ghost u = doc@;
    proof {
        assert(u == v.with_layer(lower, merged_layer(v, lower, b)));
        assert(lower != upper);
        doc.lemma_ids();
        crate::document::lemma_walk_leaf(u, upper);
    }
    match doc.remove_layer(upper) {
        Ok(_) => {},
        Err(e) => {
            assert(false);
        },
    }
    proof {
        assert(subtree(u, upper) =~= seq![upper]);
        assert(is_merge(kern, v.layers[lower], v.layers[upper], b)) by {
            assert forall|q: IVec2| #[trigger] pixel_at(b, q) == (if merged_tiles(
                v.layers[lower],
                v.layers[upper],
            ).contains(key(tile_of(q))) {
                merged_px(kern, v.layers[lower], v.layers[upper], q)
            } else {
                clear_px()
            }) by {
                assert(merged.at(q) == pixel_at(b, q));
            }
        }
        assert(merged_down(kern, v, upper, lower, b, doc@));
    }
    Ok(lower)
}

} // verus!
