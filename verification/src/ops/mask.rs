//! Layer-mask construction helpers.
//!
//! A layer mask is a [`TiledBuffer`] storing per-pixel coverage in its red
//! channel. Coverage `1.0` reveals the underlying pixel; `0.0` hides it. The
//! mask lives in the same layer-local space as the layer buffer, so unwritten
//! mask pixels (which read back as coverage `0.0`) hide the corresponding layer
//! pixel.
use vstd::prelude::*;

use std::sync::Arc;

use crate::buffer::{
    alike, full_tiles, key, pixel_at, slot_of, sparse, tiles_listed, TiledBuffer,
};
use crate::buffer_region::{pruning_keeps_pixels, same_tile};
use crate::compositor::sum_offset;
use crate::coord::{local_index, tile_of, tile_rect, IVec2, Rect, TileCoord};
use crate::float_bits::{clamp01_nan0, is_less, is_zero, less, unit, zero, F_ONE, F_ZERO};
use crate::kernel::Kernel;
use crate::paint::{in_area, paint, writes};
use crate::pixel::{clear_px, Rgba32F};
use crate::selection::{coverage_lies_in_extent, Selection, SelectionView};
use crate::tile::{slot, Tile, TILE_PIXELS, TILE_SIZE};

verus! {

/// Mask coverage that reveals the underlying pixel fully.
pub open spec fn full_coverage() -> Rgba32F {
    Rgba32F { r: F_ONE, g: F_ZERO, b: F_ZERO, a: F_ONE }
}

fn coverage_full() -> (r: Rgba32F)
    ensures
        r == full_coverage(),
        !r.is_clear(),
{
    Rgba32F::new(F_ONE, F_ZERO, F_ZERO, F_ONE)
}

/// How a newly added layer mask should be initialized.
///
/// Every variant produces a **sparse** mask: only tiles that actually carry
/// information are materialised, so a mask over a 4K canvas costs nothing if the
/// layer or selection is small.
pub enum MaskInit {
    /// Coverage `1.0` over the layer's existing content tiles, unwritten
    /// elsewhere. Equivalent to "no mask yet" but establishes an editable mask
    /// the user can paint black onto. Sparse: only materialises tiles the
    /// source buffer already occupies.
    RevealAll,
    /// Coverage `0.0` everywhere (an empty buffer). Fully hides the layer until
    /// the user paints white onto the mask.
    HideAll,
    /// Coverage `1.0` inside the selection (document space), unwritten
    /// elsewhere. The canonical "mask to selection" operation.
    RevealSelection(Selection),
}

/// What a mask made from a selection holds at local position `p` of a layer
/// placed at `offset`.
pub open spec fn revealed_px(s: SelectionView, offset: IVec2, p: IVec2) -> Rgba32F {
    match sum_offset(p, offset) {
        Some(q) => if less(F_ZERO, s.cov(q)) { full_coverage() } else { clear_px() },
        None => clear_px(),
    }
}

impl Clone for MaskInit {
    fn clone(&self) -> (r: Self)
        ensures
            match *self {
                MaskInit::RevealAll => r is RevealAll,
                MaskInit::HideAll => r is HideAll,
                MaskInit::RevealSelection(s) => r matches MaskInit::RevealSelection(t) && t@ == s@ && (
                s.wf() ==> t.wf()),
            },
    {
        match self {
            MaskInit::RevealAll => MaskInit::RevealAll,
            MaskInit::HideAll => MaskInit::HideAll,
            MaskInit::RevealSelection(s) => MaskInit::RevealSelection(s.clone()),
        }
    }
}

impl MaskInit {
    /// The selection, if any, is well formed.
    pub open spec fn wf(&self) -> bool {
        self matches MaskInit::RevealSelection(s) ==> s.wf()
    }

    /// `b` holds the mask that this init kind implies for a layer.
    pub open spec fn implies_mask(
        &self,
        source: Map<(i32, i32), Seq<Rgba32F>>,
        offset: IVec2,
        b: Map<(i32, i32), Seq<Rgba32F>>,
    ) -> bool {
        match *self {
            MaskInit::HideAll => b == Map::<(i32, i32), Seq<Rgba32F>>::empty(),
            MaskInit::RevealAll => {
                &&& b.dom() == source.dom()
                &&& forall|k: (i32, i32)| #[trigger]
                    b.dom().contains(k) ==> b[k] == Seq::new(
                        TILE_PIXELS as nat,
                        |i: int| full_coverage(),
                    )
            },
            MaskInit::RevealSelection(s) => {
                &&& sparse(b)
                &&& forall|p: IVec2|
                    alike(#[trigger] pixel_at(b, p), revealed_px(s@, offset, p))
            },
        }
    }

    /// Build the mask buffer implied by this init kind.
    ///
    /// `source` is the layer's raster buffer (used to bound a `RevealAll` mask)
    /// and `layer_offset` converts document-space selections to the layer-local
    /// space the mask is stored in (`local = doc - offset`).
    pub fn build(&self, source: &TiledBuffer, layer_offset: IVec2) -> (mask: TiledBuffer)
        requires
            self.wf(),
            source.wf(),
        ensures
            mask.wf(),
            self.implies_mask(source@, layer_offset, mask@),
    {
        let mut mask: TiledBuffer = TiledBuffer::new();
        match self {
            MaskInit::HideAll => mask,
            MaskInit::RevealAll => {
                let list: Vec<(TileCoord, Arc<Tile>)> = source.occupied_tiles();
                let mut i: usize = 0;
                let ghost full = Seq::new(TILE_PIXELS as nat, |i: int| full_coverage());
                while i < list.len()
                    invariant
                        i <= list@.len(),
                        full == Seq::new(TILE_PIXELS as nat, |i: int| full_coverage()),
                        mask.wf(),
                        forall|k: (i32, i32)| #[trigger]
                            mask@.dom().contains(k) <==> exists|j: int|
                                0 <= j < i && key((#[trigger] list@[j]).0) == k,
                        forall|k: (i32, i32)| #[trigger]
                            mask@.dom().contains(k) ==> mask@[k] == full,
                    decreases list@.len() - i,
                {
                    let c: TileCoord = list[i].0;
                    let ghost before = mask@;
                    *mask.tile_mut(c) = Tile::filled(coverage_full());
                    proof {
                        assert forall|k: (i32, i32)| #[trigger] mask@.dom().contains(k)
                            <==> exists|j: int|
                            0 <= j < i + 1 && key((#[trigger] list@[j]).0) == k by {
                            assert(key(list@[i as int].0) == key(c));
                            if before.dom().contains(k) {
                                let j = choose|j: int|
                                    0 <= j < i && key((#[trigger] list@[j]).0) == k;
                                assert(key(list@[j].0) == k);
                            }
                            if exists|j: int| 0 <= j < i + 1 && key((#[trigger] list@[j]).0) == k {
                                let j = choose|j: int|
                                    0 <= j < i + 1 && key((#[trigger] list@[j]).0) == k;
                                if j < i {
                                    assert(key(list@[j].0) == k);
                                    assert(before.dom().contains(k));
                                }
                            }
                        }
                    }
                    i = i + 1;
                }
                proof {
                    assert forall|k: (i32, i32)| mask@.dom().contains(k) <==> source@.dom().contains(
                        k,
                    ) by {
                        if mask@.dom().contains(k) {
                            let j = choose|j: int| 0 <= j < i && key((#[trigger] list@[j]).0) == k;
                            assert(source@.dom().contains(key(list@[j].0)));
                        }
                        if source@.dom().contains(k) {
                            let j = choose|j: int|
                                0 <= j < list@.len() && key((#[trigger] list@[j]).0) == k;
                            assert(key(list@[j].0) == k);
                        }
                    }
                    assert(mask@.dom() =~= source@.dom());
                }
                mask
            },
            MaskInit::RevealSelection(selection) => {
                let b: Rect = match selection.bounds() {
                    Some(b) => b,
                    None => {
                        proof {
                            assert forall|p: IVec2|
                                alike(
                                    #[trigger] pixel_at(mask@, p),
                                    revealed_px(selection@, layer_offset, p),
                                ) by {
                                if let Some(q) = sum_offset(p, layer_offset) {
                                    coverage_lies_in_extent(selection@, q);
                                }
                            }
                        }
                        return mask;
                    },
                };
                let f = |p: IVec2| -> (o: Option<Rgba32F>)
                    requires
                        selection.wf(),
                    ensures
                        match o {
                            Some(px) => px == revealed_px(selection@, layer_offset, p),
                            None => revealed_px(selection@, layer_offset, p) == clear_px(),
                        },
                    {
                        match (
                            p.x.checked_add(layer_offset.x),
                            p.y.checked_add(layer_offset.y),
                        ) {
                            (Some(x), Some(y)) => if is_less(
                                F_ZERO,
                                selection.coverage_at(IVec2::new(x, y)),
                            ) {
                                Some(coverage_full())
                            } else {
                                None
                            },
                            _ => None,
                        }
                    };
                let x0: i64 = b.x as i64 - layer_offset.x as i64;
                let y0: i64 = b.y as i64 - layer_offset.y as i64;
                let x1: i64 = b.right() - layer_offset.x as i64;
                let y1: i64 = b.bottom() - layer_offset.y as i64;
                paint(&mut mask, x0, y0, x1, y1, f);
                proof {
                    let area = (x0 as int, y0 as int, x1 as int, y1 as int);
                    assert forall|p: IVec2|
                        alike(
                            #[trigger] pixel_at(mask@, p),
                            revealed_px(selection@, layer_offset, p),
                        ) by {
                        assert(mask.at(p) == pixel_at(mask@, p));
                        if in_area(area, p) {
                            assert(writes(f, p, clear_px(), mask.at(p)));
                        } else if let Some(q) = sum_offset(p, layer_offset) {
                            coverage_lies_in_extent(selection@, q);
                        }
                    }
                }
                mask
            },
        }
    }
}

/// A pixel once a coverage was baked into it.
pub open spec fn baked_px<K: Kernel>(kern: &K, px: Rgba32F, cov: u32) -> Rgba32F {
    if !less(cov, F_ONE) || zero(px.a) { px } else { Rgba32F { a: kern.scaled(px.a, cov), ..px } }
}

spec fn baked_before(lx: int, ly: int, x: int, y: int) -> bool {
    ly < y || (ly == y && lx < x)
}

/// Bake a mask into the pixels of a tile whose rectangle is `t`.
fn bake_tile<K: Kernel>(kern: &K, tile: &mut Tile, t: Rect, mask: &TiledBuffer)
    requires
        kern.wf(),
        old(tile).wf(),
        mask.wf(),
        t.w == 256 && t.h == 256,
        t.x + 255 <= i32::MAX && t.y + 255 <= i32::MAX,
    ensures
        final(tile).wf(),
        forall|lx: int, ly: int|
            #![trigger slot(lx, ly)]
            0 <= lx < 256 && 0 <= ly < 256 ==> final(tile)@[slot(lx, ly)] == baked_px(
                kern,
                old(tile)@[slot(lx, ly)],
                unit(mask.at(IVec2 { x: (t.x + lx) as i32, y: (t.y + ly) as i32 }).r),
            ),
{
    let mut ly: usize = 0;
    while ly < TILE_SIZE
        invariant
            kern.wf(),
            tile.wf(),
            mask.wf(),
            t.w == 256 && t.h == 256,
            t.x + 255 <= i32::MAX && t.y + 255 <= i32::MAX,
            ly <= TILE_SIZE,
            forall|u: int, v: int|
                #![trigger slot(u, v)]
                0 <= u < 256 && 0 <= v < 256 ==> tile@[slot(u, v)] == (if v < ly {
                    baked_px(
                        kern,
                        old(tile)@[slot(u, v)],
                        unit(mask.at(IVec2 { x: (t.x + u) as i32, y: (t.y + v) as i32 }).r),
                    )
                } else {
                    old(tile)@[slot(u, v)]
                }),
        decreases TILE_SIZE - ly,
    {
        let mut lx: usize = 0;
        while lx < TILE_SIZE
            invariant
                kern.wf(),
                tile.wf(),
                mask.wf(),
                t.w == 256 && t.h == 256,
                t.x + 255 <= i32::MAX && t.y + 255 <= i32::MAX,
                ly < TILE_SIZE,
                lx <= TILE_SIZE,
                forall|u: int, v: int|
                    #![trigger slot(u, v)]
                    0 <= u < 256 && 0 <= v < 256 ==> tile@[slot(u, v)] == (if baked_before(
                        u,
                        v,
                        lx as int,
                        ly as int,
                    ) {
                        baked_px(
                            kern,
                            old(tile)@[slot(u, v)],
                            unit(mask.at(IVec2 { x: (t.x + u) as i32, y: (t.y + v) as i32 }).r),
                        )
                    } else {
                        old(tile)@[slot(u, v)]
                    }),
            decreases TILE_SIZE - lx,
        {
            proof {
                tile.lemma_len();
                assert(tile@[slot(lx as int, ly as int)] == old(tile)@[slot(
                    lx as int,
                    ly as int,
                )]);
            }
            let p: IVec2 = IVec2::new(t.x + lx as i32, t.y + ly as i32);
            let cov: u32 = clamp01_nan0(mask.get_pixel(p).r);
            let mut px: Rgba32F = tile.get(lx, ly);
            if is_less(cov, F_ONE) && !is_zero(px.a) {
                px.a = kern.scale(px.a, cov);
                tile.set(lx, ly, px);
            }
            lx = lx + 1;
        }
        ly = ly + 1;
    }
}

/// Bake a mask into a layer buffer: multiply each pixel's alpha by the mask
/// coverage at that layer-local position.
///
/// Tiles that end up fully transparent are pruned, preserving the sparse
/// representation. This is the destructive "apply mask" step.
pub fn apply_mask_to_buffer<K: Kernel>(kern: &K, buffer: &mut TiledBuffer, mask: &TiledBuffer)
    requires
        kern.wf(),
        old(buffer).wf(),
        mask.wf(),
    ensures
        final(buffer).wf(),
        sparse(final(buffer)@),
        forall|p: IVec2|
            alike(
                #[trigger] final(buffer).at(p),
                baked_px(kern, old(buffer).at(p), unit(mask.at(p).r)),
            ),
{
    let list: Vec<(TileCoord, Arc<Tile>)> = buffer.occupied_tiles();
    let ghost m0 = buffer@;
    let mut i: usize = 0;
    proof {
        buffer.lemma_full();
    }
    while i < list.len()
        invariant
            kern.wf(),
            buffer.wf(),
            mask.wf(),
            full_tiles(m0),
            tiles_listed(list@, m0),
            i <= list@.len(),
            forall|p: IVec2|
                (exists|j: int| 0 <= j < i && (#[trigger] list@[j]).0 == tile_of(p)) ==> #[trigger] pixel_at(
                    buffer@,
                    p,
                ) == baked_px(kern, pixel_at(m0, p), unit(mask.at(p).r)),
            forall|k: (i32, i32)|
                (forall|j: int| 0 <= j < i ==> key((#[trigger] list@[j]).0) != k)
                    ==> #[trigger] same_tile(m0, buffer@, k),
        decreases list@.len() - i,
    {
        let c: TileCoord = list[i].0;
        let ghost m1 = buffer@;
        proof {
            assert(m0.dom().contains(key(list@[i as int].0)));
            assert forall|j: int| 0 <= j < i implies key((#[trigger] list@[j]).0) != key(c) by {
                assert(list@[j].0 != list@[i as int].0);
            }
            assert(same_tile(m0, m1, key(c)));
        }
        if let Some(t) = tile_rect(c) {
            let tile = buffer.tile_mut(c);
            bake_tile(kern, tile, t, mask);
            proof {
                assert forall|p: IVec2|
                    (exists|j: int| 0 <= j < i + 1 && (#[trigger] list@[j]).0 == tile_of(
                        p,
                    )) implies #[trigger] pixel_at(buffer@, p) == baked_px(
                    kern,
                    pixel_at(m0, p),
                    unit(mask.at(p).r),
                ) by {
                    if tile_of(p) == c {
                        let lx = local_index(p.x as int);
                        let ly = local_index(p.y as int);
                        assert(c.x == p.x as int / 256 && c.y == p.y as int / 256);
                        assert(slot_of(p) == slot(lx, ly));
                        assert(IVec2 { x: (t.x + lx) as i32, y: (t.y + ly) as i32 } == p);
                    } else {
                        let j = choose|j: int|
                            0 <= j < i + 1 && (#[trigger] list@[j]).0 == tile_of(p);
                        assert(list@[j].0 == tile_of(p));
                        assert(j < i);
                        assert(pixel_at(m1, p) == pixel_at(buffer@, p));
                    }
                }
            }
        } else {
            proof {
                assert forall|p: IVec2| tile_of(p) != c by {
                    if tile_of(p) == c {
                        assert(c.x == p.x as int / 256 && c.y == p.y as int / 256);
                    }
                }
                assert forall|p: IVec2|
                    (exists|j: int| 0 <= j < i + 1 && (#[trigger] list@[j]).0 == tile_of(
                        p,
                    )) implies #[trigger] pixel_at(buffer@, p) == baked_px(
                    kern,
                    pixel_at(m0, p),
                    unit(mask.at(p).r),
                ) by {
                    let j = choose|j: int| 0 <= j < i + 1 && (#[trigger] list@[j]).0 == tile_of(p);
                    assert(list@[j].0 == tile_of(p));
                    assert(j < i);
                }
            }
        }
        proof {
            assert forall|k: (i32, i32)|
                (forall|j: int| 0 <= j < i + 1 ==> key(
                    (#[trigger] list@[j]).0,
                ) != k) implies #[trigger] same_tile(m0, buffer@, k) by {
                assert(key(list@[i as int].0) != k);
                assert(same_tile(m0, m1, k));
            }
        }
        i = i + 1;
    }
    let ghost m2 = buffer@;
    proof {
        buffer.lemma_full();
    }
    buffer.prune_empty_tiles();
    proof {
        assert forall|p: IVec2|
            alike(
                #[trigger] buffer.at(p),
                baked_px(kern, pixel_at(m0, p), unit(mask.at(p).r)),
            ) by {
            pruning_keeps_pixels(m2, p);
            let k = key(tile_of(p));
            if m0.dom().contains(k) {
                let j = choose|j: int| 0 <= j < list@.len() && key((#[trigger] list@[j]).0) == k;
                assert(list@[j].0 == tile_of(p));
                assert(pixel_at(m2, p) == baked_px(kern, pixel_at(m0, p), unit(mask.at(p).r)));
            } else {
                assert forall|j: int| 0 <= j < i implies key((#[trigger] list@[j]).0) != k by {
                    assert(m0.dom().contains(key(list@[j].0)));
                }
                assert(same_tile(m0, m2, k));
            }
        }
    }
}

} // verus!
