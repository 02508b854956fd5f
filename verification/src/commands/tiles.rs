//! Writing pixels to a layer so that it can be undone.
use vstd::prelude::*;

use std::sync::Arc;

use ahash::{AHashSet, RandomState};

use crate::buffer::{key, with_pixel, TiledBuffer};
use crate::buffer_region::same_tile;
use crate::coord::{pixel_to_tile, tile_of, IVec2, TileCoord};
use crate::coord_set::{coord_members, coord_set_insert, coord_set_iter, coord_set_new};
use crate::document::{DocView, Document};
use crate::error::OgreError;
use crate::layer::{ContentView, LayerId, LayerView};
use crate::picture::{one_layer_apart, one_layer_keeps_tidy, tidy, owned};
use crate::pixel::Rgba32F;
use crate::tile::Tile;

verus! {

/// A layer with other pixels.
pub open spec fn with_buffer(l: LayerView, m: Map<(i32, i32), Seq<Rgba32F>>) -> LayerView {
    LayerView {
        content: ContentView::Raster { buffer: m, mask: l.content->Raster_mask },
        ..l
    }
}

/// The pixels of a raster layer.
pub open spec fn buffer_of(l: LayerView) -> Map<(i32, i32), Seq<Rgba32F>> {
    l.content->Raster_buffer
}

/// Why a layer's pixels cannot be edited.
pub open spec fn edit_error(v: DocView, id: LayerId) -> Option<OgreError> {
    if !v.has(id) {
        Some(OgreError::LayerNotFound(id))
    } else if !v.is_raster(id) {
        Some(OgreError::NotRaster)
    } else if v.layers[id].locked {
        Some(OgreError::LayerLocked(id))
    } else {
        None
    }
}

/// Why the active layer's pixels cannot be edited.
pub open spec fn active_edit_error(v: DocView) -> Option<OgreError> {
    match v.active {
        None => Some(OgreError::NoActiveLayer),
        Some(id) => edit_error(v, id),
    }
}

/// Check that a layer's pixels can be edited.
pub(crate) fn check_editable(doc: &Document, id: LayerId) -> (r: Result<(), OgreError>)
    requires
        doc.wf(),
    ensures
        match edit_error(doc@, id) {
            Some(e) => r == Err::<(), OgreError>(e),
            None => r is Ok,
        },
{
    match doc.layer(id) {
        Ok(layer) => {
            if !layer.is_raster() {
                return Err(OgreError::NotRaster);
            }
            if layer.locked {
                return Err(OgreError::LayerLocked(id));
            }
            Ok(())
        },
        Err(e) => Err(e),
    }
}

/// The active layer, if its pixels can be edited.
pub(crate) fn active_editable(doc: &Document) -> (r: Result<LayerId, OgreError>)
    requires
        doc.wf(),
    ensures
        match active_edit_error(doc@) {
            Some(e) => r == Err::<LayerId, OgreError>(e),
            None => r == Ok::<LayerId, OgreError>(doc@.active->0),
        },
{
    match doc.active_layer() {
        None => Err(OgreError::NoActiveLayer),
        Some(id) => match check_editable(doc, id) {
            Ok(_) => Ok(id),
            Err(e) => Err(e),
        },
    }
}

/// Every tile of a snapshot is well formed.
pub open spec fn snapshot_wf(s: Seq<(TileCoord, Option<Arc<Tile>>)>) -> bool {
    forall|i: int| 0 <= i < s.len() ==> ((#[trigger] s[i]).1 matches Some(t) ==> t.wf())
}

/// The tiles of `m` with one of them as a snapshot entry has it.
pub open spec fn with_tile(
    m: Map<(i32, i32), Seq<Rgba32F>>,
    e: (TileCoord, Option<Arc<Tile>>),
) -> Map<(i32, i32), Seq<Rgba32F>> {
    match e.1 {
        Some(t) => m.insert(key(e.0), t@),
        None => m.remove(key(e.0)),
    }
}

/// The tiles of `m` once the tiles of a snapshot were put back, in order.
pub open spec fn put_back(
    m: Map<(i32, i32), Seq<Rgba32F>>,
    s: Seq<(TileCoord, Option<Arc<Tile>>)>,
) -> Map<(i32, i32), Seq<Rgba32F>>
    decreases s.len(),
{
    if s.len() == 0 { m } else { with_tile(put_back(m, s.drop_last()), s.last()) }
}

/// The snapshot holds tiles as they are in `m`.
pub open spec fn taken(
    m: Map<(i32, i32), Seq<Rgba32F>>,
    s: Seq<(TileCoord, Option<Arc<Tile>>)>,
) -> bool {
    forall|i: int|
        0 <= i < s.len() ==> match (#[trigger] s[i]).1 {
            Some(t) => m.dom().contains(key(s[i].0)) && m[key(s[i].0)] == t@,
            None => !m.dom().contains(key(s[i].0)),
        }
}

/// Tile `k` is in the snapshot.
pub open spec fn snapped(s: Seq<(TileCoord, Option<Arc<Tile>>)>, k: (i32, i32)) -> bool {
    exists|i: int| 0 <= i < s.len() && key((#[trigger] s[i]).0) == k
}

proof fn lemma_put_back(
    m: Map<(i32, i32), Seq<Rgba32F>>,
    n: Map<(i32, i32), Seq<Rgba32F>>,
    s: Seq<(TileCoord, Option<Arc<Tile>>)>,
    k: (i32, i32),
)
    requires
        taken(m, s),
    ensures
        snapped(s, k) ==> same_tile(m, put_back(n, s), k),
        !snapped(s, k) ==> same_tile(n, put_back(n, s), k),
    decreases s.len(),
{
    if s.len() > 0 {
        let less = s.drop_last();
        assert(taken(m, less)) by {
            assert forall|i: int| 0 <= i < less.len() implies match (#[trigger] less[i]).1 {
                Some(t) => m.dom().contains(key(less[i].0)) && m[key(less[i].0)] == t@,
                None => !m.dom().contains(key(less[i].0)),
            } by {
                assert(s[i] == less[i]);
            }
        }
        lemma_put_back(m, n, less, k);
        assert(snapped(s, k) <==> snapped(less, k) || key(s.last().0) == k) by {
            if snapped(s, k) {
                let i = choose|i: int| 0 <= i < s.len() && key((#[trigger] s[i]).0) == k;
                if i < less.len() {
                    assert(key(less[i].0) == k);
                }
            }
            if snapped(less, k) {
                let i = choose|i: int| 0 <= i < less.len() && key((#[trigger] less[i]).0) == k;
                assert(key(s[i].0) == k);
            }
            assert(key(s[s.len() - 1].0) == key(s.last().0));
        }
    }
}

/// Putting back the tiles of a snapshot undoes every change to them.
pub proof fn putting_back_restores(
    m: Map<(i32, i32), Seq<Rgba32F>>,
    n: Map<(i32, i32), Seq<Rgba32F>>,
    s: Seq<(TileCoord, Option<Arc<Tile>>)>,
)
    requires
        taken(m, s),
        forall|k: (i32, i32)| !snapped(s, k) ==> #[trigger] same_tile(m, n, k),
    ensures
        put_back(n, s) == m,
{
    let b = put_back(n, s);
    assert forall|k: (i32, i32)| #[trigger] same_tile(m, b, k) by {
        lemma_put_back(m, n, s, k);
        if !snapped(s, k) {
            assert(same_tile(m, n, k));
        }
    }
    assert(b =~= m) by {
        assert forall|k: (i32, i32)| b.dom().contains(k) <==> m.dom().contains(k) by {
            assert(same_tile(m, b, k));
        }
        assert forall|k: (i32, i32)| b.dom().contains(k) implies b[k] == m[k] by {
            assert(same_tile(m, b, k));
        }
    }
}

/// Capture an [`Arc`] snapshot of every tile coordinate in `coords`.
pub(crate) fn snapshot_tiles(
    buffer: &TiledBuffer,
    coords: &Vec<TileCoord>,
) -> (s: Vec<(TileCoord, Option<Arc<Tile>>)>)
    requires
        buffer.wf(),
    ensures
        snapshot_wf(s@),
        taken(buffer@, s@),
        forall|k: (i32, i32)| #[trigger]
            snapped(s@, k) <==> exists|c: TileCoord| #[trigger] coords@.contains(c) && key(c) == k,
{
    let mut s: Vec<(TileCoord, Option<Arc<Tile>>)> = Vec::new();
    let mut i: usize = 0;
    while i < coords.len()
        invariant
            buffer.wf(),
            i <= coords@.len(),
            s@.len() == i,
            snapshot_wf(s@),
            taken(buffer@, s@),
            forall|j: int| 0 <= j < i ==> (#[trigger] s@[j]).0 == coords@[j],
        decreases coords@.len() - i,
    {
        s.push((coords[i], buffer.get_tile(coords[i])));
        i = i + 1;
    }
    proof {
        assert forall|k: (i32, i32)| #[trigger] snapped(s@, k) <==> exists|c: TileCoord| #[trigger]
            coords@.contains(c) && key(c) == k by {
            if snapped(s@, k) {
                let j = choose|j: int| 0 <= j < s@.len() && key((#[trigger] s@[j]).0) == k;
                assert(coords@.contains(coords@[j]));
            }
            if exists|c: TileCoord| #[trigger] coords@.contains(c) && key(c) == k {
                let c = choose|c: TileCoord| #[trigger] coords@.contains(c) && key(c) == k;
                let j = choose|j: int| 0 <= j < coords@.len() && coords@[j] == c;
                assert(key(s@[j].0) == k);
            }
        }
    }
    s
}

/// Restore a buffer from a tile snapshot.
pub(crate) fn restore_tiles(buffer: &mut TiledBuffer, s: &Vec<(TileCoord, Option<Arc<Tile>>)>)
    requires
        old(buffer).wf(),
        snapshot_wf(s@),
    ensures
        final(buffer).wf(),
        final(buffer)@ == put_back(old(buffer)@, s@),
{
    let mut i: usize = 0;
    assert(s@.take(0) =~= Seq::empty());
    while i < s.len()
        invariant
            i <= s@.len(),
            snapshot_wf(s@),
            buffer.wf(),
            buffer@ == put_back(old(buffer)@, s@.take(i as int)),
        decreases s@.len() - i,
    {
        proof {
            assert(s@.take(i + 1).drop_last() =~= s@.take(i as int));
            assert(s@.take(i + 1).last() == s@[i as int]);
        }
        let tile: Option<Arc<Tile>> = match &s[i].1 {
            Some(t) => Some(crate::buffer::share(t)),
            None => None,
        };
        buffer.restore_tile(s[i].0, tile);
        i = i + 1;
    }
    assert(s@.take(i as int) =~= s@);
}

/// The tiles of `m` once pixels were written, in order.
pub open spec fn written(
    m: Map<(i32, i32), Seq<Rgba32F>>,
    w: Seq<(IVec2, Rgba32F)>,
) -> Map<(i32, i32), Seq<Rgba32F>>
    decreases w.len(),
{
    if w.len() == 0 { m } else { with_pixel(written(m, w.drop_last()), w.last().0, w.last().1) }
}

proof fn lemma_written_elsewhere(
    m: Map<(i32, i32), Seq<Rgba32F>>,
    w: Seq<(IVec2, Rgba32F)>,
    k: (i32, i32),
)
    requires
        forall|i: int| 0 <= i < w.len() ==> key(tile_of((#[trigger] w[i]).0)) != k,
    ensures
        same_tile(m, written(m, w), k),
    decreases w.len(),
{
    if w.len() > 0 {
        let less = w.drop_last();
        assert forall|i: int| 0 <= i < less.len() implies key(tile_of((#[trigger] less[i]).0))
            != k by {
            assert(w[i] == less[i]);
        }
        lemma_written_elsewhere(m, less, k);
        assert(key(tile_of(w[w.len() - 1].0)) != k);
    }
}

/// Write pixels to a buffer.
pub(crate) fn write_all(buffer: &mut TiledBuffer, w: &Vec<(IVec2, Rgba32F)>)
    requires
        old(buffer).wf(),
    ensures
        final(buffer).wf(),
        final(buffer)@ == written(old(buffer)@, w@),
{
    let mut i: usize = 0;
    assert(w@.take(0) =~= Seq::empty());
    while i < w.len()
        invariant
            i <= w@.len(),
            buffer.wf(),
            buffer@ == written(old(buffer)@, w@.take(i as int)),
        decreases w@.len() - i,
    {
        proof {
            assert(w@.take(i + 1).drop_last() =~= w@.take(i as int));
            assert(w@.take(i + 1).last() == w@[i as int]);
        }
        buffer.set_pixel(w[i].0, w[i].1);
        i = i + 1;
    }
    assert(w@.take(i as int) =~= w@);
}

/// The tiles that writes touch.
fn touched_tiles(w: &Vec<(IVec2, Rgba32F)>) -> (tiles: Vec<TileCoord>)
    ensures
        forall|i: int|
            0 <= i < w@.len() ==> tiles@.contains(tile_of((#[trigger] w@[i]).0)),
{
    let mut set: AHashSet<(i32, i32), RandomState> = coord_set_new();
    let mut i: usize = 0;
    while i < w.len()
        invariant
            i <= w@.len(),
            forall|j: int|
                0 <= j < i ==> coord_members(set).contains(key(tile_of((#[trigger] w@[j]).0))),
        decreases w@.len() - i,
    {
        let c: TileCoord = pixel_to_tile(w[i].0).0;
        let fresh: bool = coord_set_insert(&mut set, (c.x, c.y));
        i = i + 1;
    }
    let list: Vec<(i32, i32)> = coord_set_iter(&set);
    let mut tiles: Vec<TileCoord> = Vec::new();
    let mut n: usize = 0;
    while n < list.len()
        invariant
            n <= list@.len(),
            tiles@.len() == n,
            forall|j: int| 0 <= j < n ==> key(#[trigger] tiles@[j]) == list@[j],
        decreases list@.len() - n,
    {
        tiles.push(TileCoord { x: list[n].0, y: list[n].1 });
        n = n + 1;
    }
    proof {
        assert forall|j: int| 0 <= j < w@.len() implies tiles@.contains(
            tile_of((#[trigger] w@[j]).0),
        ) by {
            let k = key(tile_of(w@[j].0));
            assert(list@.contains(k));
            let q = choose|q: int| 0 <= q < list@.len() && list@[q] == k;
            assert(tiles@[q] == tile_of(w@[j].0));
        }
    }
    tiles
}

/// A document after pixels were written to a raster layer, which is then the
/// active one.
pub open spec fn painted(v: DocView, id: LayerId, w: Seq<(IVec2, Rgba32F)>) -> DocView {
    DocView {
        active: Some(id),
        ..v.with_layer(id, with_buffer(v.layers[id], written(buffer_of(v.layers[id]), w)))
    }
}

/// Write pixels to a raster layer and make it the active one; the result is a
/// snapshot of the tiles that the writes touch.
pub(crate) fn paint_layer(
    doc: &mut Document,
    id: LayerId,
    w: &Vec<(IVec2, Rgba32F)>,
) -> (s: Vec<(TileCoord, Option<Arc<Tile>>)>)
    requires
        old(doc).wf(),
        old(doc)@.is_raster(id),
    ensures
        final(doc).wf(),
        final(doc).used() <= old(doc).used(),
        final(doc)@ == painted(old(doc)@, id, w@),
        snapshot_wf(s@),
        put_back(buffer_of(final(doc)@.layers[id]), s@) == buffer_of(old(doc)@.layers[id]),
        tidy(old(doc)@) ==> tidy(final(doc)@),
        owned(old(doc)@) ==> owned(final(doc)@),
{
    let tiles: Vec<TileCoord> = touched_tiles(w);
    let mut s: Vec<(TileCoord, Option<Arc<Tile>>)> = Vec::new();
    if let Ok(layer) = doc.layer_mut(id) {
        if let Some(buffer) = layer.buffer_mut() {
            s = snapshot_tiles(buffer, &tiles);
            let ghost m = buffer@;
            write_all(buffer, w);
            proof {
                assert forall|k: (i32, i32)| !snapped(s@, k) implies #[trigger] same_tile(
                    m,
                    written(m, w@),
                    k,
                ) by {
                    assert forall|i: int| 0 <= i < w@.len() implies key(
                        tile_of((#[trigger] w@[i]).0),
                    ) != k by {
                        assert(tiles@.contains(tile_of(w@[i].0)));
                    }
                    lemma_written_elsewhere(m, w@, k);
                }
                putting_back_restores(m, written(m, w@), s@);
            }
        }
    }
    doc.set_active(Some(id));
    proof {
        one_layer_keeps_tidy(old(doc)@, doc@, id);
    }
    s
}

/// What undoing a change of pixels makes of a document.
pub open spec fn unpainted(
    v: DocView,
    id: LayerId,
    s: Seq<(TileCoord, Option<Arc<Tile>>)>,
) -> DocView {
    if v.is_raster(id) {
        v.with_layer(id, with_buffer(v.layers[id], put_back(buffer_of(v.layers[id]), s)))
    } else {
        v
    }
}

/// Put the tiles of a snapshot back into a layer.
pub(crate) fn unpaint_layer(
    doc: &mut Document,
    id: LayerId,
    s: &Vec<(TileCoord, Option<Arc<Tile>>)>,
)
    requires
        old(doc).wf(),
        snapshot_wf(s@),
    ensures
        final(doc).wf(),
        final(doc).used() <= old(doc).used(),
        final(doc)@ == unpainted(old(doc)@, id, s@),
        owned(old(doc)@) ==> owned(final(doc)@),
{
    proof {
        crate::document::lemma_same_layer(doc@, id);
    }
    if let Ok(layer) = doc.layer_mut(id) {
        if let Some(buffer) = layer.buffer_mut() {
            restore_tiles(buffer, s);
        }
    }
}

/// The layer differs in its pixels, and the snapshot can put them back.
pub open spec fn repaintable(
    id: LayerId,
    s: Seq<(TileCoord, Option<Arc<Tile>>)>,
    prior: Option<LayerId>,
    then: DocView,
    after: DocView,
) -> bool {
    &&& one_layer_apart(then, after, id)
    &&& prior == then.active
    &&& after.is_raster(id)
    &&& then.layers[id] == with_buffer(
        after.layers[id],
        put_back(buffer_of(after.layers[id]), s),
    )
}

} // verus!
