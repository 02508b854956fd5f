//! Sparse tiled copy-on-write pixel buffer.
//!
//! A [`TiledBuffer`] stores pixels in a hash map of 256×256 tiles. Tiles are
//! shared through [`Arc`] and cloned on write, so layer duplication, undo
//! snapshots, and extracts are cheap and pixel-exact.
use vstd::prelude::*;

use std::sync::Arc;

use ahash::{AHashMap, RandomState};

use crate::coord::{local_index, pixel_to_tile, tile_of, IVec2, TileCoord};
use crate::pixel::{clear_px, Rgba32F};
use crate::tile::{blank_pixels, ink, lemma_ink_zero, pixels_same, slot, Tile, TILE_PIXELS};

verus! {

/// `ahash::RandomState`, the hasher of [`AHashMap`].
#[verifier::external_type_specification]
#[verifier::external_body]
pub struct ExRandomState(RandomState);

/// `ahash::AHashMap`, a hash map.
#[verifier::external_type_specification]
#[verifier::external_body]
#[verifier::reject_recursive_types(K)]
#[verifier::reject_recursive_types(V)]
#[verifier::reject_recursive_types(S)]
pub struct ExAHashMap<K, V, S>(AHashMap<K, V, S>);

/// The tiles that a tile map holds, by tile column and row.
pub uninterp spec fn tile_entries(m: AHashMap<(i32, i32), Arc<Tile>, RandomState>) -> Map<
    (i32, i32),
    Tile,
>;

/// A map without tiles.
pub open spec fn no_tiles() -> Map<(i32, i32), Tile> {
    Map::empty()
}

/// `AHashMap::new`: an empty map.
#[verifier::external_body]
fn map_new() -> (r: AHashMap<(i32, i32), Arc<Tile>, RandomState>)
    ensures
        tile_entries(r) == no_tiles(),
{
    AHashMap::new()
}

/// `HashMap::len`: the number of entries.
#[verifier::external_body]
fn map_len(m: &AHashMap<(i32, i32), Arc<Tile>, RandomState>) -> (n: usize)
    ensures
        n == tile_entries(*m).dom().len(),
{
    m.len()
}

/// `HashMap::get`: the entry under a key, if there is one.
#[verifier::external_body]
fn map_get(m: &AHashMap<(i32, i32), Arc<Tile>, RandomState>, k: (i32, i32)) -> (r: Option<
    &Arc<Tile>,
>)
    ensures
        r is Some <==> tile_entries(*m).dom().contains(k),
        r matches Some(t) ==> **t == tile_entries(*m)[k],
{
    m.get(&k)
}

/// `HashMap::get_mut`: the entry under a key for writing, if there is one. The
/// other entries stay.
#[verifier::external_body]
fn map_get_mut(m: &mut AHashMap<(i32, i32), Arc<Tile>, RandomState>, k: (i32, i32)) -> (r: Option<
    &mut Arc<Tile>,
>)
    ensures
        r is Some <==> tile_entries(*old(m)).dom().contains(k),
        r matches Some(t) ==> **t == tile_entries(*old(m))[k] && tile_entries(*final(m))
            == tile_entries(*old(m)).insert(k, **final(t)),
        r is None ==> tile_entries(*final(m)) == tile_entries(*old(m)),
{
    m.get_mut(&k)
}

/// `HashMap::insert`: the key now leads to the tile; the other entries stay.
#[verifier::external_body]
fn map_insert(m: &mut AHashMap<(i32, i32), Arc<Tile>, RandomState>, k: (i32, i32), t: Arc<Tile>)
    ensures
        tile_entries(*final(m)) == tile_entries(*old(m)).insert(k, *t),
{
    m.insert(k, t);
}

/// `HashMap::remove`: the key leads nowhere; the other entries stay.
#[verifier::external_body]
fn map_remove(m: &mut AHashMap<(i32, i32), Arc<Tile>, RandomState>, k: (i32, i32))
    ensures
        tile_entries(*final(m)) == tile_entries(*old(m)).remove(k),
{
    m.remove(&k);
}

/// `HashMap::iter`: every entry once, in no particular order.
#[verifier::external_body]
fn map_iter(m: &AHashMap<(i32, i32), Arc<Tile>, RandomState>) -> (v: Vec<((i32, i32), Arc<Tile>)>)
    ensures
        forall|i: int|
            0 <= i < v@.len() ==> tile_entries(*m).dom().contains((#[trigger] v@[i]).0)
                && tile_entries(*m)[v@[i].0] == *v@[i].1,
        forall|k: (i32, i32)| #[trigger]
            tile_entries(*m).dom().contains(k) ==> exists|i: int|
                0 <= i < v@.len() && (#[trigger] v@[i]).0 == k,
        forall|i: int, j: int|
            0 <= i < v@.len() && 0 <= j < v@.len() && i != j ==> (#[trigger] v@[i]).0 != (
            #[trigger] v@[j]).0,
{
    m.iter().map(|(k, t)| (*k, Arc::clone(t))).collect()
}

/// `HashMap::retain` with [`Tile::is_empty`]: exactly the tiles with a pixel
/// that is not transparent stay.
#[verifier::external_body]
fn map_retain_inked(m: &mut AHashMap<(i32, i32), Arc<Tile>, RandomState>)
    requires
        forall|k: (i32, i32)| #[trigger]
            tile_entries(*old(m)).dom().contains(k) ==> tile_entries(*old(m))[k].wf(),
    ensures
        tile_entries(*final(m)) == tile_entries(*old(m)).restrict(
            Set::new(|k: (i32, i32)| ink(tile_entries(*old(m))[k]@) != 0),
        ),
{
    m.retain(|_, t| !t.is_empty());
}

/// `AHashMap::clone`: a second map with the same, shared, tiles.
#[verifier::external_body]
fn map_clone(m: &AHashMap<(i32, i32), Arc<Tile>, RandomState>) -> (r: AHashMap<
    (i32, i32),
    Arc<Tile>,
    RandomState,
>)
    ensures
        tile_entries(r) == tile_entries(*m),
{
    m.clone()
}

/// `Arc::clone`: a second handle to the same tile.
#[verifier::external_body]
pub(crate) fn share(t: &Arc<Tile>) -> (r: Arc<Tile>)
    ensures
        *r == **t,
{
    Arc::clone(t)
}

/// `Arc::make_mut`: the tile for writing, copied first if another handle shares
/// it, so that no other handle sees the writes.
#[verifier::external_body]
fn make_unique(t: &mut Arc<Tile>) -> (r: &mut Tile)
    ensures
        r@ == old(t)@,
        r.wf() == old(t).wf(),
        **final(t) == *final(r),
{
    Arc::make_mut(t)
}

/// Two buffers have tiles at the same places, with equal pixels.
pub open spec fn tiles_same(
    a: Map<(i32, i32), Seq<Rgba32F>>,
    b: Map<(i32, i32), Seq<Rgba32F>>,
) -> bool {
    a.dom() == b.dom() && forall|k: (i32, i32)| #[trigger]
        a.dom().contains(k) ==> pixels_same(a[k], b[k])
}

/// The key under which the tile at `c` stands.
pub open spec fn key(c: TileCoord) -> (i32, i32) {
    (c.x, c.y)
}

/// The place of pixel `p` in the row-major pixels of its tile.
pub open spec fn slot_of(p: IVec2) -> int {
    slot(local_index(p.x as int), local_index(p.y as int))
}

/// The pixel at `p` of a map of tiles; transparent where there is no tile.
pub open spec fn pixel_at(m: Map<(i32, i32), Seq<Rgba32F>>, p: IVec2) -> Rgba32F {
    if m.dom().contains(key(tile_of(p))) {
        m[key(tile_of(p))][slot_of(p)]
    } else {
        clear_px()
    }
}

/// Two pixels are the same, or both compare equal to the transparent pixel.
pub open spec fn alike(a: Rgba32F, b: Rgba32F) -> bool {
    a == b || (a.is_clear() && b.is_clear())
}

/// A map of tiles after pixel `p` was set to `px`.
///
/// No tile is made to hold a transparent pixel, and a tile that a transparent
/// pixel leaves without ink is dropped.
pub open spec fn with_pixel(
    m: Map<(i32, i32), Seq<Rgba32F>>,
    p: IVec2,
    px: Rgba32F,
) -> Map<(i32, i32), Seq<Rgba32F>> {
    let k = key(tile_of(p));
    if px.is_clear() && !m.dom().contains(k) {
        m
    } else {
        let base = if m.dom().contains(k) { m[k] } else { blank_pixels() };
        let t = base.update(slot_of(p), px);
        if px.is_clear() && ink(t) == 0 {
            m.remove(k)
        } else {
            m.insert(k, t)
        }
    }
}

/// A map of tiles without the tiles that hold no ink.
pub open spec fn pruned(m: Map<(i32, i32), Seq<Rgba32F>>) -> Map<(i32, i32), Seq<Rgba32F>> {
    m.restrict(Set::new(|k: (i32, i32)| ink(m[k]) != 0))
}

/// Every tile has 256×256 pixels.
pub open spec fn full_tiles(m: Map<(i32, i32), Seq<Rgba32F>>) -> bool {
    forall|k: (i32, i32)| #[trigger] m.dom().contains(k) ==> m[k].len() == TILE_PIXELS
}

/// No tile is without ink.
pub open spec fn sparse(m: Map<(i32, i32), Seq<Rgba32F>>) -> bool {
    forall|k: (i32, i32)| #[trigger] m.dom().contains(k) ==> ink(m[k]) != 0
}

/// A sparse, copy-on-write pixel buffer made of 256×256 tiles.
///
/// Every tile is resident in RAM, shared through [`Arc`] and cloned on write, so
/// layer duplication, undo snapshots, and extracts are cheap and pixel-exact.
pub struct TiledBuffer {
    tiles: AHashMap<(i32, i32), Arc<Tile>, RandomState>,
}

impl View for TiledBuffer {
    type V = Map<(i32, i32), Seq<Rgba32F>>;

    closed spec fn view(&self) -> Map<(i32, i32), Seq<Rgba32F>> {
        tile_entries(self.tiles).map_values(|t: Tile| t@)
    }
}

impl TiledBuffer {
    /// Every tile is well formed.
    pub closed spec fn wf(&self) -> bool {
        forall|k: (i32, i32)| #[trigger]
            tile_entries(self.tiles).dom().contains(k) ==> tile_entries(self.tiles)[k].wf()
    }

    /// The pixel at `p`.
    pub open spec fn at(&self, p: IVec2) -> Rgba32F {
        pixel_at(self@, p)
    }

    /// A well-formed buffer has only tiles of 256×256 pixels.
    pub proof fn lemma_full(&self)
        requires
            self.wf(),
        ensures
            full_tiles(self@),
    {
        assert forall|k: (i32, i32)| #[trigger] self@.dom().contains(k) implies self@[k].len()
            == TILE_PIXELS by {
            assert(tile_entries(self.tiles).dom().contains(k));
            tile_entries(self.tiles)[k].lemma_len();
        }
    }

    /// Create an empty buffer.
    pub fn new() -> (b: Self)
        ensures
            b.wf(),
            b@ == Map::<(i32, i32), Seq<Rgba32F>>::empty(),
    {
        let b = Self { tiles: map_new() };
        assert(b@ =~= Map::<(i32, i32), Seq<Rgba32F>>::empty());
        b
    }

    /// Number of tiles currently held in RAM.
    pub fn resident_tile_count(&self) -> (n: usize)
        ensures
            n == self@.dom().len(),
    {
        assert(self@.dom() =~= tile_entries(self.tiles).dom());
        map_len(&self.tiles)
    }

    /// Access a shared tile by coordinate, if it exists.
    ///
    /// Returns an owned `Arc` (a cheap refcount clone).
    pub fn get_tile(&self, c: TileCoord) -> (r: Option<Arc<Tile>>)
        requires
            self.wf(),
        ensures
            r is Some <==> self@.dom().contains(key(c)),
            r matches Some(t) ==> t.wf() && t@ == self@[key(c)],
    {
        match map_get(&self.tiles, (c.x, c.y)) {
            Some(t) => Some(share(t)),
            None => None,
        }
    }

    /// Read a pixel in document coordinates.
    ///
    /// Returns the transparent pixel if no tile exists at the coordinate.
    pub fn get_pixel(&self, p: IVec2) -> (px: Rgba32F)
        requires
            self.wf(),
        ensures
            px == self.at(p),
    {
        let (c, lx, ly) = pixel_to_tile(p);
        match map_get(&self.tiles, (c.x, c.y)) {
            Some(t) => t.get(lx, ly),
            None => Rgba32F::transparent(),
        }
    }

    /// Obtain a mutable reference to a tile, cloning it first if it is shared.
    ///
    /// Creates a transparent tile if the coordinate has no tile yet.
    pub fn tile_mut(&mut self, c: TileCoord) -> (r: &mut Tile)
        requires
            old(self).wf(),
        ensures
            r.wf(),
            r@ == (if old(self)@.dom().contains(key(c)) {
                old(self)@[key(c)]
            } else {
                blank_pixels()
            }),
            final(self)@ == old(self)@.insert(key(c), final(r)@),
            final(r).wf() ==> final(self).wf(),
    {
        let k: (i32, i32) = (c.x, c.y);
        if map_get(&self.tiles, k).is_none() {
            map_insert(&mut self.tiles, k, Arc::new(Tile::transparent()));
        }
        match map_get_mut(&mut self.tiles, k) {
            Some(arc) => make_unique(arc),
            None => {
                assert(false);
                vstd::pervasive::unreached()
            },
        }
    }
}

impl TiledBuffer {
    /// Create a buffer from an existing tile map.
    pub fn from_tiles(tiles: AHashMap<(i32, i32), Arc<Tile>, RandomState>) -> (b: Self)
        requires
            forall|k: (i32, i32)| #[trigger]
                tile_entries(tiles).dom().contains(k) ==> tile_entries(tiles)[k].wf(),
        ensures
            b.wf(),
            b@ == tile_entries(tiles).map_values(|t: Tile| t@),
    {
        Self { tiles }
    }

    /// True if two buffers hold the same tiles with equal pixels.
    pub fn eq(&self, other: &Self) -> (r: bool)
        ensures
            r == tiles_same(self@, other@),
    {
        let mine: Vec<((i32, i32), Arc<Tile>)> = map_iter(&self.tiles);
        let mut i: usize = 0;
        while i < mine.len()
            invariant
                i <= mine@.len(),
                forall|j: int|
                    0 <= j < mine@.len() ==> tile_entries(self.tiles).dom().contains(
                        (#[trigger] mine@[j]).0,
                    ) && tile_entries(self.tiles)[mine@[j].0] == *mine@[j].1,
                forall|j: int|
                    0 <= j < i ==> other@.dom().contains((#[trigger] mine@[j]).0) && pixels_same(
                        self@[mine@[j].0],
                        other@[mine@[j].0],
                    ),
            decreases mine@.len() - i,
        {
            let k: (i32, i32) = mine[i].0;
            let equal: bool = match map_get(&other.tiles, k) {
                Some(t) => mine[i].1.eq(t),
                None => false,
            };
            if !equal {
                assert(self@.dom().contains(k));
                return false;
            }
            i = i + 1;
        }
        let theirs: Vec<((i32, i32), Arc<Tile>)> = map_iter(&other.tiles);
        let mut i: usize = 0;
        while i < theirs.len()
            invariant
                i <= theirs@.len(),
                forall|j: int|
                    0 <= j < theirs@.len() ==> tile_entries(other.tiles).dom().contains(
                        (#[trigger] theirs@[j]).0,
                    ),
                forall|j: int| 0 <= j < i ==> self@.dom().contains((#[trigger] theirs@[j]).0),
            decreases theirs@.len() - i,
        {
            let k: (i32, i32) = theirs[i].0;
            if map_get(&self.tiles, k).is_none() {
                assert(other@.dom().contains(k) && !self@.dom().contains(k));
                return false;
            }
            i = i + 1;
        }
        proof {
            assert forall|k: (i32, i32)| #[trigger] self@.dom().contains(k) implies
                other@.dom().contains(k) && pixels_same(self@[k], other@[k]) by {
                assert(tile_entries(self.tiles).dom().contains(k));
                let j = choose|j: int| 0 <= j < mine@.len() && (#[trigger] mine@[j]).0 == k;
                assert(mine@[j].0 == k);
            }
            assert forall|k: (i32, i32)| #[trigger] other@.dom().contains(k) implies
                self@.dom().contains(k) by {
                assert(tile_entries(other.tiles).dom().contains(k));
                let j = choose|j: int| 0 <= j < theirs@.len() && (#[trigger] theirs@[j]).0 == k;
                assert(theirs@[j].0 == k);
            }
            assert(self@.dom() =~= other@.dom());
        }
        true
    }

    /// Write a pixel in document coordinates.
    pub fn set_pixel(&mut self, p: IVec2, px: Rgba32F)
        requires
            old(self).wf(),
        ensures
            final(self).wf(),
            final(self)@ == with_pixel(old(self)@, p, px),
    {
        let (c, lx, ly) = pixel_to_tile(p);
        let clear: bool = px.is_transparent();
        // Don't materialise a tile just to store a transparent pixel.
        if clear && map_get(&self.tiles, (c.x, c.y)).is_none() {
            return;
        }
        let ghost before = self@;
        let tile = self.tile_mut(c);
        tile.set(lx, ly, px);
        // Keep the buffer sparse: drop tiles that became fully transparent. A
        // non-transparent write can never empty a tile.
        let emptied: bool = clear && tile.is_empty();
        if emptied {
            let ghost mid = self@;
            map_remove(&mut self.tiles, (c.x, c.y));
            assert(self@ =~= mid.remove(key(c)));
            assert(self@ =~= before.remove(key(c)));
        }
    }

    /// Collect all occupied tiles and their shared storage, in no particular
    /// order.
    pub fn occupied_tiles(&self) -> (v: Vec<(TileCoord, Arc<Tile>)>)
        requires
            self.wf(),
        ensures
            tiles_listed(v@, self@),
    {
        let entries: Vec<((i32, i32), Arc<Tile>)> = map_iter(&self.tiles);
        let mut v: Vec<(TileCoord, Arc<Tile>)> = Vec::new();
        let mut i: usize = 0;
        while i < entries.len()
            invariant
                i <= entries@.len(),
                v@.len() == i,
                forall|j: int|
                    0 <= j < i ==> key((#[trigger] v@[j]).0) == entries@[j].0 && *v@[j].1
                        == *entries@[j].1,
            decreases entries@.len() - i,
        {
            let k: (i32, i32) = entries[i].0;
            v.push((TileCoord { x: k.0, y: k.1 }, share(&entries[i].1)));
            i = i + 1;
        }
        proof {
            assert forall|j: int| 0 <= j < v@.len() implies self@.dom().contains(
                key((#[trigger] v@[j]).0),
            ) && v@[j].1@ == self@[key(v@[j].0)] && v@[j].1.wf() by {
                assert(tile_entries(self.tiles).dom().contains(entries@[j].0));
            }
            assert forall|k: (i32, i32)| #[trigger] self@.dom().contains(k) implies exists|j: int|
                0 <= j < v@.len() && key((#[trigger] v@[j]).0) == k by {
                assert(tile_entries(self.tiles).dom().contains(k));
                let j = choose|j: int| 0 <= j < entries@.len() && (#[trigger] entries@[j]).0 == k;
                assert(key(v@[j].0) == k);
            }
            assert forall|a: int, b: int|
                0 <= a < v@.len() && 0 <= b < v@.len() && a != b implies (#[trigger] v@[a]).0 != (
            #[trigger] v@[b]).0 by {
                assert(entries@[a].0 != entries@[b].0);
            }
        }
        v
    }

    /// True if the buffer contains no tiles.
    pub fn is_empty(&self) -> (r: bool)
        requires
            self.wf(),
        ensures
            r <==> self@ == Map::<(i32, i32), Seq<Rgba32F>>::empty(),
    {
        let v: Vec<(TileCoord, Arc<Tile>)> = self.occupied_tiles();
        proof {
            if v@.len() == 0 {
                assert(self@ =~= Map::<(i32, i32), Seq<Rgba32F>>::empty());
            } else {
                assert(self@.dom().contains(key(v@[0].0)));
            }
        }
        v.len() == 0
    }

    /// Remove tiles whose pixels are all transparent.
    pub fn prune_empty_tiles(&mut self)
        requires
            old(self).wf(),
        ensures
            final(self).wf(),
            final(self)@ == pruned(old(self)@),
            sparse(final(self)@),
    {
        let ghost before = tile_entries(self.tiles);
        map_retain_inked(&mut self.tiles);
        assert(self@ =~= pruned(old(self)@));
        assert forall|k: (i32, i32)| #[trigger] tile_entries(self.tiles).dom().contains(
            k,
        ) implies tile_entries(self.tiles)[k].wf() by {
            assert(before.dom().contains(k));
        }
    }

    /// Restore a tile coordinate to a previously captured tile.
    ///
    /// This is the primitive used by the undo system to put back the exact
    /// shared tile that existed before an edit. Restoring by [`Arc`] clone keeps
    /// undo snapshots proportional to the touched tiles and avoids deep pixel
    /// copies.
    pub fn restore_tile(&mut self, c: TileCoord, tile: Option<Arc<Tile>>)
        requires
            old(self).wf(),
            tile matches Some(t) ==> t.wf(),
        ensures
            final(self).wf(),
            final(self)@ == (match tile {
                Some(t) => old(self)@.insert(key(c), t@),
                None => old(self)@.remove(key(c)),
            }),
    {
        match tile {
            Some(t) => {
                map_insert(&mut self.tiles, (c.x, c.y), t);
                assert(self@ =~= old(self)@.insert(key(c), t@));
            },
            None => {
                map_remove(&mut self.tiles, (c.x, c.y));
                assert(self@ =~= old(self)@.remove(key(c)));
            },
        }
    }
}

/// `v` lists every tile of `m` once, with its pixels.
pub open spec fn tiles_listed(
    v: Seq<(TileCoord, Arc<Tile>)>,
    m: Map<(i32, i32), Seq<Rgba32F>>,
) -> bool {
    &&& forall|i: int|
        0 <= i < v.len() ==> m.dom().contains(key((#[trigger] v[i]).0)) && v[i].1@ == m[key(v[i].0)]
            && v[i].1.wf()
    &&& forall|k: (i32, i32)| #[trigger]
        m.dom().contains(k) ==> exists|i: int| 0 <= i < v.len() && key((#[trigger] v[i]).0) == k
    &&& forall|i: int, j: int|
        0 <= i < v.len() && 0 <= j < v.len() && i != j ==> (#[trigger] v[i]).0 != (
        #[trigger] v[j]).0
}

/// Writing a pixel and reading any pixel: the written one reads back (up to the
/// sign of zeros where it is transparent), and no other pixel changes.
pub proof fn set_pixel_then_get(m: Map<(i32, i32), Seq<Rgba32F>>, p: IVec2, px: Rgba32F, q: IVec2)
    requires
        full_tiles(m),
    ensures
        full_tiles(with_pixel(m, p, px)),
        p == q ==> alike(pixel_at(with_pixel(m, p, px), q), px),
        p == q && !px.is_clear() ==> pixel_at(with_pixel(m, p, px), q) == px,
        p != q ==> alike(pixel_at(with_pixel(m, p, px), q), pixel_at(m, q)),
        p != q && !px.is_clear() ==> pixel_at(with_pixel(m, p, px), q) == pixel_at(m, q),
{
    let k = key(tile_of(p));
    let base = if m.dom().contains(k) { m[k] } else { blank_pixels() };
    let t = base.update(slot_of(p), px);
    lemma_slot(p);
    lemma_slot(q);
    if p != q && tile_of(p) == tile_of(q) {
        lemma_slots_differ(p, q);
    }
    lemma_ink_zero(t);
    if px.is_clear() && ink(t) == 0 && tile_of(q) == tile_of(p) {
        assert(t[slot_of(q)].is_clear());
    }
}

/// A pixel's place lies in its tile.
pub proof fn lemma_slot(p: IVec2)
    ensures
        0 <= slot_of(p) < TILE_PIXELS,
{
}

/// Two pixels of one tile have different places.
pub proof fn lemma_slots_differ(p: IVec2, q: IVec2)
    requires
        p != q,
        tile_of(p) == tile_of(q),
    ensures
        slot_of(p) != slot_of(q),
{
    assert(p.x != q.x || p.y != q.y);
    assert(p.x as int / 256 == q.x as int / 256);
    assert(p.y as int / 256 == q.y as int / 256);
}

/// Writing a pixel keeps a buffer free of tiles without ink.
pub proof fn set_pixel_keeps_sparse(m: Map<(i32, i32), Seq<Rgba32F>>, p: IVec2, px: Rgba32F)
    requires
        full_tiles(m),
        sparse(m),
    ensures
        sparse(with_pixel(m, p, px)),
{
    let k = key(tile_of(p));
    let base = if m.dom().contains(k) { m[k] } else { blank_pixels() };
    let t = base.update(slot_of(p), px);
    lemma_slot(p);
    lemma_ink_zero(t);
    assert(t[slot_of(p)] == px);
}

impl Clone for TiledBuffer {
    fn clone(&self) -> (b: Self)
        ensures
            b@ == self@,
            self.wf() ==> b.wf(),
    {
        let b = TiledBuffer { tiles: map_clone(&self.tiles) };
        assert(tile_entries(b.tiles) == tile_entries(self.tiles));
        b
    }
}

} // verus!
