//! The layer arena of a document, and sets of layer identifiers.
use vstd::prelude::*;

use ahash::{AHashSet, RandomState};
use slotmap::{DefaultKey, Key, KeyData, SlotMap};

use crate::layer::{Layer, LayerId, LayerView};

verus! {

/// The most layers that an arena can hold.
pub const MAX_LAYERS: usize = 0xffff_fffe;

/// `slotmap::SlotMap` with layers as values.
#[verifier::external_body]
pub struct Slots {
    slots: SlotMap<DefaultKey, Layer>,
}

/// The layers of an arena, by the number of their key.
pub uninterp spec fn slot_entries(a: Slots) -> Map<u64, Layer>;

/// A number that a slot map's key can have: the version of an occupied slot,
/// which stands above the slot's index, is odd.
pub open spec fn is_key(k: u64) -> bool {
    (k as int / 0x1_0000_0000) % 2 == 1
}

/// `SlotMap::new`: no layers.
#[verifier::external_body]
fn slots_new() -> (r: Slots)
    ensures
        slot_entries(r).dom().finite() && slot_entries(r).dom() =~= Set::<u64>::empty(),
{
    Slots { slots: SlotMap::new() }
}

/// `SlotMap::len`: the number of layers.
#[verifier::external_body]
fn slots_len(a: &Slots) -> (n: usize)
    ensures
        n == slot_entries(*a).dom().len(),
{
    a.slots.len()
}

/// `SlotMap::get`: the layer under a key, if there is one.
#[verifier::external_body]
fn slots_get(a: &Slots, k: u64) -> (r: Option<&Layer>)
    requires
        is_key(k),
    ensures
        r is Some <==> slot_entries(*a).dom().contains(k),
        r matches Some(l) ==> *l == slot_entries(*a)[k],
{
    a.slots.get(DefaultKey::from(KeyData::from_ffi(k)))
}

/// `SlotMap::get_mut`: the layer under a key for writing, if there is one. The
/// other layers stay.
#[verifier::external_body]
fn slots_get_mut(a: &mut Slots, k: u64) -> (r: Option<&mut Layer>)
    requires
        is_key(k),
    ensures
        r is Some <==> slot_entries(*old(a)).dom().contains(k),
        r matches Some(l) ==> *l == slot_entries(*old(a))[k] && slot_entries(*final(a))
            == slot_entries(*old(a)).insert(k, *final(l)),
        r is None ==> slot_entries(*final(a)) == slot_entries(*old(a)),
{
    a.slots.get_mut(DefaultKey::from(KeyData::from_ffi(k)))
}

/// `SlotMap::insert`: the layer stands under a key that no other layer has and
/// that is not the null key. It panics when no slot is left.
#[verifier::external_body]
fn slots_insert(a: &mut Slots, layer: Layer) -> (k: u64)
    requires
        slot_entries(*old(a)).dom().len() < MAX_LAYERS,
    ensures
        is_key(k) && k != 0x1_ffff_ffff && !slot_entries(*old(a)).dom().contains(k),
        slot_entries(*final(a)) == slot_entries(*old(a)).insert(k, layer),
{
    a.slots.insert(layer).data().as_ffi()
}

/// `SlotMap::remove`: the layer under a key leaves; the other layers stay.
#[verifier::external_body]
fn slots_remove(a: &mut Slots, k: u64) -> (r: Option<Layer>)
    requires
        is_key(k),
    ensures
        r is Some <==> slot_entries(*old(a)).dom().contains(k),
        r matches Some(l) ==> l == slot_entries(*old(a))[k],
        slot_entries(*final(a)) == slot_entries(*old(a)).remove(k),
{
    a.slots.remove(DefaultKey::from(KeyData::from_ffi(k)))
}

/// `SlotMap::keys`: every key once, in no particular order.
#[verifier::external_body]
fn slots_keys(a: &Slots) -> (v: Vec<u64>)
    ensures
        forall|k: u64| #[trigger] v@.contains(k) <==> slot_entries(*a).dom().contains(k),
        v@.no_duplicates(),
{
    a.slots.keys().map(|k| k.data().as_ffi()).collect()
}

/// `SlotMap::clone`: a second arena with a clone of every layer under the same
/// key.
#[verifier::external_body]
fn slots_clone(a: &Slots) -> (r: Slots)
    ensures
        slot_entries(r).dom() == slot_entries(*a).dom(),
        forall|k: u64| #[trigger]
            slot_entries(r).dom().contains(k) ==> slot_entries(r)[k]@ == slot_entries(*a)[k]@ && (
            slot_entries(*a)[k].wf() ==> slot_entries(r)[k].wf()),
{
    Slots { slots: a.slots.clone() }
}

/// The arena that owns a document's layers.
pub struct LayerArena {
    slots: Slots,
}

impl View for LayerArena {
    type V = Map<LayerId, LayerView>;

    closed spec fn view(&self) -> Map<LayerId, LayerView> {
        Map::new(
            |id: LayerId| slot_entries(self.slots).dom().contains(id.raw),
            |id: LayerId| slot_entries(self.slots)[id.raw]@,
        )
    }
}

fn key_form(k: u64) -> (r: bool)
    ensures
        r == is_key(k),
{
    (k / 0x1_0000_0000) % 2 == 1
}

impl LayerArena {
    /// Every key has the form of a key and every layer is well formed.
    pub closed spec fn wf(&self) -> bool {
        &&& slot_entries(self.slots).dom().finite()
        &&& forall|k: u64| #[trigger]
            slot_entries(self.slots).dom().contains(k) ==> is_key(k) && k != 0x1_ffff_ffff
                && slot_entries(self.slots)[k].wf()
    }

    /// The number of layers.
    pub closed spec fn count(&self) -> nat {
        slot_entries(self.slots).dom().len()
    }

    /// The layer under an identifier, as it is stored.
    pub closed spec fn entry(&self, id: LayerId) -> Layer {
        slot_entries(self.slots)[id.raw]
    }

    /// An empty arena.
    pub fn new() -> (r: Self)
        ensures
            r.wf(),
            r@ == Map::<LayerId, LayerView>::empty(),
            r.count() == 0,
    {
        let r = LayerArena { slots: slots_new() };
        assert(r@ =~= Map::<LayerId, LayerView>::empty());
        r
    }

    /// The number of layers.
    pub fn len(&self) -> (n: usize)
        ensures
            n == self.count(),
    {
        slots_len(&self.slots)
    }

    /// The layer under an identifier, if there is one.
    pub fn get(&self, id: LayerId) -> (r: Option<&Layer>)
        requires
            self.wf(),
        ensures
            r is Some <==> self@.dom().contains(id),
            r matches Some(l) ==> l@ == self@[id] && l.wf() && *l == self.entry(id),
    {
        if key_form(id.raw) {
            slots_get(&self.slots, id.raw)
        } else {
            None
        }
    }

    /// True if a layer has the identifier.
    pub fn contains_key(&self, id: LayerId) -> (r: bool)
        requires
            self.wf(),
        ensures
            r == self@.dom().contains(id),
    {
        self.get(id).is_some()
    }

    /// The layer under an identifier for writing, if there is one.
    pub fn get_mut(&mut self, id: LayerId) -> (r: Option<&mut Layer>)
        requires
            old(self).wf(),
        ensures
            r is Some <==> old(self)@.dom().contains(id),
            r matches Some(l) ==> l@ == old(self)@[id] && l.wf() && *l == old(self).entry(id)
                && final(self)@ == old(self)@.insert(id, final(l)@) && (final(l).wf()
                ==> final(self).wf()) && final(self).count() == old(self).count(),
            r is None ==> final(self)@ == old(self)@ && final(self).wf() && final(self).count()
                == old(self).count(),
    {
        if !key_form(id.raw) {
            return None;
        }
        proof {
            let a = *self;
            assert forall|b: LayerArena, l: Layer|
                #![trigger slot_entries(b.slots), slot_entries(a.slots).insert(id.raw, l)]
                a@.dom().contains(id) && slot_entries(b.slots) == slot_entries(a.slots).insert(
                    id.raw,
                    l,
                ) implies b@ == a@.insert(id, l@) && (l.wf() ==> b.wf()) && b.count()
                == a.count() by {
                lemma_entry_written(a, b, id, l);
            }
        }
        slots_get_mut(&mut self.slots, id.raw)
    }

    /// Store a layer under a new identifier.
    pub fn insert(&mut self, layer: Layer) -> (id: LayerId)
        requires
            old(self).wf(),
            layer.wf(),
            old(self).count() < MAX_LAYERS,
        ensures
            final(self).wf(),
            !old(self)@.dom().contains(id),
            id != LayerId::null_spec(),
            final(self)@ == old(self)@.insert(id, layer@),
            final(self).count() == old(self).count() + 1,
    {
        let k: u64 = slots_insert(&mut self.slots, layer);
        assert(self@ =~= old(self)@.insert(LayerId { raw: k }, layer@));
        LayerId { raw: k }
    }

    /// Take the layer under an identifier out.
    pub fn remove(&mut self, id: LayerId) -> (r: Option<Layer>)
        requires
            old(self).wf(),
        ensures
            final(self).wf(),
            r is Some <==> old(self)@.dom().contains(id),
            r matches Some(l) ==> l@ == old(self)@[id] && l.wf(),
            final(self)@ == old(self)@.remove(id),
            final(self).count() <= old(self).count(),
    {
        if !key_form(id.raw) {
            assert(self@ =~= old(self)@.remove(id));
            return None;
        }
        let r = slots_remove(&mut self.slots, id.raw);
        assert(self@ =~= old(self)@.remove(id));
        r
    }

    /// Every identifier once, in no particular order.
    pub fn keys(&self) -> (v: Vec<LayerId>)
        ensures
            forall|id: LayerId| #[trigger] v@.contains(id) <==> self@.dom().contains(id),
            v@.no_duplicates(),
    {
        let keys: Vec<u64> = slots_keys(&self.slots);
        let mut v: Vec<LayerId> = Vec::new();
        let mut i: usize = 0;
        while i < keys.len()
            invariant
                i <= keys@.len(),
                v@.len() == i,
                forall|j: int| 0 <= j < i ==> (#[trigger] v@[j]).raw == keys@[j],
            decreases keys@.len() - i,
        {
            v.push(LayerId { raw: keys[i] });
            i = i + 1;
        }
        proof {
            assert forall|id: LayerId| #[trigger] v@.contains(id) <==> self@.dom().contains(id) by {
                if v@.contains(id) {
                    let j = choose|j: int| 0 <= j < v@.len() && v@[j] == id;
                    assert(keys@[j] == id.raw);
                    assert(keys@.contains(id.raw));
                }
                if self@.dom().contains(id) {
                    assert(keys@.contains(id.raw));
                    let j = choose|j: int| 0 <= j < keys@.len() && keys@[j] == id.raw;
                    assert(v@[j].raw == id.raw);
                    assert(v@[j] == id);
                }
            }
            assert forall|a: int, b: int|
                0 <= a < v@.len() && 0 <= b < v@.len() && a != b implies v@[a] != v@[b] by {
                assert(keys@[a] != keys@[b]);
                assert(v@[a].raw == keys@[a] && v@[b].raw == keys@[b]);
            }
        }
        v
    }
}

impl Clone for LayerArena {
    fn clone(&self) -> (r: Self)
        ensures
            r@ == self@,
            self.wf() ==> r.wf(),
            r.count() == self.count(),
    {
        let r = LayerArena { slots: slots_clone(&self.slots) };
        proof {
            assert forall|id: LayerId| #[trigger] r@.dom().contains(id) implies r@[id]
                == self@[id] by {
                assert(slot_entries(r.slots).dom().contains(id.raw));
            }
            assert(r@ =~= self@);
        }
        r
    }
}

proof fn lemma_entry_written(a: LayerArena, b: LayerArena, id: LayerId, l: Layer)
    requires
        a.wf(),
        a@.dom().contains(id),
        slot_entries(b.slots) == slot_entries(a.slots).insert(id.raw, l),
    ensures
        b@ == a@.insert(id, l@),
        l.wf() ==> b.wf(),
        b.count() == a.count(),
{
    assert(slot_entries(a.slots).dom().contains(id.raw));
    assert(slot_entries(b.slots).dom() =~= slot_entries(a.slots).dom());
    assert(b@ =~= a@.insert(id, l@));
}

/// `ahash::AHashSet`, a hash set.
#[verifier::external_type_specification]
#[verifier::external_body]
#[verifier::reject_recursive_types(T)]
#[verifier::reject_recursive_types(S)]
pub struct ExAHashSet<T, S>(AHashSet<T, S>);

/// The numbers that a hash set holds.
pub uninterp spec fn set_members(s: AHashSet<u64, RandomState>) -> Set<u64>;

/// `AHashSet::new`: the empty set.
#[verifier::external_body]
fn set_new() -> (r: AHashSet<u64, RandomState>)
    ensures
        set_members(r) =~= Set::<u64>::empty(),
{
    AHashSet::new()
}

/// `HashSet::contains`: whether a number is in the set.
#[verifier::external_body]
fn set_contains(s: &AHashSet<u64, RandomState>, k: u64) -> (r: bool)
    ensures
        r == set_members(*s).contains(k),
{
    s.contains(&k)
}

/// `HashSet::insert`: the number is in the set; true if it was not before.
#[verifier::external_body]
fn set_insert(s: &mut AHashSet<u64, RandomState>, k: u64) -> (r: bool)
    ensures
        r == !set_members(*old(s)).contains(k),
        set_members(*final(s)) == set_members(*old(s)).insert(k),
{
    s.insert(k)
}

/// `HashSet::remove`: the number is not in the set.
#[verifier::external_body]
fn set_remove(s: &mut AHashSet<u64, RandomState>, k: u64)
    ensures
        set_members(*final(s)) == set_members(*old(s)).remove(k),
{
    s.remove(&k);
}

/// `AHashSet::clone`: a second set with the same numbers.
#[verifier::external_body]
fn set_clone(s: &AHashSet<u64, RandomState>) -> (r: AHashSet<u64, RandomState>)
    ensures
        set_members(r) == set_members(*s),
{
    s.clone()
}

/// `AHashSet::eq`: whether two sets hold the same numbers.
#[verifier::external_body]
fn set_eq(a: &AHashSet<u64, RandomState>, b: &AHashSet<u64, RandomState>) -> (r: bool)
    ensures
        r == (set_members(*a) =~= set_members(*b)),
{
    a.eq(b)
}

/// A set of layer identifiers.
pub struct IdSet {
    ids: AHashSet<u64, RandomState>,
}

impl View for IdSet {
    type V = Set<LayerId>;

    closed spec fn view(&self) -> Set<LayerId> {
        Set::new(|id: LayerId| set_members(self.ids).contains(id.raw))
    }
}

impl Clone for IdSet {
    fn clone(&self) -> (r: Self)
        ensures
            r@ == self@,
    {
        IdSet { ids: set_clone(&self.ids) }
    }
}

impl IdSet {
    /// The empty set.
    pub fn new() -> (r: Self)
        ensures
            r@ == Set::<LayerId>::empty(),
    {
        let r = IdSet { ids: set_new() };
        assert(r@ =~= Set::<LayerId>::empty());
        r
    }

    /// Whether an identifier is in the set.
    pub fn contains(&self, id: LayerId) -> (r: bool)
        ensures
            r == self@.contains(id),
    {
        set_contains(&self.ids, id.raw)
    }

    /// Put an identifier into the set; true if it was not there.
    pub fn insert(&mut self, id: LayerId) -> (r: bool)
        ensures
            r == !old(self)@.contains(id),
            final(self)@ == old(self)@.insert(id),
    {
        let r: bool = set_insert(&mut self.ids, id.raw);
        assert(self@ =~= old(self)@.insert(id));
        r
    }

    /// Take an identifier out of the set.
    pub fn remove(&mut self, id: LayerId)
        ensures
            final(self)@ == old(self)@.remove(id),
    {
        set_remove(&mut self.ids, id.raw);
        assert(self@ =~= old(self)@.remove(id));
    }

    /// True if two sets hold the same identifiers.
    pub fn eq(&self, other: &Self) -> (r: bool)
        ensures
            r == (self@ == other@),
    {
        let r: bool = set_eq(&self.ids, &other.ids);
        proof {
            if self@ == other@ {
                assert forall|k: u64|
                    set_members(self.ids).contains(k) == set_members(other.ids).contains(k) by {
                    assert(self@.contains(LayerId { raw: k }) == other@.contains(
                        LayerId { raw: k },
                    ));
                }
            }
            if r {
                assert(self@ =~= other@);
            }
        }
        r
    }
}

} // verus!
