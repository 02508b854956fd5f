//! A hash set of coordinates.
use vstd::prelude::*;

use ahash::{AHashSet, RandomState};

verus! {

/// The coordinates that a hash set holds.
pub uninterp spec fn coord_members(s: AHashSet<(i32, i32), RandomState>) -> Set<(i32, i32)>;

/// `AHashSet::new`: the empty set.
#[verifier::external_body]
pub(crate) fn coord_set_new() -> (r: AHashSet<(i32, i32), RandomState>)
    ensures
        forall|k: (i32, i32)| !(#[trigger] coord_members(r).contains(k)),
{
    AHashSet::new()
}

/// `HashSet::insert`: the coordinate is in the set, and the result says whether
/// it was not there before.
#[verifier::external_body]
pub(crate) fn coord_set_insert(
    s: &mut AHashSet<(i32, i32), RandomState>,
    k: (i32, i32),
) -> (fresh: bool)
    ensures
        coord_members(*final(s)) == coord_members(*old(s)).insert(k),
        fresh == !coord_members(*old(s)).contains(k),
{
    s.insert(k)
}

/// `HashSet::len`: the number of coordinates.
#[verifier::external_body]
pub(crate) fn coord_set_len(s: &AHashSet<(i32, i32), RandomState>) -> (n: usize)
    ensures
        n == coord_members(*s).len(),
{
    s.len()
}

/// `HashSet::iter`: every coordinate once, in no particular order.
#[verifier::external_body]
pub(crate) fn coord_set_iter(s: &AHashSet<(i32, i32), RandomState>) -> (v: Vec<(i32, i32)>)
    ensures
        forall|k: (i32, i32)| #[trigger] v@.contains(k) <==> coord_members(*s).contains(k),
        v@.no_duplicates(),
{
    s.iter().copied().collect()
}

} // verus!
