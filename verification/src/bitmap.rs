//! `roaring::RoaringTreemap` as the set of node ids that the output needs.

use vstd::prelude::*;
use roaring::RoaringTreemap;

verus! {

/// `roaring::RoaringTreemap`, opaque to the verifier.
#[verifier::external_type_specification]
#[verifier::external_body]
pub struct ExRoaringTreemap(RoaringTreemap);

/// The integers that a treemap holds.
pub uninterp spec fn treemap_ids(t: RoaringTreemap) -> Set<u64>;

/// `RoaringTreemap::new`: the empty set.
#[verifier::external_body]
pub(crate) fn treemap_new() -> (t: RoaringTreemap)
    ensures
        treemap_ids(t) == Set::<u64>::empty(),
{
    RoaringTreemap::new()
}

/// `RoaringTreemap::insert`: adds `value`; the result tells whether it was
/// absent before.
#[verifier::external_body]
pub(crate) fn treemap_insert(t: &mut RoaringTreemap, value: u64) -> (fresh: bool)
    ensures
        treemap_ids(*final(t)) == treemap_ids(*old(t)).insert(value),
        fresh == !treemap_ids(*old(t)).contains(value),
{
    t.insert(value)
}

/// `RoaringTreemap::contains`: membership.
#[verifier::external_body]
pub(crate) fn treemap_contains(t: &RoaringTreemap, value: u64) -> (present: bool)
    ensures
        present == treemap_ids(*t).contains(value),
{
    t.contains(value)
}

/// The ids of the nodes whose coordinates the output needs.
pub struct RequiredNodes {
    ids: RoaringTreemap,
}

impl View for RequiredNodes {
    type V = Set<u64>;

    closed spec fn view(&self) -> Set<u64> {
        treemap_ids(self.ids)
    }
}

impl RequiredNodes {
    /// No node is required.
    pub fn new() -> (required: RequiredNodes)
        ensures
            required@ == Set::<u64>::empty(),
    {
        RequiredNodes { ids: treemap_new() }
    }

    /// Marks `id` as required; tells whether it was not marked before.
    pub fn insert(&mut self, id: u64) -> (fresh: bool)
        ensures
            final(self)@ == old(self)@.insert(id),
            fresh == !old(self)@.contains(id),
    {
        treemap_insert(&mut self.ids, id)
    }

    /// Whether `id` is required.
    pub fn contains(&self, id: u64) -> (present: bool)
        ensures
            present == self@.contains(id),
    {
        treemap_contains(&self.ids, id)
    }

    /// The underlying bitmap.
    pub fn ids(&self) -> (ids: &RoaringTreemap)
        ensures
            treemap_ids(*ids) == self@,
    {
        &self.ids
    }
}

} // verus!
