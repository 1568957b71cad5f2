//! The node-coordinate table in its two forms: the map that pass 2 fills,
//! and the compact table that pass 3 reads, a std `HashMap` with
//! `rustc_hash`'s hasher. Coordinates are kept as the bit patterns of
//! single-precision floats.

use vstd::prelude::*;
use std::collections::HashMap;
use dashmap::DashMap;
use rustc_hash::FxBuildHasher;
use crate::dash::{id_positions, id_positions_entries, id_positions_insert, id_positions_new};

verus! {

/// `rustc_hash::FxBuildHasher`, opaque to the verifier.
#[verifier::external_type_specification]
#[verifier::external_body]
pub struct ExFxBuildHasher(FxBuildHasher);

/// `HashMap::default` with the Fx hasher: an empty table.
#[verifier::external_body]
pub(crate) fn coords_new() -> (m: HashMap<u64, (u32, u32), FxBuildHasher>)
    ensures
        m@ == (Map::<u64, (u32, u32)>::empty()),
{
    HashMap::default()
}

/// `HashMap::insert` with the Fx hasher: `key` now maps to `value`, every
/// other key is untouched.
#[verifier::external_body]
pub(crate) fn coords_insert(m: &mut HashMap<u64, (u32, u32), FxBuildHasher>, key: u64, value: (u32, u32))
    ensures
        final(m)@ == old(m)@.insert(key, value),
{
    m.insert(key, value);
}

/// `HashMap::get` with the Fx hasher: the value stored under `key`, if any.
#[verifier::external_body]
pub(crate) fn coords_get(m: &HashMap<u64, (u32, u32), FxBuildHasher>, key: u64) -> (found: Option<
    (u32, u32),
>)
    ensures
        found == (if m@.contains_key(key) {
            Some(m@[key])
        } else {
            None
        }),
{
    m.get(&key).copied()
}

/// Position by node id, for the nodes that the output needs.
pub struct CoordTable {
    map: HashMap<u64, (u32, u32), FxBuildHasher>,
}

impl View for CoordTable {
    type V = Map<u64, (u32, u32)>;

    closed spec fn view(&self) -> Map<u64, (u32, u32)> {
        self.map@
    }
}

impl CoordTable {
    /// A table without entries.
    pub fn new() -> (table: CoordTable)
        ensures
            table@ == Map::<u64, (u32, u32)>::empty(),
    {
        CoordTable { map: coords_new() }
    }

    /// Records the position of node `id`; a later position replaces an
    /// earlier one.
    pub fn insert(&mut self, id: u64, position: (u32, u32))
        ensures
            final(self)@ == old(self)@.insert(id, position),
    {
        coords_insert(&mut self.map, id, position);
    }

    /// The position of node `id`, if it was recorded.
    pub fn get(&self, id: u64) -> (found: Option<(u32, u32)>)
        ensures
            found == (if self@.contains_key(id) {
                Some(self@[id])
            } else {
                None
            }),
    {
        coords_get(&self.map, id)
    }
}

/// The positions that pass 2 collects, by node id.
pub struct HarvestedPositions {
    map: DashMap<u64, (u32, u32)>,
}

impl View for HarvestedPositions {
    type V = Map<u64, (u32, u32)>;

    closed spec fn view(&self) -> Map<u64, (u32, u32)> {
        id_positions(self.map)
    }
}

impl HarvestedPositions {
    /// Nothing collected.
    pub fn new() -> (harvest: HarvestedPositions)
        ensures
            harvest@ == Map::<u64, (u32, u32)>::empty(),
    {
        HarvestedPositions { map: id_positions_new() }
    }

    /// Records the position of node `id`; a later position replaces an
    /// earlier one.
    pub fn insert(&mut self, id: u64, position: (u32, u32))
        ensures
            final(self)@ == old(self)@.insert(id, position),
    {
        id_positions_insert(&mut self.map, id, position);
    }

    /// The compact read-only table with the same positions.
    pub fn freeze(self) -> (table: CoordTable)
        ensures
            table@ == self@,
    {
        let entries = id_positions_entries(&self.map);
        let mut table = CoordTable::new();
        let mut i: usize = 0;
        while i < entries.len()
            invariant
                0 <= i <= entries@.len(),
                forall|j: int|
                    0 <= j < entries@.len() ==> self@.contains_key((#[trigger] entries@[j]).0)
                        && self@[entries@[j].0] == entries@[j].1,
                forall|k: u64| #[trigger]
                    table@.contains_key(k) ==> self@.contains_key(k) && table@[k] == self@[k],
                forall|j: int| 0 <= j < i ==> table@.contains_key((#[trigger] entries@[j]).0),
            decreases entries@.len() - i,
        {
            let (id, position) = entries[i];
            table.insert(id, position);
            i = i + 1;
        }
        proof {
            assert forall|k: u64| self@.contains_key(k) implies table@.contains_key(k) by {
                let j = choose|j: int| 0 <= j < entries@.len() && (#[trigger] entries@[j]).0 == k;
                assert(table@.contains_key(entries@[j].0));
            }
            assert(table@ =~= self@);
        }
        table
    }
}

} // verus!
