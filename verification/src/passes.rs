//! The passes over the input, one record at a time.
//!
//! Pass 1 finds the nodes whose coordinates are needed, pass 2 collects those
//! coordinates, and pass 3 turns selected records into elements; this file
//! holds passes 1 and 2 and the geometry of pass 3.

use vstd::prelude::*;
use crate::bitmap::RequiredNodes;
use crate::config::Filters;
use crate::fx::{CoordTable, HarvestedPositions};
use crate::model::Element;
use crate::records::{Record, any_key_present, has_any_key, key_texts};

verus! {

/// The keys that gate inclusion, as texts.
pub open spec fn primary_texts(filters: &Filters) -> Seq<Seq<char>> {
    key_texts(filters.primary_keys@)
}

/// All configured keys in configuration order: the primary keys, then the
/// attribute keys.
pub open spec fn config_keys(filters: &Filters) -> Seq<Seq<char>> {
    key_texts(filters.primary_keys@) + key_texts(filters.attribute_keys@)
}

/// The record is a node or a way and carries a primary key.
pub open spec fn is_selected(record: Record, filters: &Filters) -> bool {
    !(record is Other) && any_key_present(record.tags(), primary_texts(filters))
}

/// Whether the record is a node or a way that carries a primary key.
pub fn selects(record: &Record, filters: &Filters) -> (chosen: bool)
    ensures
        chosen == is_selected(*record, filters),
{
    match record {
        Record::Node { tags, .. } => has_any_key(tags, &filters.primary_keys),
        Record::Way { tags, .. } => has_any_key(tags, &filters.primary_keys),
        Record::Other => false,
    }
}

/// The node ids that the record makes necessary: its own id for a selected
/// node, every id it refers to for a selected way.
pub open spec fn required_by(record: Record, filters: &Filters) -> Set<u64> {
    if is_selected(record, filters) {
        match record {
            Record::Node { id, .. } => set![id],
            Record::Way { refs, .. } => refs@.to_set(),
            Record::Other => Set::empty(),
        }
    } else {
        Set::empty()
    }
}

/// Pass 1 for one record: adds to `required` the node ids that the record
/// makes necessary.
pub fn mark_required(record: &Record, filters: &Filters, required: &mut RequiredNodes)
    ensures
        final(required)@ == old(required)@.union(required_by(*record, filters)),
{
    if !selects(record, filters) {
        assert(required@ =~= old(required)@.union(Set::empty()));
        return ;
    }
    match record {
        Record::Node { id, .. } => {
            required.insert(*id);
            assert(required@ =~= old(required)@.union(set![*id]));
        },
        Record::Way { refs, .. } => {
            let mut i: usize = 0;
            assert(refs@.take(0) =~= Seq::<u64>::empty());
            assert(required@ =~= old(required)@.union(refs@.take(0).to_set()));
            while i < refs.len()
                invariant
                    0 <= i <= refs@.len(),
                    required@ == old(required)@.union(refs@.take(i as int).to_set()),
                decreases refs@.len() - i,
            {
                required.insert(refs[i]);
                proof {
                    let before = refs@.take(i as int);
                    let now = refs@.take(i as int + 1);
                    assert(now =~= before.push(refs@[i as int]));
                    assert forall|v: u64| now.to_set().contains(v) <==> (before.to_set().contains(v)
                        || v == refs@[i as int]) by {
                        if before.contains(v) {
                            let j = choose|j: int| 0 <= j < before.len() && before[j] == v;
                            assert(now[j] == v);
                        }
                        if v == refs@[i as int] {
                            assert(now[i as int] == v);
                        }
                        if now.contains(v) {
                            let j = choose|j: int| 0 <= j < now.len() && now[j] == v;
                            if j < i {
                                assert(before[j] == v);
                            }
                        }
                    }
                    assert(required@ =~= old(required)@.union(now.to_set()));
                }
                i = i + 1;
            }
            assert(refs@.take(i as int) =~= refs@);
        },
        Record::Other => {},
    }
}

/// The coordinate that pass 2 keeps from the record: the position of a node
/// whose id is required, and nothing from any other record.
pub open spec fn harvested(record: Record, required: Set<u64>) -> Option<(u64, (u32, u32))> {
    match record {
        Record::Node { id, lat, lon, .. } => if required.contains(id) {
            Some((id, (lat, lon)))
        } else {
            None
        },
        _ => None,
    }
}

/// The table after pass 2 has seen the record.
pub open spec fn coords_with(
    coords: Map<u64, (u32, u32)>,
    record: Record,
    required: Set<u64>,
) -> Map<u64, (u32, u32)> {
    match harvested(record, required) {
        Some((id, position)) => coords.insert(id, position),
        None => coords,
    }
}

/// Pass 2 for one record, without a table: what would be stored.
pub fn harvest(record: &Record, required: &RequiredNodes) -> (entry: Option<(u64, (u32, u32))>)
    ensures
        entry == harvested(*record, required@),
{
    match record {
        Record::Node { id, lat, lon, .. } => {
            if required.contains(*id) {
                Some((*id, (*lat, *lon)))
            } else {
                None
            }
        },
        _ => None,
    }
}

/// Pass 2 for one record: stores the position of a required node. The result
/// tells whether something was stored.
pub fn harvest_into(
    record: &Record,
    required: &RequiredNodes,
    coords: &mut HarvestedPositions,
) -> (stored: bool)
    ensures
        final(coords)@ == coords_with(old(coords)@, *record, required@),
        stored == harvested(*record, required@).is_some(),
{
    match harvest(record, required) {
        Some((id, position)) => {
            coords.insert(id, position);
            true
        },
        None => false,
    }
}

/// The number of consecutive pairs in a list of node references.
pub open spec fn pair_count(refs: Seq<u64>) -> nat {
    if refs.len() == 0 {
        0
    } else {
        (refs.len() - 1) as nat
    }
}

/// Both ends of pair `i` have a known position.
pub open spec fn pair_found(refs: Seq<u64>, coords: Map<u64, (u32, u32)>, i: int) -> bool {
    coords.contains_key(refs[i]) && coords.contains_key(refs[i + 1])
}

/// The element of a node: both endpoints at the node's position.
pub open spec fn node_element(id: u64, lat: u32, lon: u32, tag_set_id: u32) -> Element {
    Element { id, coordinates: [[lat, lon], [lat, lon]], tag_set_id }
}

/// The element of pair `i` of a way.
pub open spec fn segment(
    id: u64,
    refs: Seq<u64>,
    coords: Map<u64, (u32, u32)>,
    tag_set_id: u32,
    i: int,
) -> Element {
    let from = coords[refs[i]];
    let to = coords[refs[i + 1]];
    Element { id, coordinates: [[from.0, from.1], [to.0, to.1]], tag_set_id }
}

/// The elements of the first `n` pairs of a way: one for each pair whose two
/// ends have a known position, in order.
pub open spec fn segments(
    id: u64,
    refs: Seq<u64>,
    coords: Map<u64, (u32, u32)>,
    tag_set_id: u32,
    n: nat,
) -> Seq<Element>
    decreases n,
{
    if n == 0 {
        Seq::empty()
    } else {
        let before = segments(id, refs, coords, tag_set_id, (n - 1) as nat);
        if pair_found(refs, coords, n - 1) {
            before.push(segment(id, refs, coords, tag_set_id, n - 1))
        } else {
            before
        }
    }
}

/// How many of the first `n` pairs have both ends known.
pub open spec fn found_pairs(refs: Seq<u64>, coords: Map<u64, (u32, u32)>, n: nat) -> nat
    decreases n,
{
    if n == 0 {
        0
    } else {
        found_pairs(refs, coords, (n - 1) as nat) + (if pair_found(refs, coords, n - 1) {
            1nat
        } else {
            0nat
        })
    }
}

/// How many of the first `n` pairs lack a position at one end.
pub open spec fn skipped_pairs(refs: Seq<u64>, coords: Map<u64, (u32, u32)>, n: nat) -> nat {
    (n - found_pairs(refs, coords, n)) as nat
}

/// A way gives exactly one element for each pair whose two lookups succeed,
/// each with the way's id and tag set; every other pair is counted as
/// skipped. With no successful pair there is no element.
pub proof fn law_way_geometry(
    id: u64,
    refs: Seq<u64>,
    coords: Map<u64, (u32, u32)>,
    tag_set_id: u32,
    n: nat,
)
    ensures
        found_pairs(refs, coords, n) <= n,
        segments(id, refs, coords, tag_set_id, n).len() == found_pairs(refs, coords, n),
        segments(id, refs, coords, tag_set_id, n).len() + skipped_pairs(refs, coords, n) == n,
        forall|k: int|
            0 <= k < segments(id, refs, coords, tag_set_id, n).len() ==> {
                let e = #[trigger] segments(id, refs, coords, tag_set_id, n)[k];
                e.id == id && e.tag_set_id == tag_set_id
            },
        (forall|i: int| 0 <= i < n ==> !pair_found(refs, coords, i)) ==> segments(
            id,
            refs,
            coords,
            tag_set_id,
            n,
        ).len() == 0,
        (forall|i: int| 0 <= i < n ==> pair_found(refs, coords, i)) ==> segments(
            id,
            refs,
            coords,
            tag_set_id,
            n,
        ).len() == n,
    decreases n,
{
    if n > 0 {
        law_way_geometry(id, refs, coords, tag_set_id, (n - 1) as nat);
    }
}

/// Pass 3 for the geometry of one way: appends an element for each pair of
/// consecutive references whose positions are both known, and counts the
/// others.
pub fn emit_segments(
    id: u64,
    refs: &Vec<u64>,
    coords: &CoordTable,
    tag_set_id: u32,
    out: &mut Vec<Element>,
) -> (skipped: usize)
    ensures
        final(out)@ == old(out)@ + segments(id, refs@, coords@, tag_set_id, pair_count(refs@)),
        skipped == skipped_pairs(refs@, coords@, pair_count(refs@)),
{
    let mut skipped: usize = 0;
    if refs.len() == 0 {
        assert(out@ =~= old(out)@ + Seq::<Element>::empty());
        return 0;
    }
    let pairs: usize = refs.len() - 1;
    let mut i: usize = 0;
    assert(out@ =~= old(out)@ + Seq::<Element>::empty());
    while i < pairs
        invariant
            0 <= i <= pairs,
            pairs + 1 == refs@.len(),
            out@ == old(out)@ + segments(id, refs@, coords@, tag_set_id, i as nat),
            skipped == skipped_pairs(refs@, coords@, i as nat),
            found_pairs(refs@, coords@, i as nat) <= i,
        decreases pairs - i,
    {
        let from = coords.get(refs[i]);
        let to = coords.get(refs[i + 1]);
        proof {
            law_way_geometry(id, refs@, coords@, tag_set_id, (i + 1) as nat);
        }
        match (from, to) {
            (Some(a), Some(b)) => {
                out.push(Element { id, coordinates: [[a.0, a.1], [b.0, b.1]], tag_set_id });
                assert(out@ =~= old(out)@ + segments(
                    id,
                    refs@,
                    coords@,
                    tag_set_id,
                    (i + 1) as nat,
                ));
            },
            _ => {
                skipped = skipped + 1;
            },
        }
        i = i + 1;
    }
    skipped
}

} // verus!
