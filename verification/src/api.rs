//! The query side: what is reported of each element that an index probe
//! found, and in which order.
//!
//! Coordinates and distances are bit patterns of single-precision floats.
//! The probe itself, and the arithmetic on the floats, is the caller's.

use vstd::prelude::*;
use vstd::seq_lib::{lemma_multiset_commutative, to_multiset_build};
use vstd::utf8::*;
use std::sync::Arc;
use crate::model::{Element, FlatTagSets, StringInterner, unpack_pair};

verus! {

/// The flattened tag sets, shared between the index and the handlers.
#[derive(Clone)]
pub struct TagSetsHandle(pub Arc<FlatTagSets>);

impl TagSetsHandle {
    /// The store behind the handle.
    pub open spec fn store(&self) -> FlatTagSets {
        *self.0
    }

    /// The packed words of tag set `idx`, where the store has it.
    pub fn get(&self, idx: usize) -> (found: Option<&[u64]>)
        ensures
            found is Some <==> self.store().in_bounds(idx as int),
            found is Some ==> found->0@ == self.store().packed(idx as int),
    {
        self.0.get(idx)
    }
}

/// The geometry of an index object.
#[derive(Debug, Clone, Copy)]
pub enum SegmentStorage {
    Owned { from: [u32; 2], to: [u32; 2] },
}

/// An element as the spatial index holds it: a line segment from one
/// endpoint to the other, a point where the two are the same.
#[derive(Debug, Clone, Copy)]
pub struct SpatialElement {
    pub id: u64,
    pub tag_set_id: u32,
    pub storage: SegmentStorage,
}

impl SpatialElement {
    /// The index object of an element.
    pub fn new(element: &Element) -> (object: SpatialElement)
        ensures
            object.id == element.id,
            object.tag_set_id == element.tag_set_id,
            object.storage->from == element.coordinates[0],
            object.storage->to == element.coordinates[1],
    {
        SpatialElement {
            id: element.id,
            tag_set_id: element.tag_set_id,
            storage: SegmentStorage::Owned {
                from: element.coordinates[0],
                to: element.coordinates[1],
            },
        }
    }

    /// The two endpoints, each as `[lat, lon]`.
    pub fn endpoints(&self) -> (ends: ([u32; 2], [u32; 2]))
        ensures
            ends.0 == self.storage->from,
            ends.1 == self.storage->to,
    {
        match &self.storage {
            SegmentStorage::Owned { from, to } => (*from, *to),
        }
    }
}

/// The bit pattern is that of a NaN.
pub open spec fn is_nan(bits: u32) -> bool {
    bits & 0x7FFF_FFFF > 0x7F80_0000
}

/// The two bit patterns are equal as floating-point numbers: neither is a
/// NaN, and they are the same pattern or both a zero of either sign.
pub open spec fn same_number(a: u32, b: u32) -> bool {
    !is_nan(a) && !is_nan(b) && (a == b || (a | b) & 0x7FFF_FFFF == 0)
}

/// Whether two bit patterns are equal as floating-point numbers.
pub fn numbers_equal(a: u32, b: u32) -> (equal: bool)
    ensures
        equal == same_number(a, b),
{
    (a & 0x7FFF_FFFF) <= 0x7F80_0000 && (b & 0x7FFF_FFFF) <= 0x7F80_0000 && (a == b || (a | b)
        & 0x7FFF_FFFF == 0)
}

/// The two endpoints are the same position.
pub open spec fn endpoints_coincide(from: [u32; 2], to: [u32; 2]) -> bool {
    same_number(from[0], to[0]) && same_number(from[1], to[1])
}

/// What an entry of the response is called: a node where the endpoints
/// coincide, else a way.
pub open spec fn kind_text(from: [u32; 2], to: [u32; 2]) -> Seq<char> {
    if endpoints_coincide(from, to) {
        "node"@
    } else {
        "way"@
    }
}

/// An entry is called a node exactly when its two endpoints have the same
/// latitude and the same longitude.
pub proof fn law_endpoint_degeneracy(from: [u32; 2], to: [u32; 2])
    ensures
        kind_text(from, to) == "node"@ <==> same_number(from[0], to[0]) && same_number(
            from[1],
            to[1],
        ),
{
    reveal_strlit("node");
    reveal_strlit("way");
    assert("node"@.len() == 4);
    assert("way"@.len() == 3);
}

/// The texts behind the pairs of a tag set, in order; a pair with an id that
/// the interner cannot resolve is left out.
pub open spec fn named(pairs: Seq<(u32, u32)>, interner: &StringInterner) -> Seq<
    (Seq<char>, Seq<char>),
>
    decreases pairs.len(),
{
    if pairs.len() == 0 {
        Seq::empty()
    } else {
        let before = named(pairs.drop_last(), interner);
        let (key, value) = pairs.last();
        if interner.entry_ok(key as int) && interner.entry_ok(value as int) {
            before.push(
                (
                    decode_utf8(interner.entry_bytes(key as int)),
                    decode_utf8(interner.entry_bytes(value as int)),
                ),
            )
        } else {
            before
        }
    }
}

/// The tags of tag set `tag_set_id` as texts; none where the store has no
/// such tag set.
pub open spec fn tags_of(tag_sets: &FlatTagSets, interner: &StringInterner, tag_set_id: u32) -> Seq<
    (Seq<char>, Seq<char>),
> {
    if tag_sets.in_bounds(tag_set_id as int) {
        named(tag_sets.pairs(tag_set_id as int), interner)
    } else {
        Seq::empty()
    }
}

/// The views of a list of tags.
pub open spec fn tag_texts(tags: Seq<(String, String)>) -> Seq<(Seq<char>, Seq<char>)> {
    Seq::new(tags.len(), |i: int| (tags[i].0@, tags[i].1@))
}

/// Reconstructs the tags of a tag set through the interner.
pub fn resolve_tags(tag_sets: &FlatTagSets, interner: &StringInterner, tag_set_id: u32) -> (tags:
    Vec<(String, String)>)
    ensures
        tag_texts(tags@) == tags_of(tag_sets, interner, tag_set_id),
{
    let mut tags: Vec<(String, String)> = Vec::new();
    match tag_sets.get(tag_set_id as usize) {
        None => {
            assert(tag_texts(tags@) =~= Seq::<(Seq<char>, Seq<char>)>::empty());
        },
        Some(words) => {
            let ghost pairs = tag_sets.pairs(tag_set_id as int);
            let mut i: usize = 0;
            proof {
                assert(pairs.take(0) =~= Seq::<(u32, u32)>::empty());
                assert(tag_texts(tags@) =~= named(pairs.take(0), interner));
            }
            while i < words.len()
                invariant
                    0 <= i <= words@.len(),
                    words@ == tag_sets.packed(tag_set_id as int),
                    pairs == tag_sets.pairs(tag_set_id as int),
                    tag_texts(tags@) == named(pairs.take(i as int), interner),
                decreases words@.len() - i,
            {
                let (key, value) = unpack_pair(words[i]);
                let ghost before = tags@;
                proof {
                    assert(pairs.take(i as int + 1).drop_last() =~= pairs.take(i as int));
                    assert(pairs.take(i as int + 1).last() == (key, value));
                }
                match (interner.lookup(key), interner.lookup(value)) {
                    (Some(k), Some(v)) => {
                        tags.push((k, v));
                        assert(tag_texts(tags@) =~= tag_texts(before).push((k@, v@)));
                    },
                    _ => {},
                }
                i = i + 1;
            }
            assert(pairs.take(i as int) =~= pairs);
        },
    }
    tags
}

/// One element that the index probe found, with the bit pattern of its
/// squared distance to the query point. A squared distance is not negative,
/// and the bit patterns of such numbers are ordered as the numbers are.
#[derive(Debug, Clone, Copy)]
pub struct Hit {
    pub element: SpatialElement,
    pub distance: u32,
}

/// One entry of the response.
#[derive(Debug, Clone)]
pub struct ResultElement {
    pub id: u64,
    pub lat1: u32,
    pub lon1: u32,
    pub lat2: u32,
    pub lon2: u32,
    /// `"node"` or `"way"`.
    pub element_type: String,
    pub tags: Vec<(String, String)>,
}

/// The response to a query.
#[derive(Debug, Clone)]
pub struct QueryResponse {
    pub elements: Vec<ResultElement>,
}

/// An entry of the response as plain values.
pub struct ResultView {
    pub id: u64,
    pub lat1: u32,
    pub lon1: u32,
    pub lat2: u32,
    pub lon2: u32,
    pub element_type: Seq<char>,
    pub tags: Seq<(Seq<char>, Seq<char>)>,
}

impl View for ResultElement {
    type V = ResultView;

    open spec fn view(&self) -> ResultView {
        ResultView {
            id: self.id,
            lat1: self.lat1,
            lon1: self.lon1,
            lat2: self.lat2,
            lon2: self.lon2,
            element_type: self.element_type@,
            tags: tag_texts(self.tags@),
        }
    }
}

/// What is reported of an index object.
pub open spec fn described(
    object: SpatialElement,
    tag_sets: &FlatTagSets,
    interner: &StringInterner,
) -> ResultView {
    let from = object.storage->from;
    let to = object.storage->to;
    ResultView {
        id: object.id,
        lat1: from[0],
        lon1: from[1],
        lat2: to[0],
        lon2: to[1],
        element_type: kind_text(from, to),
        tags: tags_of(tag_sets, interner, object.tag_set_id),
    }
}

/// The entry of the response for one index object.
pub fn describe(object: &SpatialElement, tag_sets: &FlatTagSets, interner: &StringInterner) -> (entry:
    ResultElement)
    ensures
        entry@ == described(*object, tag_sets, interner),
{
    let (from, to) = object.endpoints();
    let node = numbers_equal(from[0], to[0]) && numbers_equal(from[1], to[1]);
    let element_type = if node {
        String::from_str("node")
    } else {
        String::from_str("way")
    };
    let tags = resolve_tags(tag_sets, interner, object.tag_set_id);
    ResultElement {
        id: object.id,
        lat1: from[0],
        lon1: from[1],
        lat2: to[0],
        lon2: to[1],
        element_type,
        tags,
    }
}

/// The hits are in ascending order of distance.
pub open spec fn ascending(hits: Seq<Hit>) -> bool {
    forall|i: int, j: int| 0 <= i <= j < hits.len() ==> hits[i].distance <= hits[j].distance
}

/// No hit of `hits` is farther than `limit`.
pub open spec fn within(hits: Seq<Hit>, limit: u32) -> bool {
    forall|k: int| 0 <= k < hits.len() ==> (#[trigger] hits[k]).distance <= limit
}

/// Two ascending runs as one: the hits of both, ascending. Of two hits at the
/// same distance the one from `left` comes first.
fn merge(left: &Vec<Hit>, right: &Vec<Hit>) -> (merged: Vec<Hit>)
    requires
        ascending(left@),
        ascending(right@),
    ensures
        ascending(merged@),
        merged@.to_multiset() == left@.to_multiset().add(right@.to_multiset()),
{
    let mut merged: Vec<Hit> = Vec::new();
    let mut i: usize = 0;
    let mut j: usize = 0;
    proof {
        let none = Seq::<Hit>::empty();
        assert(left@.take(0) =~= none);
        assert(right@.take(0) =~= none);
        assert(merged@ =~= none + none);
        lemma_multiset_commutative(none, none);
    }
    while i < left.len() || j < right.len()
        invariant
            0 <= i <= left@.len(),
            0 <= j <= right@.len(),
            ascending(left@),
            ascending(right@),
            ascending(merged@),
            i < left@.len() ==> within(merged@, left@[i as int].distance),
            j < right@.len() ==> within(merged@, right@[j as int].distance),
            merged@.to_multiset() == left@.take(i as int).to_multiset().add(
                right@.take(j as int).to_multiset(),
            ),
        decreases left@.len() - i + right@.len() - j,
    {
        let from_left = if j >= right.len() {
            true
        } else if i >= left.len() {
            false
        } else {
            left[i].distance <= right[j].distance
        };
        let ghost before = merged@;
        if from_left {
            let hit = left[i];
            merged.push(hit);
            proof {
                assert(left@.take(i as int + 1) =~= left@.take(i as int).push(hit));
                to_multiset_build(before, hit);
                to_multiset_build(left@.take(i as int), hit);
                assert(merged@.to_multiset() =~= left@.take(i as int + 1).to_multiset().add(
                    right@.take(j as int).to_multiset(),
                ));
            }
            i = i + 1;
        } else {
            let hit = right[j];
            merged.push(hit);
            proof {
                assert(right@.take(j as int + 1) =~= right@.take(j as int).push(hit));
                to_multiset_build(before, hit);
                to_multiset_build(right@.take(j as int), hit);
                assert(merged@.to_multiset() =~= left@.take(i as int).to_multiset().add(
                    right@.take(j as int + 1).to_multiset(),
                ));
            }
            j = j + 1;
        }
    }
    proof {
        assert(left@.take(i as int) =~= left@);
        assert(right@.take(j as int) =~= right@);
    }
    merged
}

/// The hits at the positions from `lo` up to `hi`, in ascending order of
/// distance.
fn rank_range(hits: &Vec<Hit>, lo: usize, hi: usize) -> (ranked: Vec<Hit>)
    requires
        lo <= hi <= hits@.len(),
    ensures
        ascending(ranked@),
        ranked@.to_multiset() == hits@.subrange(lo as int, hi as int).to_multiset(),
    decreases hi - lo,
{
    let mut ranked: Vec<Hit> = Vec::new();
    if hi - lo == 0 {
        assert(hits@.subrange(lo as int, hi as int) =~= Seq::<Hit>::empty());
        return ranked;
    }
    if hi - lo == 1 {
        ranked.push(hits[lo]);
        assert(hits@.subrange(lo as int, hi as int) =~= ranked@);
        return ranked;
    }
    let mid: usize = lo + (hi - lo) / 2;
    let left = rank_range(hits, lo, mid);
    let right = rank_range(hits, mid, hi);
    proof {
        let a = hits@.subrange(lo as int, mid as int);
        let b = hits@.subrange(mid as int, hi as int);
        assert(hits@.subrange(lo as int, hi as int) =~= a + b);
        lemma_multiset_commutative(a, b);
    }
    merge(&left, &right)
}

/// The hits in ascending order of distance.
pub fn rank(hits: Vec<Hit>) -> (ranked: Vec<Hit>)
    ensures
        ranked@.to_multiset() == hits@.to_multiset(),
        ranked@.len() == hits@.len(),
        ascending(ranked@),
{
    let ranked = rank_range(&hits, 0, hits.len());
    proof {
        assert(hits@.subrange(0, hits@.len() as int) =~= hits@);
        ranked@.to_multiset_ensures();
        hits@.to_multiset_ensures();
    }
    ranked
}

/// A hit at a smaller distance comes before every hit at a larger one.
pub proof fn law_query_monotonicity(ranked: Seq<Hit>, a: int, b: int)
    requires
        ascending(ranked),
        0 <= a < ranked.len(),
        0 <= b < ranked.len(),
        ranked[a].distance < ranked[b].distance,
    ensures
        a < b,
{
    if b <= a {
        assert(ranked[b].distance <= ranked[a].distance);
    }
}

/// The response for the hits of an index probe: one entry per hit, nearest
/// first.
pub fn respond(hits: Vec<Hit>, tag_sets: &FlatTagSets, interner: &StringInterner) -> (response:
    QueryResponse)
    ensures
        response.elements@.len() == hits@.len(),
        exists|ranked: Seq<Hit>|
            {
                &&& ranked.to_multiset() == hits@.to_multiset()
                &&& ascending(ranked)
                &&& ranked.len() == response.elements@.len()
                &&& forall|i: int|
                    0 <= i < ranked.len() ==> (#[trigger] response.elements@[i])@ == described(
                        ranked[i].element,
                        tag_sets,
                        interner,
                    )
            },
{
    let ranked = rank(hits);
    let mut elements: Vec<ResultElement> = Vec::new();
    let mut i: usize = 0;
    while i < ranked.len()
        invariant
            0 <= i <= ranked@.len(),
            elements@.len() == i,
            forall|j: int|
                0 <= j < i ==> (#[trigger] elements@[j])@ == described(
                    ranked@[j].element,
                    tag_sets,
                    interner,
                ),
        decreases ranked@.len() - i,
    {
        let entry = describe(&ranked[i].element, tag_sets, interner);
        elements.push(entry);
        i = i + 1;
    }
    QueryResponse { elements }
}

} // verus!
