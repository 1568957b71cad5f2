//! `dashmap::DashMap` as the library uses it: from strings and from tag
//! sequences to their ids, from the ids back, and from node ids to the
//! positions that pass 2 collects. Every map is reached
//! through an exclusive reference, so that a contract can relate the contents
//! before and after a call.

use vstd::prelude::*;
use dashmap::DashMap;

verus! {

/// `dashmap::DashMap`, opaque to the verifier.
#[verifier::external_type_specification]
#[verifier::external_body]
#[verifier::reject_recursive_types(K)]
#[verifier::reject_recursive_types(V)]
#[verifier::reject_recursive_types(S)]
pub struct ExDashMap<K, V, S>(DashMap<K, V, S>);

/// The key/value pairs that a string-keyed `DashMap` holds.
pub uninterp spec fn string_ids(m: DashMap<String, u32>) -> Map<Seq<char>, u32>;

/// The key/value pairs that a `DashMap` keyed by tag sequences holds.
pub uninterp spec fn sequence_ids(m: DashMap<Vec<(u32, u32)>, u32>) -> Map<Seq<(u32, u32)>, u32>;

/// `DashMap::new`: a map that holds nothing.
#[verifier::external_body]
pub(crate) fn string_ids_new() -> (m: DashMap<String, u32>)
    ensures
        string_ids(m) == (Map::<Seq<char>, u32>::empty()),
{
    DashMap::new()
}

/// `DashMap::get`: the value stored under `key`, if there is one.
#[verifier::external_body]
pub(crate) fn string_ids_get(m: &DashMap<String, u32>, key: &str) -> (found: Option<u32>)
    ensures
        found == (if string_ids(*m).contains_key(key@) {
            Some(string_ids(*m)[key@])
        } else {
            None
        }),
{
    m.get(key).map(|entry| *entry)
}

/// `DashMap::insert`: stores `value` under `key` and hands back the value it
/// replaced, if any. Every other key keeps its value.
#[verifier::external_body]
pub(crate) fn string_ids_insert(m: &mut DashMap<String, u32>, key: String, value: u32) -> (previous:
    Option<u32>)
    ensures
        string_ids(*final(m)) == string_ids(*old(m)).insert(key@, value),
        previous == (if string_ids(*old(m)).contains_key(key@) {
            Some(string_ids(*old(m))[key@])
        } else {
            None
        }),
{
    m.insert(key, value)
}

/// `DashMap::new`: a map that holds nothing.
#[verifier::external_body]
pub(crate) fn sequence_ids_new() -> (m: DashMap<Vec<(u32, u32)>, u32>)
    ensures
        sequence_ids(m) == (Map::<Seq<(u32, u32)>, u32>::empty()),
{
    DashMap::new()
}

/// `DashMap::get`: the value stored under `key`, if there is one.
#[verifier::external_body]
pub(crate) fn sequence_ids_get(m: &DashMap<Vec<(u32, u32)>, u32>, key: &Vec<(u32, u32)>) -> (found:
    Option<u32>)
    ensures
        found == (if sequence_ids(*m).contains_key(key@) {
            Some(sequence_ids(*m)[key@])
        } else {
            None
        }),
{
    m.get(key).map(|entry| *entry)
}

/// `DashMap::insert`: stores `value` under a copy of `key` and hands back the
/// value it replaced, if any. Every other key keeps its value.
#[verifier::external_body]
pub(crate) fn sequence_ids_insert(
    m: &mut DashMap<Vec<(u32, u32)>, u32>,
    key: &Vec<(u32, u32)>,
    value: u32,
) -> (previous: Option<u32>)
    ensures
        sequence_ids(*final(m)) == sequence_ids(*old(m)).insert(key@, value),
        previous == (if sequence_ids(*old(m)).contains_key(key@) {
            Some(sequence_ids(*old(m))[key@])
        } else {
            None
        }),
{
    m.insert(key.clone(), value)
}

/// The key/value pairs that a `DashMap` from ids to strings holds.
pub uninterp spec fn id_strings(m: DashMap<u32, String>) -> Map<u32, Seq<char>>;

/// The key/value pairs that a `DashMap` from ids to tag sequences holds.
pub uninterp spec fn id_sequences(m: DashMap<u32, Vec<(u32, u32)>>) -> Map<u32, Seq<(u32, u32)>>;

/// `DashMap::new`: a map that holds nothing.
#[verifier::external_body]
pub(crate) fn id_strings_new() -> (m: DashMap<u32, String>)
    ensures
        id_strings(m) == (Map::<u32, Seq<char>>::empty()),
{
    DashMap::new()
}

/// `DashMap::get`: a copy of the value stored under `key`, if there is one.
#[verifier::external_body]
pub(crate) fn id_strings_get(m: &DashMap<u32, String>, key: u32) -> (found: Option<String>)
    ensures
        found is Some <==> id_strings(*m).contains_key(key),
        found is Some ==> found->0@ == id_strings(*m)[key],
{
    m.get(&key).map(|entry| entry.clone())
}

/// `DashMap::insert`: stores `value` under `key`. Every other key keeps its
/// value.
#[verifier::external_body]
pub(crate) fn id_strings_insert(m: &mut DashMap<u32, String>, key: u32, value: String)
    ensures
        id_strings(*final(m)) == id_strings(*old(m)).insert(key, value@),
{
    m.insert(key, value);
}

/// `DashMap::new`: a map that holds nothing.
#[verifier::external_body]
pub(crate) fn id_sequences_new() -> (m: DashMap<u32, Vec<(u32, u32)>>)
    ensures
        id_sequences(m) == (Map::<u32, Seq<(u32, u32)>>::empty()),
{
    DashMap::new()
}

/// `DashMap::get`: a copy of the value stored under `key`, if there is one.
#[verifier::external_body]
pub(crate) fn id_sequences_get(m: &DashMap<u32, Vec<(u32, u32)>>, key: u32) -> (found: Option<
    Vec<(u32, u32)>,
>)
    ensures
        found is Some <==> id_sequences(*m).contains_key(key),
        found is Some ==> found->0@ == id_sequences(*m)[key],
{
    m.get(&key).map(|entry| entry.clone())
}

/// `DashMap::insert`: stores `value` under `key`. Every other key keeps its
/// value.
#[verifier::external_body]
pub(crate) fn id_sequences_insert(
    m: &mut DashMap<u32, Vec<(u32, u32)>>,
    key: u32,
    value: Vec<(u32, u32)>,
)
    ensures
        id_sequences(*final(m)) == id_sequences(*old(m)).insert(key, value@),
{
    m.insert(key, value);
}

/// The key/value pairs that a `DashMap` from node ids to positions holds.
pub uninterp spec fn id_positions(m: DashMap<u64, (u32, u32)>) -> Map<u64, (u32, u32)>;

/// `DashMap::new`: a map that holds nothing.
#[verifier::external_body]
pub(crate) fn id_positions_new() -> (m: DashMap<u64, (u32, u32)>)
    ensures
        id_positions(m) == (Map::<u64, (u32, u32)>::empty()),
{
    DashMap::new()
}

/// `DashMap::insert`: stores `value` under `key`. Every other key keeps its
/// value.
#[verifier::external_body]
pub(crate) fn id_positions_insert(m: &mut DashMap<u64, (u32, u32)>, key: u64, value: (u32, u32))
    ensures
        id_positions(*final(m)) == id_positions(*old(m)).insert(key, value),
{
    m.insert(key, value);
}

/// `DashMap::iter`, collected: every pair that the map holds, and no other,
/// in an order that is not said.
#[verifier::external_body]
pub(crate) fn id_positions_entries(m: &DashMap<u64, (u32, u32)>) -> (entries: Vec<
    (u64, (u32, u32)),
>)
    ensures
        forall|i: int|
            0 <= i < entries@.len() ==> id_positions(*m).contains_key((#[trigger] entries@[i]).0)
                && id_positions(*m)[entries@[i].0] == entries@[i].1,
        forall|k: u64| #[trigger]
            id_positions(*m).contains_key(k) ==> exists|i: int|
                0 <= i < entries@.len() && (#[trigger] entries@[i]).0 == k,
{
    m.iter().map(|entry| (*entry.key(), *entry.value())).collect()
}

} // verus!
