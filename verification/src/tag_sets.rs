//! Interning of tag sequences, and their materialisation into the flattened
//! store.
//!
//! Two sequences are the same tag set when they are equal pair by pair, in
//! order. The passes emit pairs in configuration order, so equal tags give
//! equal sequences.

use vstd::prelude::*;
use dashmap::DashMap;
use crate::dash::{id_sequences, id_sequences_get, id_sequences_insert, id_sequences_new,
    sequence_ids, sequence_ids_get, sequence_ids_insert, sequence_ids_new};
use crate::model::{FlatTagSets, id_of, interned, lemma_id_of, lemma_unpack_all_pack_all, pack_all,
    pack_pair};

verus! {

/// The number of pairs in all the sequences of `sets` together.
pub open spec fn total_pairs(sets: Seq<Seq<(u32, u32)>>) -> nat
    decreases sets.len(),
{
    if sets.len() == 0 {
        0
    } else {
        total_pairs(sets.drop_last()) + sets.last().len()
    }
}

/// A prefix never holds more pairs than the whole.
pub proof fn lemma_total_pairs_prefix(sets: Seq<Seq<(u32, u32)>>, n: int)
    requires
        0 <= n <= sets.len(),
    ensures
        total_pairs(sets.take(n)) <= total_pairs(sets),
        n < sets.len() ==> total_pairs(sets.take(n + 1)) == total_pairs(sets.take(n))
            + sets[n].len(),
    decreases sets.len() - n,
{
    if n == sets.len() {
        assert(sets.take(n) =~= sets);
    } else {
        assert(sets.take(n + 1).drop_last() =~= sets.take(n));
        lemma_total_pairs_prefix(sets, n + 1);
    }
}

/// The packed pairs of the tag sets of `sets`, back to back in id order.
pub open spec fn data_of(sets: Seq<Seq<(u32, u32)>>) -> Seq<u64>
    decreases sets.len(),
{
    if sets.len() == 0 {
        Seq::empty()
    } else {
        data_of(sets.drop_last()) + pack_all(sets.last())
    }
}

/// The data of a list of tag sets holds one word per pair.
pub proof fn lemma_data_of_len(sets: Seq<Seq<(u32, u32)>>)
    ensures
        data_of(sets).len() == total_pairs(sets),
    decreases sets.len(),
{
    if sets.len() > 0 {
        lemma_data_of_len(sets.drop_last());
    }
}

impl FlatTagSets {
    /// The store holds `sets` without gaps: `data` is the packed pairs of
    /// the tag sets in id order, each offset is where the pairs before it
    /// end, and each length is the number of pairs of its tag set.
    pub open spec fn holds_exactly(&self, sets: Seq<Seq<(u32, u32)>>) -> bool {
        &&& self.data@ == data_of(sets)
        &&& self.offsets@.len() == sets.len()
        &&& self.lengths@.len() == sets.len()
        &&& forall|k: int|
            0 <= k < sets.len() ==> (#[trigger] self.offsets@[k]) == total_pairs(sets.take(k))
        &&& forall|k: int| 0 <= k < sets.len() ==> (#[trigger] self.lengths@[k]) == sets[k].len()
    }

    /// In a store without gaps the first tag set starts at 0, every other
    /// tag set starts where the one before it ends, and `data` ends with the
    /// last tag set.
    pub proof fn law_layout_is_contiguous(&self, sets: Seq<Seq<(u32, u32)>>)
        requires
            self.holds_exactly(sets),
        ensures
            sets.len() > 0 ==> self.offsets@[0] == 0,
            forall|k: int|
                0 <= k && k + 1 < sets.len() ==> (#[trigger] self.offsets@[k + 1])
                    == self.offsets@[k] + self.lengths@[k],
            self.data@.len() == total_pairs(sets),
    {
        lemma_data_of_len(sets);
        if sets.len() > 0 {
            assert(sets.take(0) =~= Seq::<Seq<(u32, u32)>>::empty());
        }
        assert forall|k: int| 0 <= k && k + 1 < sets.len() implies (#[trigger] self.offsets@[k
            + 1]) == self.offsets@[k] + self.lengths@[k] by {
            lemma_total_pairs_prefix(sets, k);
        }
    }

    /// Appends one tag set at the end of `data`; the tag sets that were there
    /// stay where they were and keep their ids.
    pub fn push_set(&mut self, pairs: &[(u32, u32)])
        requires
            old(self).wf(),
            old(self).data@.len() + pairs@.len() <= u32::MAX,
        ensures
            final(self).wf(),
            final(self).tag_sets() == old(self).tag_sets().push(pairs@),
            final(self).data@ == old(self).data@ + pack_all(pairs@),
            final(self).offsets@ == old(self).offsets@.push(old(self).data@.len() as u32),
            final(self).lengths@ == old(self).lengths@.push(pairs@.len() as u32),
    {
        let start: usize = self.data.len();
        let count: usize = pairs.len();
        let mut i: usize = 0;
        while i < count
            invariant
                0 <= i <= count,
                count == pairs@.len(),
                start == old(self).data@.len(),
                self.offsets == old(self).offsets,
                self.lengths == old(self).lengths,
                self.data@ == old(self).data@ + pack_all(pairs@.take(i as int)),
            decreases count - i,
        {
            let (key, value) = pairs[i];
            self.data.push(pack_pair(key, value));
            assert(self.data@ =~= old(self).data@ + pack_all(pairs@.take(i as int + 1)));
            i = i + 1;
        }
        self.offsets.push(start as u32);
        self.lengths.push(count as u32);
        proof {
            assert(pairs@.take(count as int) =~= pairs@);
            let n = old(self).offsets@.len() as int;
            assert forall|j: int| 0 <= j < n + 1 implies self.in_bounds(j) && #[trigger] self.pairs(
                j,
            ) == (if j < n {
                old(self).pairs(j)
            } else {
                pairs@
            }) by {
                if j < n {
                    assert(old(self).in_bounds(j));
                    assert(self.packed(j) =~= old(self).packed(j));
                } else {
                    assert(self.packed(j) =~= pack_all(pairs@));
                    lemma_unpack_all_pack_all(pairs@);
                }
            }
            assert forall|j: int| 0 <= j < n + 1 implies #[trigger] self.in_bounds(j) by {
                assert(self.pairs(j) == self.pairs(j));
            }
            assert(self.tag_sets() =~= old(self).tag_sets().push(pairs@));
        }
    }
}

/// The write form of the tag-set table, used while the passes run.
pub struct TagSetInterner {
    map: DashMap<Vec<(u32, u32)>, u32>,
    reverse: DashMap<u32, Vec<(u32, u32)>>,
    next_id: u32,
    stored: u32,
}

impl TagSetInterner {
    /// The interned tag sequences by id.
    pub closed spec fn sets(&self) -> Seq<Seq<(u32, u32)>> {
        Seq::new(self.next_id as nat, |i: int| id_sequences(self.reverse)[i as u32])
    }

    /// The two directions agree, ids are dense, and all pairs together can be
    /// addressed with 32-bit offsets.
    pub closed spec fn wf(&self) -> bool {
        &&& forall|i: int|
            0 <= i < self.next_id ==> #[trigger] id_sequences(self.reverse).contains_key(i as u32)
        &&& self.stored == total_pairs(self.sets())
        &&& forall|i: int|
            0 <= i < self.sets().len() ==> sequence_ids(self.map).contains_key(
                #[trigger] self.sets()[i],
            ) && sequence_ids(self.map)[self.sets()[i]] == i
        &&& forall|k: Seq<(u32, u32)>| #[trigger]
            sequence_ids(self.map).contains_key(k) ==> self.sets().contains(k)
    }

    /// There is an id left for a new sequence and its pairs still fit.
    pub open spec fn room_for(&self, pairs: Seq<(u32, u32)>) -> bool {
        &&& self.sets().len() < u32::MAX
        &&& total_pairs(self.sets()) + pairs.len() <= u32::MAX
    }

    /// No tag sequence has two ids, and the counts stay within 32 bits.
    pub proof fn lemma_sets_are_distinct(&self)
        requires
            self.wf(),
        ensures
            self.sets().no_duplicates(),
            self.sets().len() <= u32::MAX,
            total_pairs(self.sets()) <= u32::MAX,
    {
        let t = self.sets();
        assert forall|i: int, j: int| 0 <= i < t.len() && 0 <= j < t.len() && i != j implies t[i]
            != t[j] by {
            if t[i] == t[j] {
                assert(sequence_ids(self.map)[t[i]] == i);
                assert(sequence_ids(self.map)[t[j]] == j);
            }
        }
    }

    /// An empty table.
    pub fn new() -> (table: TagSetInterner)
        ensures
            table.wf(),
            table.sets() == Seq::<Seq<(u32, u32)>>::empty(),
    {
        let table = TagSetInterner {
            map: sequence_ids_new(),
            reverse: id_sequences_new(),
            next_id: 0,
            stored: 0,
        };
        assert(table.sets() =~= Seq::<Seq<(u32, u32)>>::empty());
        table
    }

    /// How many tag sets are interned.
    pub fn len(&self) -> (n: usize)
        requires
            self.wf(),
        ensures
            n == self.sets().len(),
    {
        self.next_id as usize
    }

    /// How many more tag sets can get an id.
    pub fn spare_ids(&self) -> (spare: u32)
        requires
            self.wf(),
        ensures
            spare == u32::MAX - self.sets().len(),
    {
        u32::MAX - self.next_id
    }

    /// Whether a sequence of `pairs` pairs can still be interned.
    pub fn has_room_for(&self, pairs: usize) -> (room: bool)
        requires
            self.wf(),
        ensures
            room == (self.sets().len() < u32::MAX && total_pairs(self.sets()) + pairs
                <= u32::MAX),
    {
        self.next_id < u32::MAX && pairs <= (u32::MAX - self.stored) as usize
    }

    /// The id of the tag sequence `pairs`, assigning the next free id if the
    /// sequence is new.
    pub fn intern(&mut self, pairs: Vec<(u32, u32)>) -> (id: u32)
        requires
            old(self).wf(),
            old(self).sets().contains(pairs@) || old(self).room_for(pairs@),
        ensures
            final(self).wf(),
            final(self).sets() == interned(old(self).sets(), pairs@),
            id == id_of(old(self).sets(), pairs@),
    {
        match sequence_ids_get(&self.map, &pairs) {
            Some(id) => {
                proof {
                    let i = choose|i: int| 0 <= i < self.sets().len() && self.sets()[i] == pairs@;
                    assert(sequence_ids(self.map)[self.sets()[i]] == i);
                    self.lemma_sets_are_distinct();
                    lemma_id_of(self.sets(), pairs@, i);
                }
                return id;
            },
            None => {},
        }
        proof {
            if self.sets().contains(pairs@) {
                let i = choose|i: int| 0 <= i < self.sets().len() && self.sets()[i] == pairs@;
                assert(sequence_ids(self.map).contains_key(self.sets()[i]));
            }
        }
        let id: u32 = self.next_id;
        let count: usize = pairs.len();
        sequence_ids_insert(&mut self.map, &pairs, id);
        id_sequences_insert(&mut self.reverse, id, pairs);
        self.next_id = id + 1;
        self.stored = self.stored + count as u32;
        proof {
            let before = old(self).sets();
            assert(self.sets() =~= before.push(pairs@));
            assert(self.sets().drop_last() =~= before);
            assert forall|k: Seq<(u32, u32)>| #[trigger]
                sequence_ids(self.map).contains_key(k) implies self.sets().contains(k) by {
                if k == pairs@ {
                    assert(self.sets()[id as int] == pairs@);
                } else {
                    assert(before.contains(k));
                    let i = choose|i: int| 0 <= i < before.len() && before[i] == k;
                    assert(self.sets()[i] == k);
                }
            }
        }
        id
    }

    /// The flattened store with the same tag sets under the same ids.
    pub fn flatten(&self) -> (flat: FlatTagSets)
        requires
            self.wf(),
        ensures
            flat.wf(),
            flat.tag_sets() == self.sets(),
            flat.tag_sets().no_duplicates(),
            flat.holds_exactly(self.sets()),
    {
        let mut flat = FlatTagSets::new();
        let n: u32 = self.next_id;
        let mut i: u32 = 0;
        proof {
            self.lemma_sets_are_distinct();
            assert(self.sets().take(0) =~= Seq::<Seq<(u32, u32)>>::empty());
            assert(flat.tag_sets().len() == 0);
            assert(flat.data@ =~= data_of(self.sets().take(0)));
        }
        while i < n
            invariant
                self.wf(),
                n == self.sets().len(),
                0 <= i <= n,
                total_pairs(self.sets()) <= u32::MAX,
                flat.wf(),
                flat.tag_sets() == self.sets().take(i as int),
                flat.holds_exactly(self.sets().take(i as int)),
            decreases n - i,
        {
            let ghost before = flat;
            proof {
                let t = self.sets();
                lemma_total_pairs_prefix(t, i as int);
                lemma_total_pairs_prefix(t, i as int + 1);
                lemma_data_of_len(t.take(i as int));
                assert(t.take(i as int).push(t[i as int]) =~= t.take(i as int + 1));
            }
            match id_sequences_get(&self.reverse, i) {
                Some(pairs) => {
                    assert(pairs@ == self.sets()[i as int]);
                    flat.push_set(pairs.as_slice());
                },
                None => {
                    assert(id_sequences(self.reverse).contains_key(i as u32));
                },
            }
            proof {
                let t = self.sets();
                let now = t.take(i as int + 1);
                assert(now.drop_last() =~= t.take(i as int));
                assert(now.last() == t[i as int]);
                assert forall|k: int| 0 <= k < now.len() implies (#[trigger] flat.offsets@[k])
                    == total_pairs(now.take(k)) && flat.lengths@[k] == now[k].len() by {
                    assert(now.take(k) =~= t.take(k));
                    if k < i {
                        assert(t.take(i as int).take(k) =~= t.take(k));
                        assert(flat.offsets@[k] == before.offsets@[k]);
                        assert(flat.lengths@[k] == before.lengths@[k]);
                    }
                }
            }
            i = i + 1;
        }
        assert(self.sets().take(n as int) =~= self.sets());
        flat
    }
}

} // verus!
