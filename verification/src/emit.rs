//! Pass 3 for one record: interning the selected tags and emitting elements.

use vstd::prelude::*;
use vstd::utf8::*;
use crate::config::Filters;
use crate::fx::CoordTable;
use crate::model::{ConcurrentInterner, Element, FlatTagSets, StringInterner, id_of, interned,
    lemma_interned, total_bytes};
use crate::passes::{config_keys, emit_segments, found_pairs, is_selected, node_element,
    pair_count, segments, selects, skipped_pairs, law_way_geometry};
use crate::records::{Record, Tag, key_texts, lemma_selected_concat, pick_from, picked, selected};
use crate::tag_sets::{TagSetInterner, total_pairs};

verus! {

/// The bytes that the keys and values of `sel` take when encoded.
pub open spec fn sel_bytes(sel: Seq<(Seq<char>, Seq<char>)>) -> nat
    decreases sel.len(),
{
    if sel.len() == 0 {
        0
    } else {
        sel_bytes(sel.drop_last()) + encode_utf8(sel.last().0).len() + encode_utf8(
            sel.last().1,
        ).len()
    }
}

/// The string table after the keys and values of `sel` have been interned,
/// pair by pair, the key before the value.
pub open spec fn table_after(table: Seq<Seq<char>>, sel: Seq<(Seq<char>, Seq<char>)>) -> Seq<
    Seq<char>,
>
    decreases sel.len(),
{
    if sel.len() == 0 {
        table
    } else {
        let before = table_after(table, sel.drop_last());
        interned(interned(before, sel.last().0), sel.last().1)
    }
}

/// The ids that the keys and values of `sel` get when they are interned into
/// `table`, pair by pair.
pub open spec fn pair_ids(table: Seq<Seq<char>>, sel: Seq<(Seq<char>, Seq<char>)>) -> Seq<
    (u32, u32),
>
    decreases sel.len(),
{
    if sel.len() == 0 {
        Seq::empty()
    } else {
        let before = table_after(table, sel.drop_last());
        pair_ids(table, sel.drop_last()).push(
            (
                id_of(before, sel.last().0) as u32,
                id_of(interned(before, sel.last().0), sel.last().1) as u32,
            ),
        )
    }
}

/// Both tables can take everything that `sel` may add: two new strings and
/// their bytes for each pair, and one tag set with its pairs.
pub open spec fn has_spare(
    table: Seq<Seq<char>>,
    sets: Seq<Seq<(u32, u32)>>,
    sel: Seq<(Seq<char>, Seq<char>)>,
) -> bool {
    &&& table.len() + 2 * sel.len() <= u32::MAX
    &&& total_bytes(table) + sel_bytes(sel) <= u32::MAX
    &&& sets.len() < u32::MAX
    &&& total_pairs(sets) + sel.len() <= u32::MAX
}

/// One more pair, spelled out.
pub proof fn lemma_sel_step(table: Seq<Seq<char>>, sel: Seq<(Seq<char>, Seq<char>)>, j: int)
    requires
        0 <= j < sel.len(),
    ensures
        ({
            let before = table_after(table, sel.take(j));
            &&& table_after(table, sel.take(j + 1)) == interned(
                interned(before, sel[j].0),
                sel[j].1,
            )
            &&& pair_ids(table, sel.take(j + 1)) == pair_ids(table, sel.take(j)).push(
                (id_of(before, sel[j].0) as u32, id_of(interned(before, sel[j].0), sel[j].1) as u32),
            )
            &&& sel_bytes(sel.take(j + 1)) == sel_bytes(sel.take(j)) + encode_utf8(sel[j].0).len()
                + encode_utf8(sel[j].1).len()
        }),
{
    assert(sel.take(j + 1).drop_last() =~= sel.take(j));
    assert(sel.take(j + 1).last() == sel[j]);
}

/// A prefix of a selection never takes more bytes than the selection.
pub proof fn lemma_sel_bytes_prefix(sel: Seq<(Seq<char>, Seq<char>)>, j: int)
    requires
        0 <= j <= sel.len(),
    ensures
        sel_bytes(sel.take(j)) <= sel_bytes(sel),
    decreases sel.len() - j,
{
    if j == sel.len() {
        assert(sel.take(j) =~= sel);
    } else {
        assert(sel.take(j + 1).drop_last() =~= sel.take(j));
        assert(sel.take(j + 1).last() == sel[j]);
        lemma_sel_bytes_prefix(sel, j + 1);
    }
}

/// Interning one string adds at most its bytes.
pub proof fn lemma_interned_bytes(table: Seq<Seq<char>>, s: Seq<char>)
    ensures
        total_bytes(interned(table, s)) <= total_bytes(table) + encode_utf8(s).len(),
{
    if !table.contains(s) {
        assert(table.push(s).drop_last() =~= table);
    }
}

/// Interning a selection keeps the table free of repetitions and keeps every
/// id; it adds at most two strings per pair and at most the selection's
/// bytes; and every id it hands out is an id of the resulting table.
pub proof fn lemma_table_after(table: Seq<Seq<char>>, sel: Seq<(Seq<char>, Seq<char>)>)
    requires
        table.no_duplicates(),
    ensures
        table_after(table, sel).no_duplicates(),
        table.len() <= table_after(table, sel).len() <= table.len() + 2 * sel.len(),
        total_bytes(table_after(table, sel)) <= total_bytes(table) + sel_bytes(sel),
        forall|i: int| 0 <= i < table.len() ==> table_after(table, sel)[i] == table[i],
        pair_ids(table, sel).len() == sel.len(),
        table.len() + 2 * sel.len() <= u32::MAX ==> forall|j: int|
            0 <= j < sel.len() ==> {
                let pair = #[trigger] pair_ids(table, sel)[j];
                &&& pair.0 < table_after(table, sel).len()
                &&& pair.1 < table_after(table, sel).len()
                &&& table_after(table, sel)[pair.0 as int] == sel[j].0
                &&& table_after(table, sel)[pair.1 as int] == sel[j].1
            },
    decreases sel.len(),
{
    if sel.len() > 0 {
        let front = sel.drop_last();
        lemma_table_after(table, front);
        let before = table_after(table, front);
        let mid = interned(before, sel.last().0);
        let after = interned(mid, sel.last().1);
        lemma_interned(before, sel.last().0);
        lemma_interned(mid, sel.last().1);
        lemma_interned_bytes(before, sel.last().0);
        lemma_interned_bytes(mid, sel.last().1);
        if table.len() + 2 * sel.len() <= u32::MAX {
            assert forall|j: int| 0 <= j < sel.len() implies {
                let pair = #[trigger] pair_ids(table, sel)[j];
                &&& pair.0 < after.len()
                &&& pair.1 < after.len()
                &&& after[pair.0 as int] == sel[j].0
                &&& after[pair.1 as int] == sel[j].1
            } by {
                if j < front.len() {
                    let pair = pair_ids(table, front)[j];
                    assert(pair_ids(table, sel)[j] == pair);
                    assert(front[j] == sel[j]);
                    assert(mid[pair.0 as int] == before[pair.0 as int]);
                    assert(after[pair.0 as int] == mid[pair.0 as int]);
                    assert(mid[pair.1 as int] == before[pair.1 as int]);
                    assert(after[pair.1 as int] == mid[pair.1 as int]);
                } else {
                    assert(sel[j] == sel.last());
                    assert(after[id_of(before, sel.last().0)] == mid[id_of(before, sel.last().0)]);
                }
            }
        }
    }
}

/// The bytes that the picked tags take, if that is at most `limit`.
pub(crate) fn picked_bytes(tags: &Vec<Tag>, picks: &Vec<usize>, limit: u32) -> (total: Option<u32>)
    requires
        forall|j: int| 0 <= j < picks@.len() ==> (#[trigger] picks@[j]) < tags@.len(),
    ensures
        total is Some <==> sel_bytes(picked(tags@, picks@)) <= limit,
        total is Some ==> total->0 == sel_bytes(picked(tags@, picks@)),
{
    let ghost sel = picked(tags@, picks@);
    let mut sum: u32 = 0;
    let mut j: usize = 0;
    assert(sel.take(0) =~= Seq::<(Seq<char>, Seq<char>)>::empty());
    while j < picks.len()
        invariant
            0 <= j <= picks@.len(),
            sel == picked(tags@, picks@),
            forall|i: int| 0 <= i < picks@.len() ==> (#[trigger] picks@[i]) < tags@.len(),
            sum == sel_bytes(sel.take(j as int)),
            sum <= limit,
        decreases picks@.len() - j,
    {
        let tag = &tags[picks[j]];
        let key_len: usize = tag.key.as_str().as_bytes().len();
        let value_len: usize = tag.value.as_str().as_bytes().len();
        proof {
            lemma_sel_step(Seq::empty(), sel, j as int);
            lemma_sel_bytes_prefix(sel, j as int + 1);
        }
        let left: usize = (limit - sum) as usize;
        if key_len > left || value_len > left - key_len {
            return None;
        }
        sum = sum + key_len as u32 + value_len as u32;
        j = j + 1;
    }
    assert(sel.take(j as int) =~= sel);
    Some(sum)
}

/// Interns the key and the value of each picked tag, in order, and gives the
/// ids pair by pair.
pub(crate) fn intern_picked(tags: &Vec<Tag>, picks: &Vec<usize>, interner: &mut ConcurrentInterner) -> (ids:
    Vec<(u32, u32)>)
    requires
        old(interner).wf(),
        forall|j: int| 0 <= j < picks@.len() ==> (#[trigger] picks@[j]) < tags@.len(),
        old(interner).strings().len() + 2 * picks@.len() <= u32::MAX,
        total_bytes(old(interner).strings()) + sel_bytes(picked(tags@, picks@)) <= u32::MAX,
    ensures
        final(interner).wf(),
        final(interner).strings() == table_after(
            old(interner).strings(),
            picked(tags@, picks@),
        ),
        ids@ == pair_ids(old(interner).strings(), picked(tags@, picks@)),
{
    let ghost sel = picked(tags@, picks@);
    let ghost start = interner.strings();
    let mut ids: Vec<(u32, u32)> = Vec::new();
    let mut j: usize = 0;
    proof {
        assert(sel.take(0) =~= Seq::<(Seq<char>, Seq<char>)>::empty());
        interner.lemma_strings_are_distinct();
    }
    while j < picks.len()
        invariant
            0 <= j <= picks@.len(),
            sel == picked(tags@, picks@),
            start == old(interner).strings(),
            start.no_duplicates(),
            forall|i: int| 0 <= i < picks@.len() ==> (#[trigger] picks@[i]) < tags@.len(),
            start.len() + 2 * picks@.len() <= u32::MAX,
            total_bytes(start) + sel_bytes(sel) <= u32::MAX,
            interner.wf(),
            interner.strings() == table_after(start, sel.take(j as int)),
            ids@ == pair_ids(start, sel.take(j as int)),
        decreases picks@.len() - j,
    {
        let tag = &tags[picks[j]];
        proof {
            lemma_sel_step(start, sel, j as int);
            lemma_sel_bytes_prefix(sel, j as int + 1);
            lemma_table_after(start, sel.take(j as int));
            let before = table_after(start, sel.take(j as int));
            lemma_interned(before, sel[j as int].0);
            lemma_interned_bytes(before, sel[j as int].0);
        }
        let key_id = interner.get_or_intern(tag.key.as_str());
        let value_id = interner.get_or_intern(tag.value.as_str());
        ids.push((key_id, value_id));
        j = j + 1;
    }
    assert(sel.take(j as int) =~= sel);
    ids
}

/// Why a pass stopped.
#[derive(Debug, Clone, Copy, PartialEq, Eq)]
pub enum PipelineError {
    /// The string table or the tag-set table cannot take what a record may
    /// add without leaving 32-bit ids and offsets.
    IdSpaceExhausted,
}

impl PipelineError {
    /// The error in words.
    pub fn message(&self) -> (text: String)
        ensures
            text@ == "the string or tag-set table has no room left for the tags of a record"@,
    {
        match self {
            PipelineError::IdSpaceExhausted => String::from_str(
                "the string or tag-set table has no room left for the tags of a record",
            ),
        }
    }
}

/// What pass 3 has produced: the string table, the tag sets, the elements.
pub struct Emission {
    pub table: Seq<Seq<char>>,
    pub sets: Seq<Seq<(u32, u32)>>,
    pub elements: Seq<Element>,
}

/// Nothing is interned twice, every element refers to a tag set, and every
/// pair of every tag set refers to two strings.
pub open spec fn emission_ok(e: Emission) -> bool {
    &&& e.table.no_duplicates()
    &&& e.sets.no_duplicates()
    &&& forall|i: int| 0 <= i < e.elements.len() ==> (#[trigger] e.elements[i]).tag_set_id
        < e.sets.len()
    &&& forall|s: int, p: int|
        0 <= s < e.sets.len() && 0 <= p < e.sets[s].len() ==> (#[trigger] e.sets[s][p]).0
            < e.table.len() && e.sets[s][p].1 < e.table.len()
}

/// The tag pairs that the configuration selects from the record.
pub open spec fn selection(record: Record, filters: &Filters) -> Seq<(Seq<char>, Seq<char>)> {
    selected(record.tags(), config_keys(filters))
}

/// Pass 3 for one record, as a function of what was produced before.
///
/// A record that is not selected changes nothing. A selected record has its
/// selected tags interned, key before value, in configuration order, and the
/// resulting sequence of id pairs interned as its tag set; a node then gives
/// one element, a way one element per pair of known positions. `None` where
/// the tables lack the spare room.
pub open spec fn emit_step(
    before: Emission,
    record: Record,
    filters: &Filters,
    coords: Map<u64, (u32, u32)>,
) -> Option<Emission> {
    if !is_selected(record, filters) {
        Some(before)
    } else {
        let sel = selection(record, filters);
        if !has_spare(before.table, before.sets, sel) {
            None
        } else {
            let table = table_after(before.table, sel);
            let pairs = pair_ids(before.table, sel);
            let sets = interned(before.sets, pairs);
            let tag_set_id = id_of(before.sets, pairs) as u32;
            match record {
                Record::Node { id, lat, lon, .. } => Some(
                    Emission {
                        table,
                        sets,
                        elements: before.elements.push(node_element(id, lat, lon, tag_set_id)),
                    },
                ),
                Record::Way { id, refs, .. } => Some(
                    Emission {
                        table,
                        sets,
                        elements: before.elements + segments(
                            id,
                            refs@,
                            coords,
                            tag_set_id,
                            pair_count(refs@),
                        ),
                    },
                ),
                Record::Other => Some(before),
            }
        }
    }
}

/// The segments of the record that pass 3 skips for want of a position.
pub open spec fn skipped_by(record: Record, filters: &Filters, coords: Map<u64, (u32, u32)>) -> nat {
    match record {
        Record::Way { refs, .. } => if is_selected(record, filters) {
            skipped_pairs(refs@, coords, pair_count(refs@))
        } else {
            0
        },
        _ => 0,
    }
}

/// A step of pass 3 keeps what was produced sound.
pub proof fn lemma_emit_step_ok(
    before: Emission,
    record: Record,
    filters: &Filters,
    coords: Map<u64, (u32, u32)>,
)
    requires
        emission_ok(before),
        emit_step(before, record, filters, coords) is Some,
    ensures
        emission_ok(emit_step(before, record, filters, coords)->0),
{
    if is_selected(record, filters) {
        let sel = selection(record, filters);
        let table = table_after(before.table, sel);
        let pairs = pair_ids(before.table, sel);
        let sets = interned(before.sets, pairs);
        let tag_set_id = id_of(before.sets, pairs) as u32;
        let after = emit_step(before, record, filters, coords)->0;
        lemma_table_after(before.table, sel);
        lemma_interned(before.sets, pairs);
        assert forall|s: int, p: int| 0 <= s < sets.len() && 0 <= p < sets[s].len() implies (
        #[trigger] sets[s][p]).0 < table.len() && sets[s][p].1 < table.len() by {
            if s < before.sets.len() {
                assert(sets[s] == before.sets[s]);
                assert(before.sets[s][p].0 < before.table.len());
            } else {
                assert(sets[s] == pairs);
                assert(pair_ids(before.table, sel)[p].0 < table.len());
            }
        }
        match record {
            Record::Node { id, lat, lon, .. } => {
                assert forall|i: int| 0 <= i < after.elements.len() implies (
                #[trigger] after.elements[i]).tag_set_id < sets.len() by {
                    if i < before.elements.len() {
                        assert(after.elements[i] == before.elements[i]);
                    }
                }
            },
            Record::Way { id, refs, .. } => {
                law_way_geometry(id, refs@, coords, tag_set_id, pair_count(refs@));
                let segs = segments(id, refs@, coords, tag_set_id, pair_count(refs@));
                assert forall|i: int| 0 <= i < after.elements.len() implies (
                #[trigger] after.elements[i]).tag_set_id < sets.len() by {
                    if i < before.elements.len() {
                        assert(after.elements[i] == before.elements[i]);
                    } else {
                        assert(after.elements[i] == segs[i - before.elements.len()]);
                    }
                }
            },
            Record::Other => {},
        }
    }
}

/// The state of pass 3: the two write-form tables and the elements emitted
/// so far.
pub struct Emitter {
    interner: ConcurrentInterner,
    tag_sets: TagSetInterner,
    elements: Vec<Element>,
}

impl View for Emitter {
    type V = Emission;

    closed spec fn view(&self) -> Emission {
        Emission {
            table: self.interner.strings(),
            sets: self.tag_sets.sets(),
            elements: self.elements@,
        }
    }
}

impl Emitter {
    /// Both tables are consistent and what was produced is sound.
    pub closed spec fn wf(&self) -> bool {
        &&& self.interner.wf()
        &&& self.tag_sets.wf()
        &&& emission_ok(self@)
    }

    /// Nothing interned, nothing emitted.
    pub fn new() -> (emitter: Emitter)
        ensures
            emitter.wf(),
            emitter@.table == Seq::<Seq<char>>::empty(),
            emitter@.sets == Seq::<Seq<(u32, u32)>>::empty(),
            emitter@.elements == Seq::<Element>::empty(),
    {
        Emitter {
            interner: ConcurrentInterner::new(),
            tag_sets: TagSetInterner::new(),
            elements: Vec::new(),
        }
    }

    /// What is sound as a whole is sound in what it has produced.
    pub proof fn lemma_wf(&self)
        requires
            self.wf(),
        ensures
            emission_ok(self@),
    {
    }

    /// The elements emitted so far.
    pub fn elements(&self) -> (elements: &Vec<Element>)
        ensures
            elements@ == self@.elements,
    {
        &self.elements
    }

    /// The string table as it stands.
    pub fn interner(&self) -> (interner: &ConcurrentInterner)
        requires
            self.wf(),
        ensures
            interner.wf(),
            interner.strings() == self@.table,
    {
        &self.interner
    }

    /// The tag-set table as it stands.
    pub fn tag_sets(&self) -> (tag_sets: &TagSetInterner)
        requires
            self.wf(),
        ensures
            tag_sets.wf(),
            tag_sets.sets() == self@.sets,
    {
        &self.tag_sets
    }

    /// Interns the tags that the configuration selects from `tags` and the
    /// tag set they form; gives the id of the tag set.
    fn intern_tags(&mut self, tags: &Vec<Tag>, filters: &Filters) -> (outcome: Result<
        u32,
        PipelineError,
    >)
        requires
            old(self).wf(),
        ensures
            final(self).wf(),
            final(self).elements@ == old(self).elements@,
            ({
                let sel = selected(tags@, config_keys(filters));
                let pairs = pair_ids(old(self)@.table, sel);
                if has_spare(old(self)@.table, old(self)@.sets, sel) {
                    &&& outcome is Ok
                    &&& outcome->Ok_0 == id_of(old(self)@.sets, pairs)
                    &&& final(self)@.table == table_after(old(self)@.table, sel)
                    &&& final(self)@.sets == interned(old(self)@.sets, pairs)
                } else {
                    &&& outcome == Err::<u32, PipelineError>(PipelineError::IdSpaceExhausted)
                    &&& final(self)@ == old(self)@
                }
            }),
    {
        let ghost sel = selected(tags@, config_keys(filters));
        let mut picks: Vec<usize> = Vec::new();
        pick_from(tags, &filters.primary_keys, &mut picks);
        let ghost first = picks@;
        pick_from(tags, &filters.attribute_keys, &mut picks);
        proof {
            lemma_selected_concat(
                tags@,
                key_texts(filters.primary_keys@),
                key_texts(filters.attribute_keys@),
            );
            assert(picked(tags@, Seq::<usize>::empty()) =~= Seq::<
                (Seq<char>, Seq<char>),
            >::empty());
            assert(picked(tags@, first) =~= selected(tags@, key_texts(filters.primary_keys@)));
            assert(picked(tags@, picks@) == sel);
            assert(picked(tags@, picks@).len() == picks@.len());
            self.interner.lemma_strings_are_distinct();
            self.tag_sets.lemma_sets_are_distinct();
            lemma_table_after(self@.table, sel);
        }
        let count: usize = picks.len();
        let spare: u32 = self.interner.spare_ids();
        if count > (spare / 2) as usize {
            return Err(PipelineError::IdSpaceExhausted);
        }
        match picked_bytes(tags, &picks, self.interner.spare_bytes()) {
            None => {
                return Err(PipelineError::IdSpaceExhausted);
            },
            Some(_) => {},
        }
        if !self.tag_sets.has_room_for(count) {
            return Err(PipelineError::IdSpaceExhausted);
        }
        let pairs = intern_picked(tags, &picks, &mut self.interner);
        let ghost pair_seq = pairs@;
        let id = self.tag_sets.intern(pairs);
        proof {
            lemma_interned(old(self)@.sets, pair_seq);
            let before = old(self)@;
            let after = self@;
            assert forall|s: int, p: int|
                0 <= s < after.sets.len() && 0 <= p < after.sets[s].len() implies (
            #[trigger] after.sets[s][p]).0 < after.table.len() && after.sets[s][p].1
                < after.table.len() by {
                if s < before.sets.len() {
                    assert(after.sets[s] == before.sets[s]);
                    assert(before.sets[s][p].0 < before.table.len());
                } else {
                    assert(after.sets[s] == pair_seq);
                    assert(pair_ids(before.table, sel)[p].0 < after.table.len());
                }
            }
            assert forall|i: int| 0 <= i < after.elements.len() implies (
            #[trigger] after.elements[i]).tag_set_id < after.sets.len() by {
                assert(before.elements[i].tag_set_id < before.sets.len());
            }
        }
        Ok(id)
    }

    /// Pass 3 for one record. Gives the number of segments skipped for want
    /// of a position.
    pub fn emit(&mut self, record: &Record, filters: &Filters, coords: &CoordTable) -> (outcome:
        Result<usize, PipelineError>)
        requires
            old(self).wf(),
        ensures
            final(self).wf(),
            match emit_step(old(self)@, *record, filters, coords@) {
                Some(after) => final(self)@ == after && outcome is Ok && outcome->Ok_0
                    == skipped_by(*record, filters, coords@),
                None => final(self)@ == old(self)@ && outcome == Err::<usize, PipelineError>(
                    PipelineError::IdSpaceExhausted,
                ),
            },
    {
        if !selects(record, filters) {
            return Ok(0);
        }
        proof {
            if emit_step(self@, *record, filters, coords@) is Some {
                lemma_emit_step_ok(self@, *record, filters, coords@);
            }
        }
        match record {
            Record::Node { id, lat, lon, tags } => {
                match self.intern_tags(tags, filters) {
                    Err(e) => Err(e),
                    Ok(tag_set_id) => {
                        self.elements.push(
                            Element {
                                id: *id,
                                coordinates: [[*lat, *lon], [*lat, *lon]],
                                tag_set_id,
                            },
                        );
                        Ok(0)
                    },
                }
            },
            Record::Way { id, refs, tags } => {
                match self.intern_tags(tags, filters) {
                    Err(e) => Err(e),
                    Ok(tag_set_id) => {
                        let skipped = emit_segments(
                            *id,
                            refs,
                            coords,
                            tag_set_id,
                            &mut self.elements,
                        );
                        Ok(skipped)
                    },
                }
            },
            Record::Other => Ok(0),
        }
    }
}

impl Emitter {
    /// Ends pass 3: the elements, the flattened tag sets and the read form
    /// of the interner, with every id unchanged.
    pub fn finish(self) -> (parts: (Vec<Element>, FlatTagSets, StringInterner))
        requires
            self.wf(),
        ensures
            parts.0@ == self@.elements,
            parts.1.wf(),
            parts.1.tag_sets() == self@.sets,
            parts.1.holds_exactly(self@.sets),
            parts.2.wf(),
            parts.2.indexed(),
            parts.2.strings() == self@.table,
            parts.2.holds_exactly(self@.table),
    {
        let tag_sets = self.tag_sets.flatten();
        let interner = self.interner.into_string_interner();
        (self.elements, tag_sets, interner)
    }
}

/// The tags that tag set `tag_set_id` stands for, as texts.
pub open spec fn resolved(e: Emission, tag_set_id: int) -> Seq<(Seq<char>, Seq<char>)> {
    Seq::new(
        e.sets[tag_set_id].len(),
        |j: int| (e.table[e.sets[tag_set_id][j].0 as int], e.table[e.sets[tag_set_id][j].1 as int]),
    )
}

/// The filter decides what is emitted and with which tags.
///
/// A record without a primary key, or of another kind than node and way,
/// leaves everything as it was. A selected node gives exactly one element, a
/// selected way one element per pair of known positions. Each new element
/// carries the record's id and a tag set that resolves to the values of the
/// configured keys that are on the record, in configuration order.
pub proof fn law_filter_correctness(
    before: Emission,
    record: Record,
    filters: &Filters,
    coords: Map<u64, (u32, u32)>,
)
    requires
        emission_ok(before),
        emit_step(before, record, filters, coords) is Some,
    ensures
        ({
            let after = emit_step(before, record, filters, coords)->0;
            let added = after.elements.len() - before.elements.len();
            &&& before.elements.len() <= after.elements.len()
            &&& after.elements.take(before.elements.len() as int) == before.elements
            &&& !is_selected(record, filters) ==> after == before
            &&& record is Node ==> (added == 1 <==> is_selected(record, filters))
            &&& record is Node ==> added <= 1
            &&& record is Way && is_selected(record, filters) ==> added == found_pairs(
                record->Way_refs@,
                coords,
                pair_count(record->Way_refs@),
            )
            &&& forall|i: int|
                before.elements.len() <= i < after.elements.len() ==> {
                    let e = #[trigger] after.elements[i];
                    &&& is_selected(record, filters)
                    &&& e.tag_set_id < after.sets.len()
                    &&& resolved(after, e.tag_set_id as int) == selection(record, filters)
                    &&& record is Node ==> e.id == record->Node_id
                    &&& record is Way ==> e.id == record->Way_id
                }
        }),
{
    let after = emit_step(before, record, filters, coords)->0;
    if is_selected(record, filters) {
        let sel = selection(record, filters);
        let table = table_after(before.table, sel);
        let pairs = pair_ids(before.table, sel);
        let sets = interned(before.sets, pairs);
        let tag_set_id = id_of(before.sets, pairs) as u32;
        lemma_table_after(before.table, sel);
        lemma_interned(before.sets, pairs);
        assert(sets[tag_set_id as int] == pairs);
        assert(resolved(after, tag_set_id as int) =~= sel) by {
            assert forall|j: int| 0 <= j < sel.len() implies resolved(after, tag_set_id as int)[j]
                == sel[j] by {
                assert(table[pair_ids(before.table, sel)[j].0 as int] == sel[j].0);
            }
        }
        match record {
            Record::Node { id, lat, lon, .. } => {
                assert(after.elements.take(before.elements.len() as int) =~= before.elements);
            },
            Record::Way { id, refs, .. } => {
                law_way_geometry(id, refs@, coords, tag_set_id, pair_count(refs@));
                let segs = segments(id, refs@, coords, tag_set_id, pair_count(refs@));
                assert(after.elements.take(before.elements.len() as int) =~= before.elements);
                assert forall|i: int| before.elements.len() <= i < after.elements.len() implies {
                    let e = #[trigger] after.elements[i];
                    e.tag_set_id == tag_set_id && e.id == id
                } by {
                    assert(after.elements[i] == segs[i - before.elements.len()]);
                }
            },
            Record::Other => {},
        }
    } else {
        assert(after.elements.take(before.elements.len() as int) =~= before.elements);
    }
}

} // verus!
