//! The whole pipeline over records held in memory, and the choice between
//! the cache file and a fresh run.

use vstd::prelude::*;
use crate::bitmap::RequiredNodes;
use crate::cache::{CacheImage, encoding, level_of, load, stored_image, store};
use crate::compress::zstd_frame;
use crate::config::{Config, Filters};
use crate::fingerprint::{SourceFacts, calculate_source_hash, fingerprint_input,
    fingerprint_stream, hash_of};
use crate::emit::{Emission, Emitter, PipelineError, emission_ok, emit_step, lemma_emit_step_ok,
    skipped_by};
use crate::fx::HarvestedPositions;
use crate::model::{CacheData, Element, FlatTagSets, StringInterner};
use crate::passes::{coords_with, harvest_into, is_selected, mark_required, required_by};
use crate::records::Record;

verus! {

/// The node ids that the first `n` records make necessary.
pub open spec fn required_after(records: Seq<Record>, filters: &Filters, n: nat) -> Set<u64>
    decreases n,
{
    if n == 0 {
        Set::empty()
    } else {
        required_after(records, filters, (n - 1) as nat).union(
            required_by(records[n - 1], filters),
        )
    }
}

/// The positions that pass 2 has stored after the first `n` records.
pub open spec fn coords_after(records: Seq<Record>, required: Set<u64>, n: nat) -> Map<
    u64,
    (u32, u32),
>
    decreases n,
{
    if n == 0 {
        Map::empty()
    } else {
        coords_with(coords_after(records, required, (n - 1) as nat), records[n - 1], required)
    }
}

/// Record `i` makes the node `id` necessary: it is a selected node with that
/// id, or a selected way that refers to it.
pub open spec fn asks_for(records: Seq<Record>, filters: &Filters, i: int, id: u64) -> bool {
    is_selected(records[i], filters) && match records[i] {
        Record::Node { id: own, .. } => own == id,
        Record::Way { refs, .. } => refs@.contains(id),
        Record::Other => false,
    }
}

/// Record `i` is a node with the id `id`.
pub open spec fn is_node_with(records: Seq<Record>, i: int, id: u64) -> bool {
    records[i] is Node && records[i]->Node_id == id
}

/// A node id is required exactly when the node itself is selected or a
/// selected way refers to it.
pub proof fn law_required_nodes(records: Seq<Record>, filters: &Filters, n: nat, id: u64)
    requires
        n <= records.len(),
    ensures
        required_after(records, filters, n).contains(id) <==> exists|i: int|
            0 <= i < n && #[trigger] asks_for(records, filters, i, id),
    decreases n,
{
    if n > 0 {
        law_required_nodes(records, filters, (n - 1) as nat, id);
        let last = records[n - 1];
        assert(required_by(last, filters).contains(id) <==> asks_for(records, filters, n - 1, id))
            by {
            if is_selected(last, filters) {
                match last {
                    Record::Way { refs, .. } => {
                        assert(refs@.to_set().contains(id) <==> refs@.contains(id));
                    },
                    _ => {},
                }
            }
        }
        if required_after(records, filters, n).contains(id) {
            if required_by(last, filters).contains(id) {
                assert(asks_for(records, filters, n - 1, id));
            } else {
                let i = choose|i: int| 0 <= i < n - 1 && #[trigger] asks_for(
                    records,
                    filters,
                    i,
                    id,
                );
                assert(asks_for(records, filters, i, id));
            }
        }
        if exists|i: int| 0 <= i < n && #[trigger] asks_for(records, filters, i, id) {
            let i = choose|i: int| 0 <= i < n && #[trigger] asks_for(records, filters, i, id);
            if i < n - 1 {
                assert(asks_for(records, filters, i, id));
            }
        }
    }
}

/// Pass 2 stores a position for exactly the required ids that some node of
/// the input carries.
pub proof fn law_harvested_positions(records: Seq<Record>, required: Set<u64>, n: nat, id: u64)
    requires
        n <= records.len(),
    ensures
        coords_after(records, required, n).contains_key(id) <==> required.contains(id)
            && exists|i: int| 0 <= i < n && #[trigger] is_node_with(records, i, id),
    decreases n,
{
    if n > 0 {
        law_harvested_positions(records, required, (n - 1) as nat, id);
        if coords_after(records, required, n).contains_key(id) {
            if coords_after(records, required, (n - 1) as nat).contains_key(id) {
                let i = choose|i: int| 0 <= i < n - 1 && #[trigger] is_node_with(records, i, id);
                assert(is_node_with(records, i, id));
            } else {
                assert(is_node_with(records, n - 1, id));
            }
        }
        if required.contains(id) && exists|i: int|
            0 <= i < n && #[trigger] is_node_with(records, i, id) {
            let i = choose|i: int| 0 <= i < n && #[trigger] is_node_with(records, i, id);
            if i < n - 1 {
                assert(is_node_with(records, i, id));
            }
        }
    }
}

/// Nothing interned, nothing emitted.
pub open spec fn nothing_emitted() -> Emission {
    Emission { table: Seq::empty(), sets: Seq::empty(), elements: Seq::empty() }
}

/// What pass 3 has produced after the first `n` records; `None` once a
/// record met tables without the spare room.
pub open spec fn emitted_after(
    records: Seq<Record>,
    filters: &Filters,
    coords: Map<u64, (u32, u32)>,
    n: nat,
) -> Option<Emission>
    decreases n,
{
    if n == 0 {
        Some(nothing_emitted())
    } else {
        match emitted_after(records, filters, coords, (n - 1) as nat) {
            Some(before) => emit_step(before, records[n - 1], filters, coords),
            None => None,
        }
    }
}

/// The segments that pass 3 has skipped in the first `n` records.
pub open spec fn skipped_after(
    records: Seq<Record>,
    filters: &Filters,
    coords: Map<u64, (u32, u32)>,
    n: nat,
) -> nat
    decreases n,
{
    if n == 0 {
        0
    } else {
        skipped_after(records, filters, coords, (n - 1) as nat) + skipped_by(
            records[n - 1],
            filters,
            coords,
        )
    }
}

/// Once pass 3 has stopped it stays stopped.
pub proof fn lemma_emitted_stays_none(
    records: Seq<Record>,
    filters: &Filters,
    coords: Map<u64, (u32, u32)>,
    k: nat,
    n: nat,
)
    requires
        k <= n,
        emitted_after(records, filters, coords, k) is None,
    ensures
        emitted_after(records, filters, coords, n) is None,
    decreases n,
{
    if k < n {
        lemma_emitted_stays_none(records, filters, coords, k, (n - 1) as nat);
    }
}

/// What pass 3 produces stays sound record after record.
pub proof fn lemma_emitted_ok(
    records: Seq<Record>,
    filters: &Filters,
    coords: Map<u64, (u32, u32)>,
    n: nat,
)
    requires
        emitted_after(records, filters, coords, n) is Some,
    ensures
        emission_ok(emitted_after(records, filters, coords, n)->0),
    decreases n,
{
    if n > 0 {
        lemma_emitted_ok(records, filters, coords, (n - 1) as nat);
        lemma_emit_step_ok(
            emitted_after(records, filters, coords, (n - 1) as nat)->0,
            records[n - 1],
            filters,
            coords,
        );
    }
}

/// `count`, or the largest 64-bit number if `count` is larger.
pub open spec fn capped(count: nat) -> u64 {
    if count <= u64::MAX {
        count as u64
    } else {
        u64::MAX
    }
}

/// What the pipeline hands over.
pub struct Preprocessed {
    pub elements: Vec<Element>,
    pub tag_sets: FlatTagSets,
    pub interner: StringInterner,
    /// Way segments left out because a node position was missing, capped at
    /// the largest 64-bit number.
    pub skipped_segments: u64,
}

/// Runs the three passes, in order, over `records`.
///
/// The result holds the elements of pass 3 run with the positions that pass 2
/// stored for the node ids that pass 1 found, together with the tag sets and
/// strings under the ids that the elements and tag sets use.
pub fn preprocess(records: &Vec<Record>, filters: &Filters) -> (outcome: Result<
    Preprocessed,
    PipelineError,
>)
    ensures
        ({
            let n = records@.len();
            let required = required_after(records@, filters, n);
            let coords = coords_after(records@, required, n);
            match emitted_after(records@, filters, coords, n) {
                Some(produced) => {
                    &&& outcome is Ok
                    &&& emission_ok(produced)
                    &&& outcome->Ok_0.elements@ == produced.elements
                    &&& outcome->Ok_0.tag_sets.wf()
                    &&& outcome->Ok_0.tag_sets.tag_sets() == produced.sets
                    &&& outcome->Ok_0.tag_sets.holds_exactly(produced.sets)
                    &&& outcome->Ok_0.interner.wf()
                    &&& outcome->Ok_0.interner.indexed()
                    &&& outcome->Ok_0.interner.strings() == produced.table
                    &&& outcome->Ok_0.interner.holds_exactly(produced.table)
                    &&& outcome->Ok_0.skipped_segments == capped(
                        skipped_after(records@, filters, coords, n),
                    )
                },
                None => outcome is Err && outcome->Err_0 == PipelineError::IdSpaceExhausted,
            }
        }),
{
    let n: usize = records.len();
    let mut required = RequiredNodes::new();
    let mut i: usize = 0;
    while i < n
        invariant
            0 <= i <= n,
            n == records@.len(),
            required@ == required_after(records@, filters, i as nat),
        decreases n - i,
    {
        mark_required(&records[i], filters, &mut required);
        i = i + 1;
    }
    let mut harvest = HarvestedPositions::new();
    i = 0;
    while i < n
        invariant
            0 <= i <= n,
            n == records@.len(),
            harvest@ == coords_after(records@, required@, i as nat),
        decreases n - i,
    {
        harvest_into(&records[i], &required, &mut harvest);
        i = i + 1;
    }
    let coords = harvest.freeze();
    let mut emitter = Emitter::new();
    let mut skipped: u64 = 0;
    i = 0;
    assert(emitter@ == nothing_emitted());
    while i < n
        invariant
            0 <= i <= n,
            n == records@.len(),
            emitter.wf(),
            coords@ == coords_after(
                records@,
                required_after(records@, filters, n as nat),
                n as nat,
            ),
            emitted_after(records@, filters, coords@, i as nat) == Some(emitter@),
            skipped == capped(skipped_after(records@, filters, coords@, i as nat)),
        decreases n - i,
    {
        match emitter.emit(&records[i], filters, &coords) {
            Err(e) => {
                proof {
                    lemma_emitted_stays_none(records@, filters, coords@, (i + 1) as nat, n as nat);
                }
                return Err(e);
            },
            Ok(more) => {
                let more: u64 = more as u64;
                skipped = if more > u64::MAX - skipped {
                    u64::MAX
                } else {
                    skipped + more
                };
            },
        }
        i = i + 1;
    }
    proof {
        lemma_emitted_ok(records@, filters, coords@, n as nat);
    }
    let (elements, tag_sets, interner) = emitter.finish();
    Ok(Preprocessed { elements, tag_sets, interner, skipped_segments: skipped })
}

/// The data that queries run on, however it was obtained.
pub enum LoadedCache {
    Owned { elements: Vec<Element>, tag_sets: FlatTagSets, interner: StringInterner },
}

impl LoadedCache {
    /// The element store.
    pub open spec fn elements(&self) -> Vec<Element> {
        self->elements
    }

    /// The flattened tag sets.
    pub open spec fn tag_sets(&self) -> FlatTagSets {
        self->tag_sets
    }

    /// The string interner in its read form.
    pub open spec fn interner(&self) -> StringInterner {
        self->interner
    }

    /// What a cache file for this data and the fingerprint `source_hash`
    /// holds.
    pub open spec fn image(&self, source_hash: u64) -> CacheImage {
        CacheImage {
            elements: self.elements()@,
            data: self.tag_sets().data@,
            offsets: self.tag_sets().offsets@,
            lengths: self.tag_sets().lengths@,
            pool: self.interner().pool@,
            string_offsets: self.interner().offsets@,
            string_lengths: self.interner().lengths@,
            source_hash,
        }
    }

    /// The stores are sound and every element refers to a tag set.
    pub open spec fn wf(&self) -> bool {
        &&& self.tag_sets().wf()
        &&& self.interner().wf()
        &&& forall|i: int|
            0 <= i < self.elements()@.len() ==> (#[trigger] self.elements()@[i]).tag_set_id
                < self.tag_sets().offsets@.len()
    }
}

/// The file holds a sound cache made from the source with this fingerprint.
pub open spec fn is_hit(file: Seq<u8>, source_hash: u64) -> bool {
    exists|cache: CacheData|
        cache.wf() && cache.source_hash == source_hash && stored_image(file) == Some(
            #[trigger] cache.image(),
        )
}

/// The fingerprint of this configuration and this input file.
pub open spec fn source_hash_of(config: &Config, facts: &SourceFacts) -> u64 {
    hash_of(fingerprint_stream(fingerprint_input(&config.filters, facts)))
}

/// What `load_or_preprocess` hands over.
pub struct Loaded {
    pub cache: LoadedCache,
    /// The data came out of the cache file; no pass ran.
    pub from_cache: bool,
    /// The contents of the cache file to write, where the passes ran and the
    /// compressor succeeded.
    pub fresh_file: Option<Vec<u8>>,
    /// Way segments left out because a node position was missing.
    pub skipped_segments: u64,
}

/// The data out of a cache file, where the file holds a sound cache made
/// from the source with the fingerprint `source_hash`; else `None`. The
/// string-to-id side of the interner is rebuilt unless the configuration says
/// to drop it.
pub fn from_cache(config: &Config, source_hash: u64, file: &[u8]) -> (found: Option<LoadedCache>)
    ensures
        found is Some <==> is_hit(file@, source_hash),
        found is Some ==> {
            &&& found->0.wf()
            &&& stored_image(file@) == Some(found->0.image(source_hash))
            &&& config.runtime.drop_interner_map ==> found->0.interner().map@ == Map::<
                Seq<char>,
                u32,
            >::empty()
            &&& !config.runtime.drop_interner_map ==> forall|i: int|
                0 <= i < found->0.interner().strings().len() ==> found->0.interner().map@.contains_key(
                    #[trigger] found->0.interner().strings()[i],
                )
        },
{
    match load(file, source_hash) {
        Some(cache) => {
            let CacheData { elements, tag_sets, mut interner, source_hash: _ } = cache;
            if !config.runtime.drop_interner_map {
                interner.rebuild_map();
            }
            let loaded = LoadedCache::Owned { elements, tag_sets, interner };
            assert(loaded.image(source_hash) == cache.image());
            Some(loaded)
        },
        None => None,
    }
}

/// Ends a run of the passes: the data as queries take it, and the contents
/// of the cache file for it where the compressor succeeds. The string-to-id
/// side of the interner is dropped where the configuration says so; the
/// cache file does not hold it either way.
pub fn into_cache(config: &Config, source_hash: u64, made: Preprocessed) -> (done: Loaded)
    ensures
        !done.from_cache,
        done.skipped_segments == made.skipped_segments,
        done.cache.elements()@ == made.elements@,
        done.cache.tag_sets() == made.tag_sets,
        done.cache.interner().pool == made.interner.pool,
        done.cache.interner().offsets == made.interner.offsets,
        done.cache.interner().lengths == made.interner.lengths,
        done.cache.interner().strings() == made.interner.strings(),
        done.fresh_file is Some <==> zstd_frame(
            encoding(done.cache.image(source_hash)),
            level_of(config.storage.zstd_level),
        ) is Some,
        done.fresh_file is Some ==> done.fresh_file->0@ == zstd_frame(
            encoding(done.cache.image(source_hash)),
            level_of(config.storage.zstd_level),
        )->0,
        done.fresh_file is Some ==> stored_image(done.fresh_file->0@) == Some(
            done.cache.image(source_hash),
        ),
        made.interner.wf() ==> done.cache.interner().wf(),
        config.runtime.drop_interner_map ==> done.cache.interner().map@ == Map::<
            Seq<char>,
            u32,
        >::empty(),
        !config.runtime.drop_interner_map ==> done.cache.interner() == made.interner,
{
    let Preprocessed { elements, tag_sets, interner, skipped_segments } = made;
    let cache = CacheData { elements, tag_sets, interner, source_hash };
    let fresh_file = store(&cache, config.storage.zstd_level);
    let CacheData { elements, tag_sets, mut interner, source_hash: _ } = cache;
    if config.runtime.drop_interner_map {
        interner.drop_map();
    }
    let loaded = LoadedCache::Owned { elements, tag_sets, interner };
    assert(loaded.image(source_hash) == cache.image());
    Loaded { cache: loaded, from_cache: false, fresh_file, skipped_segments }
}

/// The data for this configuration and this input: out of the cache file
/// where it holds a sound cache with the current fingerprint, else by
/// running the passes over `records`.
///
/// `cached` is what the cache file holds, if there is one. After a miss the
/// result carries the contents of the new cache file. The string-to-id side
/// of the interner is dropped where the configuration says so.
pub fn load_or_preprocess(
    config: &Config,
    facts: &SourceFacts,
    cached: Option<&[u8]>,
    records: &Vec<Record>,
) -> (outcome: Result<Loaded, PipelineError>)
    ensures
        ({
            let hash = source_hash_of(config, facts);
            let n = records@.len();
            let required = required_after(records@, &config.filters, n);
            let coords = coords_after(records@, required, n);
            if cached is Some && is_hit(cached->0@, hash) {
                &&& outcome is Ok
                &&& outcome->Ok_0.from_cache
                &&& outcome->Ok_0.fresh_file is None
                &&& outcome->Ok_0.skipped_segments == 0
                &&& stored_image(cached->0@) == Some(outcome->Ok_0.cache.image(hash))
            } else {
                match emitted_after(records@, &config.filters, coords, n) {
                    Some(produced) => {
                        &&& outcome is Ok
                        &&& !outcome->Ok_0.from_cache
                        &&& outcome->Ok_0.cache.elements()@ == produced.elements
                        &&& outcome->Ok_0.cache.tag_sets().tag_sets() == produced.sets
                        &&& outcome->Ok_0.cache.tag_sets().holds_exactly(produced.sets)
                        &&& outcome->Ok_0.cache.interner().strings() == produced.table
                        &&& outcome->Ok_0.cache.interner().holds_exactly(produced.table)
                        &&& outcome->Ok_0.skipped_segments == capped(
                            skipped_after(records@, &config.filters, coords, n),
                        )
                        &&& outcome->Ok_0.fresh_file is Some <==> zstd_frame(
                            encoding(outcome->Ok_0.cache.image(hash)),
                            level_of(config.storage.zstd_level),
                        ) is Some
                        &&& outcome->Ok_0.fresh_file is Some ==> outcome->Ok_0.fresh_file->0@
                            == zstd_frame(
                            encoding(outcome->Ok_0.cache.image(hash)),
                            level_of(config.storage.zstd_level),
                        )->0
                        &&& outcome->Ok_0.fresh_file is Some ==> stored_image(
                            outcome->Ok_0.fresh_file->0@,
                        ) == Some(outcome->Ok_0.cache.image(hash))
                        &&& !config.runtime.drop_interner_map
                            ==> outcome->Ok_0.cache.interner().indexed()
                    },
                    None => outcome is Err && outcome->Err_0 == PipelineError::IdSpaceExhausted,
                }
            }
        }),
        outcome is Ok ==> outcome->Ok_0.cache.wf(),
        outcome is Ok && config.runtime.drop_interner_map ==> outcome->Ok_0.cache.interner().map@
            == Map::<Seq<char>, u32>::empty(),
        outcome is Ok && !config.runtime.drop_interner_map ==> forall|i: int|
            0 <= i < outcome->Ok_0.cache.interner().strings().len()
                ==> outcome->Ok_0.cache.interner().map@.contains_key(
                #[trigger] outcome->Ok_0.cache.interner().strings()[i],
            ),
{
    let source_hash = calculate_source_hash(config, facts);
    match cached {
        Some(file) => {
            match from_cache(config, source_hash, file) {
                Some(cache) => {
                    return Ok(
                        Loaded { cache, from_cache: true, fresh_file: None, skipped_segments: 0 },
                    );
                },
                None => {},
            }
        },
        None => {},
    }
    match preprocess(records, &config.filters) {
        Err(e) => Err(e),
        Ok(made) => Ok(into_cache(config, source_hash, made)),
    }
}

} // verus!
