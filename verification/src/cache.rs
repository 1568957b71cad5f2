//! The cache file: the element store, the flattened tag sets, the string
//! interner and the source fingerprint, encoded field by field and wrapped in
//! one Zstandard frame.
//!
//! The string-to-id side of the interner is not stored; it can be rebuilt
//! from the pool.

use vstd::prelude::*;
use vstd::hash_map::StringHashMap;
use crate::codec::{enc_bytes, enc_elements, enc_u32s, enc_u64s, get_bytes, get_elements, get_u32s,
    get_u64, get_u64s, lemma_take_bytes, lemma_take_elements, lemma_take_u32s, lemma_take_u64,
    lemma_take_u64s, put_bytes, put_elements, put_u32s, put_u64, put_u64s, take_bytes,
    take_elements, take_u32s, take_u64, take_u64s, u64_bytes};
use crate::compress::{zstd_content, zstd_decode, zstd_encode, zstd_frame};
use crate::model::{CacheData, Element, FlatTagSets, Pool, StringInterner};

verus! {

/// The stored part of a cache, as plain sequences.
pub struct CacheImage {
    pub elements: Seq<Element>,
    pub data: Seq<u64>,
    pub offsets: Seq<u32>,
    pub lengths: Seq<u32>,
    pub pool: Seq<u8>,
    pub string_offsets: Seq<u32>,
    pub string_lengths: Seq<u32>,
    pub source_hash: u64,
}

impl CacheData {
    /// What of this cache goes into the file.
    pub open spec fn image(&self) -> CacheImage {
        CacheImage {
            elements: self.elements@,
            data: self.tag_sets.data@,
            offsets: self.tag_sets.offsets@,
            lengths: self.tag_sets.lengths@,
            pool: self.interner.pool@,
            string_offsets: self.interner.offsets@,
            string_lengths: self.interner.lengths@,
            source_hash: self.source_hash,
        }
    }
}

/// The bytes of a cache: each field with its length in front, in the order
/// elements, tag-set data, offsets and lengths, string pool, string offsets
/// and lengths, and the fingerprint last.
pub open spec fn encoding(img: CacheImage) -> Seq<u8> {
    enc_elements(img.elements) + (enc_u64s(img.data) + (enc_u32s(img.offsets) + (enc_u32s(
        img.lengths,
    ) + (enc_bytes(img.pool) + (enc_u32s(img.string_offsets) + (enc_u32s(img.string_lengths)
        + u64_bytes(img.source_hash)))))))
}

/// The cache that `bytes` encode, if they encode one and nothing follows it.
pub open spec fn decoding(bytes: Seq<u8>) -> Option<CacheImage> {
    match take_elements(bytes) {
        None => None,
        Some((elements, r1)) => match take_u64s(r1) {
            None => None,
            Some((data, r2)) => match take_u32s(r2) {
                None => None,
                Some((offsets, r3)) => match take_u32s(r3) {
                    None => None,
                    Some((lengths, r4)) => match take_bytes(r4) {
                        None => None,
                        Some((pool, r5)) => match take_u32s(r5) {
                            None => None,
                            Some((string_offsets, r6)) => match take_u32s(r6) {
                                None => None,
                                Some((string_lengths, r7)) => match take_u64(r7) {
                                    None => None,
                                    Some((source_hash, r8)) => if r8.len() == 0 {
                                        Some(
                                            CacheImage {
                                                elements,
                                                data,
                                                offsets,
                                                lengths,
                                                pool,
                                                string_offsets,
                                                string_lengths,
                                                source_hash,
                                            },
                                        )
                                    } else {
                                        None
                                    },
                                },
                            },
                        },
                    },
                },
            },
        },
    }
}

/// No field is longer than a 64-bit count can say.
pub open spec fn countable(img: CacheImage) -> bool {
    &&& img.elements.len() <= u64::MAX
    &&& img.data.len() <= u64::MAX
    &&& img.offsets.len() <= u64::MAX
    &&& img.lengths.len() <= u64::MAX
    &&& img.pool.len() <= u64::MAX
    &&& img.string_offsets.len() <= u64::MAX
    &&& img.string_lengths.len() <= u64::MAX
}

/// What a cache in memory holds can be counted with 64 bits.
pub proof fn lemma_countable(cache: &CacheData)
    ensures
        countable(cache.image()),
{
    cache.interner.pool.lemma_len_fits();
    assert(cache.elements.len() == cache.elements@.len());
    assert(cache.tag_sets.data.len() == cache.tag_sets.data@.len());
    assert(cache.tag_sets.offsets.len() == cache.tag_sets.offsets@.len());
    assert(cache.tag_sets.lengths.len() == cache.tag_sets.lengths@.len());
    assert(cache.interner.offsets.len() == cache.interner.offsets@.len());
    assert(cache.interner.lengths.len() == cache.interner.lengths@.len());
}

/// Decoding undoes encoding.
pub proof fn law_decoding_inverts_encoding(img: CacheImage)
    requires
        countable(img),
    ensures
        decoding(encoding(img)) == Some(img),
{
    let t7 = u64_bytes(img.source_hash);
    let t6 = enc_u32s(img.string_lengths) + t7;
    let t5 = enc_u32s(img.string_offsets) + t6;
    let t4 = enc_bytes(img.pool) + t5;
    let t3 = enc_u32s(img.lengths) + t4;
    let t2 = enc_u32s(img.offsets) + t3;
    let t1 = enc_u64s(img.data) + t2;
    lemma_take_elements(img.elements, t1);
    lemma_take_u64s(img.data, t2);
    lemma_take_u32s(img.offsets, t3);
    lemma_take_u32s(img.lengths, t4);
    lemma_take_bytes(img.pool, t5);
    lemma_take_u32s(img.string_offsets, t6);
    lemma_take_u32s(img.string_lengths, t7);
    lemma_take_u64(img.source_hash, Seq::<u8>::empty());
    assert(t7 =~= u64_bytes(img.source_hash) + Seq::<u8>::empty());
}

/// The bytes of the cache.
pub fn encode(cache: &CacheData) -> (bytes: Vec<u8>)
    ensures
        bytes@ == encoding(cache.image()),
{
    let mut out: Vec<u8> = Vec::new();
    put_elements(&mut out, &cache.elements);
    put_u64s(&mut out, &cache.tag_sets.data);
    put_u32s(&mut out, &cache.tag_sets.offsets);
    put_u32s(&mut out, &cache.tag_sets.lengths);
    put_bytes(&mut out, cache.interner.pool.as_bytes());
    put_u32s(&mut out, &cache.interner.offsets);
    put_u32s(&mut out, &cache.interner.lengths);
    put_u64(&mut out, cache.source_hash);
    assert(out@ =~= encoding(cache.image()));
    out
}

/// The cache that `bytes` encode, with the string-to-id side of the interner
/// left empty; `None` where `bytes` encode no cache or one whose stores are
/// not sound.
pub fn decode(bytes: &[u8]) -> (cache: Option<CacheData>)
    ensures
        cache is Some ==> decoding(bytes@) == Some(cache->0.image()) && cache->0.wf()
            && cache->0.interner.map@ == Map::<Seq<char>, u32>::empty(),
        cache is None ==> forall|other: CacheData|
            other.wf() ==> decoding(bytes@) != Some(#[trigger] other.image()),
{
    let mut at: usize = 0;
    assert(bytes@.skip(0) =~= bytes@);
    let elements = match get_elements(bytes, &mut at) {
        Some(v) => v,
        None => {
            return None;
        },
    };
    let data = match get_u64s(bytes, &mut at) {
        Some(v) => v,
        None => {
            return None;
        },
    };
    let offsets = match get_u32s(bytes, &mut at) {
        Some(v) => v,
        None => {
            return None;
        },
    };
    let lengths = match get_u32s(bytes, &mut at) {
        Some(v) => v,
        None => {
            return None;
        },
    };
    let pool = match get_bytes(bytes, &mut at) {
        Some(v) => v,
        None => {
            return None;
        },
    };
    let string_offsets = match get_u32s(bytes, &mut at) {
        Some(v) => v,
        None => {
            return None;
        },
    };
    let string_lengths = match get_u32s(bytes, &mut at) {
        Some(v) => v,
        None => {
            return None;
        },
    };
    let source_hash = match get_u64(bytes, &mut at) {
        Some(v) => v,
        None => {
            return None;
        },
    };
    if at != bytes.len() {
        return None;
    }
    let cache = CacheData {
        elements,
        tag_sets: FlatTagSets { data, offsets, lengths },
        interner: StringInterner {
            map: StringHashMap::new(),
            pool: Pool::from_bytes(pool),
            offsets: string_offsets,
            lengths: string_lengths,
        },
        source_hash,
    };
    assert(decoding(bytes@) == Some(cache.image()));
    if !cache.tag_sets.check() || !cache.interner.check_layout() || !cache.check_elements() {
        proof {
            assert forall|other: CacheData| other.wf() implies decoding(bytes@) != Some(
                #[trigger] other.image(),
            ) by {
                if decoding(bytes@) == Some(other.image()) {
                    lemma_same_image(cache, other);
                }
            }
        }
        return None;
    }
    Some(cache)
}

/// Whether a cache is sound is a matter of what is stored, but for the
/// string-to-id side.
pub proof fn lemma_same_image(a: CacheData, b: CacheData)
    requires
        a.image() == b.image(),
    ensures
        a.tag_sets.wf() == b.tag_sets.wf(),
        a.interner.layout_ok() == b.interner.layout_ok(),
        a.elements_ok() == b.elements_ok(),
        a.interner.strings() == b.interner.strings(),
        a.tag_sets.tag_sets() == b.tag_sets.tag_sets(),
{
    assert forall|i: int| a.tag_sets.in_bounds(i) == b.tag_sets.in_bounds(i) by {}
    assert forall|i: int| a.interner.entry_ok(i) == b.interner.entry_ok(i) by {}
    if a.tag_sets.wf() {
        assert forall|i: int| 0 <= i < b.tag_sets.offsets@.len() implies
        #[trigger] b.tag_sets.in_bounds(i) by {
            assert(a.tag_sets.in_bounds(i));
        }
    }
    if b.tag_sets.wf() {
        assert forall|i: int| 0 <= i < a.tag_sets.offsets@.len() implies
        #[trigger] a.tag_sets.in_bounds(i) by {
            assert(b.tag_sets.in_bounds(i));
        }
    }
    if a.interner.layout_ok() {
        assert forall|i: int| 0 <= i < b.interner.offsets@.len() implies
        #[trigger] b.interner.entry_ok(i) by {
            assert(a.interner.entry_ok(i));
        }
    }
    if b.interner.layout_ok() {
        assert forall|i: int| 0 <= i < a.interner.offsets@.len() implies
        #[trigger] a.interner.entry_ok(i) by {
            assert(b.interner.entry_ok(i));
        }
    }
    assert(a.interner.strings() =~= b.interner.strings());
    assert(a.tag_sets.tag_sets() =~= b.tag_sets.tag_sets());
}

/// The cache that a cache file holds, if it is a frame over the bytes of one.
pub open spec fn stored_image(file: Seq<u8>) -> Option<CacheImage> {
    match zstd_content(file) {
        Some(raw) => decoding(raw),
        None => None,
    }
}

/// The compression level as the compressor takes it: a level beyond what
/// its interface can say counts as the largest it can.
pub open spec fn level_of(level: u32) -> i32 {
    if level <= i32::MAX {
        level as i32
    } else {
        i32::MAX
    }
}

/// The contents of the cache file for `cache` at compression level `level`,
/// where the encoder makes a frame.
pub open spec fn stored_file(cache: &CacheData, level: u32) -> Option<Seq<u8>> {
    zstd_frame(encoding(cache.image()), level_of(level))
}

/// The contents of a cache file for `cache`: the frame that the encoder
/// makes of the cache's bytes at `level`; `None` where the encoder fails.
/// The file holds the cache.
pub fn store(cache: &CacheData, level: u32) -> (file: Option<Vec<u8>>)
    ensures
        file is Some <==> stored_file(cache, level) is Some,
        file is Some ==> file->0@ == stored_file(cache, level)->0,
        file is Some ==> zstd_content(file->0@) == Some(encoding(cache.image())),
        file is Some ==> stored_image(file->0@) == Some(cache.image()),
{
    let raw = encode(cache);
    let level: i32 = if level <= i32::MAX as u32 {
        level as i32
    } else {
        i32::MAX
    };
    let file = zstd_encode(raw.as_slice(), level);
    proof {
        lemma_countable(cache);
        law_decoding_inverts_encoding(cache.image());
    }
    file
}

/// The cache in a cache file, if the file holds a sound cache made from the
/// source with fingerprint `source_hash`. A file that does not decompress,
/// does not decode, holds unsound stores or carries another fingerprint is a
/// miss.
pub fn load(file: &[u8], source_hash: u64) -> (cache: Option<CacheData>)
    ensures
        cache is Some ==> stored_image(file@) == Some(cache->0.image()) && cache->0.wf()
            && cache->0.source_hash == source_hash && cache->0.interner.map@ == Map::<
            Seq<char>,
            u32,
        >::empty(),
        cache is None ==> forall|other: CacheData|
            other.wf() && other.source_hash == source_hash ==> stored_image(file@) != Some(
                #[trigger] other.image(),
            ),
{
    let raw = match zstd_decode(file) {
        Some(raw) => raw,
        None => {
            return None;
        },
    };
    match decode(raw.as_slice()) {
        Some(cache) => {
            if cache.source_hash == source_hash {
                Some(cache)
            } else {
                None
            }
        },
        None => None,
    }
}

/// What `load` promises of its result, as a predicate.
pub open spec fn load_post(file: Seq<u8>, source_hash: u64, cache: Option<CacheData>) -> bool {
    &&& cache is Some ==> stored_image(file) == Some(cache->0.image()) && cache->0.wf()
        && cache->0.source_hash == source_hash
    &&& cache is None ==> forall|other: CacheData|
        other.wf() && other.source_hash == source_hash ==> stored_image(file) != Some(
            #[trigger] other.image(),
        )
}

/// Storing and then loading gives the cache back: whatever file `store` makes
/// of a sound cache, `load` with the cache's own fingerprint succeeds, and
/// what it gives has the same elements, the same tag-set arrays, the same
/// pool, offsets and lengths, hence the same strings and tag sets under the
/// same ids, and the same fingerprint.
pub proof fn law_cache_round_trip(cache: CacheData, file: Seq<u8>, loaded: Option<CacheData>)
    requires
        cache.wf(),
        stored_image(file) == Some(cache.image()),
        load_post(file, cache.source_hash, loaded),
    ensures
        loaded is Some,
        loaded->0.image() == cache.image(),
        loaded->0.interner.strings() == cache.interner.strings(),
        loaded->0.tag_sets.tag_sets() == cache.tag_sets.tag_sets(),
{
    lemma_same_image(cache, loaded->0);
}

/// With another fingerprint the same file is a miss.
pub proof fn law_stale_cache_is_a_miss(
    cache: CacheData,
    file: Seq<u8>,
    source_hash: u64,
    loaded: Option<CacheData>,
)
    requires
        stored_image(file) == Some(cache.image()),
        source_hash != cache.source_hash,
        load_post(file, source_hash, loaded),
    ensures
        loaded is None,
{
}

} // verus!
