//! The source fingerprint: one 64-bit hash over the input file's path, size
//! and modification time and over the filter configuration.
//!
//! The hashed bytes are laid out so that they determine every one of those
//! inputs; the hash itself is the standard library's default hasher.

use vstd::prelude::*;
use vstd::std_specs::hash::DefaultHasherAdditionalSpecFns;
use vstd::utf8::*;
use std::collections::hash_map::DefaultHasher;
use std::hash::Hasher;
use crate::codec::{enc_bytes, lemma_take_bytes, lemma_take_u64, put_bytes, put_u64, take_bytes,
    take_u64, u64_bytes};
use crate::config::{Config, Filters};
use crate::records::key_texts;
use crate::text::lemma_encoding_is_injective;

verus! {

/// What is known of the input file.
#[derive(Debug, Clone)]
pub struct SourceFacts {
    /// The canonical absolute path where it can be had, else the path as
    /// given.
    pub path: String,
    /// The size in bytes.
    pub size: u64,
    /// The modification time, as seconds and nanoseconds since the epoch,
    /// where the file system tells it.
    pub modified: Option<(u64, u32)>,
}

/// Everything the fingerprint depends on, texts as UTF-8.
pub struct FingerprintInput {
    pub primary: Seq<Seq<u8>>,
    pub attribute: Seq<Seq<u8>>,
    pub path: Seq<u8>,
    pub size: u64,
    pub modified: Option<(u64, u32)>,
}

/// The texts of `keys` as UTF-8.
pub open spec fn utf8_of(keys: Seq<String>) -> Seq<Seq<u8>> {
    Seq::new(keys.len(), |i: int| encode_utf8(keys[i]@))
}

/// What the fingerprint of this configuration and this file depends on.
pub open spec fn fingerprint_input(filters: &Filters, facts: &SourceFacts) -> FingerprintInput {
    FingerprintInput {
        primary: utf8_of(filters.primary_keys@),
        attribute: utf8_of(filters.attribute_keys@),
        path: encode_utf8(facts.path@),
        size: facts.size,
        modified: facts.modified,
    }
}

/// The texts one after the other, each with its length in front.
pub open spec fn texts_body(texts: Seq<Seq<u8>>) -> Seq<u8>
    decreases texts.len(),
{
    if texts.len() == 0 {
        Seq::empty()
    } else {
        enc_bytes(texts[0]) + texts_body(texts.drop_first())
    }
}

/// A list of texts: their number, then the texts.
pub open spec fn enc_texts(texts: Seq<Seq<u8>>) -> Seq<u8> {
    u64_bytes(texts.len() as u64) + texts_body(texts)
}

/// A modification time: a marker, then seconds and nanoseconds if known.
pub open spec fn enc_modified(modified: Option<(u64, u32)>) -> Seq<u8> {
    match modified {
        None => u64_bytes(0),
        Some((secs, nanos)) => u64_bytes(1) + (u64_bytes(secs) + u64_bytes(nanos as u64)),
    }
}

/// The bytes that are hashed: the primary keys, the attribute keys, the
/// path, the size, the modification time.
pub open spec fn fingerprint_stream(input: FingerprintInput) -> Seq<u8> {
    enc_texts(input.primary) + (enc_texts(input.attribute) + (enc_bytes(input.path) + (u64_bytes(
        input.size,
    ) + enc_modified(input.modified))))
}

/// `n` texts off the front of `bytes`, and what follows them.
pub open spec fn take_texts_body(bytes: Seq<u8>, n: nat) -> Option<(Seq<Seq<u8>>, Seq<u8>)>
    decreases n,
{
    if n == 0 {
        Some((Seq::empty(), bytes))
    } else {
        match take_bytes(bytes) {
            None => None,
            Some((first, rest)) => match take_texts_body(rest, (n - 1) as nat) {
                None => None,
                Some((others, after)) => Some((seq![first] + others, after)),
            },
        }
    }
}

/// The list of texts at the front of `bytes`, and what follows it.
pub open spec fn take_texts(bytes: Seq<u8>) -> Option<(Seq<Seq<u8>>, Seq<u8>)> {
    match take_u64(bytes) {
        None => None,
        Some((n, rest)) => take_texts_body(rest, n as nat),
    }
}

/// The modification time at the front of `bytes`.
pub open spec fn take_modified(bytes: Seq<u8>) -> Option<Option<(u64, u32)>> {
    match take_u64(bytes) {
        None => None,
        Some((marker, rest)) => if marker == 0 {
            Some(None)
        } else {
            match take_u64(rest) {
                None => None,
                Some((secs, rest2)) => match take_u64(rest2) {
                    None => None,
                    Some((nanos, _)) => Some(Some((secs, nanos as u32))),
                },
            }
        },
    }
}

/// The inputs that hashed bytes were made from.
pub open spec fn stream_input(bytes: Seq<u8>) -> Option<FingerprintInput> {
    match take_texts(bytes) {
        None => None,
        Some((primary, r1)) => match take_texts(r1) {
            None => None,
            Some((attribute, r2)) => match take_bytes(r2) {
                None => None,
                Some((path, r3)) => match take_u64(r3) {
                    None => None,
                    Some((size, r4)) => match take_modified(r4) {
                        None => None,
                        Some(modified) => Some(
                            FingerprintInput { primary, attribute, path, size, modified },
                        ),
                    },
                },
            },
        },
    }
}

/// No list and no text is longer than a 64-bit count can say.
pub open spec fn texts_countable(texts: Seq<Seq<u8>>) -> bool {
    &&& texts.len() <= u64::MAX
    &&& forall|i: int| 0 <= i < texts.len() ==> (#[trigger] texts[i]).len() <= u64::MAX
}

/// The same for all of an input.
pub open spec fn input_countable(input: FingerprintInput) -> bool {
    &&& texts_countable(input.primary)
    &&& texts_countable(input.attribute)
    &&& input.path.len() <= u64::MAX
}

/// One more text at the end of a list.
pub proof fn lemma_texts_body_push(texts: Seq<Seq<u8>>, last: Seq<u8>)
    ensures
        texts_body(texts.push(last)) == texts_body(texts) + enc_bytes(last),
    decreases texts.len(),
{
    let longer = texts.push(last);
    if texts.len() == 0 {
        assert(longer.drop_first() =~= Seq::<Seq<u8>>::empty());
        assert(texts_body(longer) == enc_bytes(longer[0]) + texts_body(longer.drop_first()));
        assert(texts_body(longer) =~= enc_bytes(last));
        assert(texts_body(texts) + enc_bytes(last) =~= enc_bytes(last));
    } else {
        assert(longer.drop_first() =~= texts.drop_first().push(last));
        lemma_texts_body_push(texts.drop_first(), last);
        assert(texts_body(longer) =~= texts_body(texts) + enc_bytes(last));
    }
}

/// Texts come back off the front of their bytes.
pub proof fn lemma_take_texts_body(texts: Seq<Seq<u8>>, rest: Seq<u8>)
    requires
        texts_countable(texts),
    ensures
        take_texts_body(texts_body(texts) + rest, texts.len()) == Some((texts, rest)),
    decreases texts.len(),
{
    if texts.len() == 0 {
        assert(texts_body(texts) + rest =~= rest);
        assert(texts =~= Seq::<Seq<u8>>::empty());
    } else {
        let others = texts.drop_first();
        let tail = texts_body(others) + rest;
        assert(texts_body(texts) + rest =~= enc_bytes(texts[0]) + tail);
        lemma_take_bytes(texts[0], tail);
        assert forall|i: int| 0 <= i < others.len() implies (#[trigger] others[i]).len()
            <= u64::MAX by {
            assert(others[i] == texts[i + 1]);
        }
        lemma_take_texts_body(others, rest);
        assert(seq![texts[0]] + others =~= texts);
    }
}

/// A list of texts comes back off the front of its encoding.
pub proof fn lemma_take_texts(texts: Seq<Seq<u8>>, rest: Seq<u8>)
    requires
        texts_countable(texts),
    ensures
        take_texts(enc_texts(texts) + rest) == Some((texts, rest)),
{
    let tail = texts_body(texts) + rest;
    lemma_take_u64(texts.len() as u64, tail);
    assert(enc_texts(texts) + rest =~= u64_bytes(texts.len() as u64) + tail);
    lemma_take_texts_body(texts, rest);
}

/// The hashed bytes determine the inputs.
pub proof fn lemma_stream_input(input: FingerprintInput)
    requires
        input_countable(input),
    ensures
        stream_input(fingerprint_stream(input)) == Some(input),
{
    let t4 = enc_modified(input.modified);
    let t3 = u64_bytes(input.size) + t4;
    let t2 = enc_bytes(input.path) + t3;
    let t1 = enc_texts(input.attribute) + t2;
    lemma_take_texts(input.primary, t1);
    lemma_take_texts(input.attribute, t2);
    lemma_take_bytes(input.path, t3);
    lemma_take_u64(input.size, t4);
    match input.modified {
        None => {
            lemma_take_u64(0, Seq::<u8>::empty());
            assert(t4 =~= u64_bytes(0) + Seq::<u8>::empty());
        },
        Some((secs, nanos)) => {
            lemma_take_u64(1, u64_bytes(secs) + u64_bytes(nanos as u64));
            lemma_take_u64(secs, u64_bytes(nanos as u64));
            lemma_take_u64(nanos as u64, Seq::<u8>::empty());
            assert(u64_bytes(nanos as u64) =~= u64_bytes(nanos as u64) + Seq::<u8>::empty());
        },
    }
}

/// The fingerprint is sensitive to every input: two sets of inputs that
/// differ in the path, the size, the modification time, a primary key or an
/// attribute key, or in the number or order of the keys, give different
/// hashed bytes.
///
/// Whether the two 64-bit hashes differ as well is up to the hasher; no hash
/// of that width can tell all inputs apart.
pub proof fn law_fingerprint_sensitivity(a: FingerprintInput, b: FingerprintInput)
    requires
        input_countable(a),
        input_countable(b),
        a != b,
    ensures
        fingerprint_stream(a) != fingerprint_stream(b),
{
    lemma_stream_input(a);
    lemma_stream_input(b);
}

/// Different configured keys, a different path, size or modification time
/// are different inputs.
pub proof fn law_inputs_are_told_apart(
    filters_a: &Filters,
    facts_a: &SourceFacts,
    filters_b: &Filters,
    facts_b: &SourceFacts,
)
    requires
        fingerprint_input(filters_a, facts_a) == fingerprint_input(filters_b, facts_b),
    ensures
        key_texts(filters_a.primary_keys@) == key_texts(filters_b.primary_keys@),
        key_texts(filters_a.attribute_keys@) == key_texts(filters_b.attribute_keys@),
        facts_a.path@ == facts_b.path@,
        facts_a.size == facts_b.size,
        facts_a.modified == facts_b.modified,
{
    let a = fingerprint_input(filters_a, facts_a);
    let b = fingerprint_input(filters_b, facts_b);
    let pa = filters_a.primary_keys@;
    let pb = filters_b.primary_keys@;
    assert(utf8_of(pa).len() == utf8_of(pb).len());
    assert forall|i: int| 0 <= i < pa.len() implies key_texts(pa)[i] == key_texts(pb)[i] by {
        assert(utf8_of(pa)[i] == utf8_of(pb)[i]);
        lemma_encoding_is_injective(pa[i]@, pb[i]@);
    }
    assert(key_texts(pa) =~= key_texts(pb));
    let qa = filters_a.attribute_keys@;
    let qb = filters_b.attribute_keys@;
    assert(utf8_of(qa).len() == utf8_of(qb).len());
    assert forall|i: int| 0 <= i < qa.len() implies key_texts(qa)[i] == key_texts(qb)[i] by {
        assert(utf8_of(qa)[i] == utf8_of(qb)[i]);
        lemma_encoding_is_injective(qa[i]@, qb[i]@);
    }
    assert(key_texts(qa) =~= key_texts(qb));
    lemma_encoding_is_injective(facts_a.path@, facts_b.path@);
}

/// Appends a list of keys.
fn put_texts(out: &mut Vec<u8>, keys: &Vec<String>)
    ensures
        final(out)@ == old(out)@ + enc_texts(utf8_of(keys@)),
        texts_countable(utf8_of(keys@)),
{
    put_u64(out, keys.len() as u64);
    let ghost head = out@;
    let ghost texts = utf8_of(keys@);
    let mut i: usize = 0;
    proof {
        assert(texts.take(0) =~= Seq::<Seq<u8>>::empty());
        assert(out@ =~= head + texts_body(texts.take(0)));
    }
    while i < keys.len()
        invariant
            0 <= i <= keys@.len(),
            texts == utf8_of(keys@),
            out@ == head + texts_body(texts.take(i as int)),
            forall|j: int| 0 <= j < i ==> (#[trigger] texts[j]).len() <= u64::MAX,
        decreases keys@.len() - i,
    {
        let bytes = keys[i].as_str().as_bytes();
        assert(bytes@.len() == bytes.len());
        put_bytes(out, bytes);
        proof {
            lemma_texts_body_push(texts.take(i as int), texts[i as int]);
            assert(texts.take(i as int).push(texts[i as int]) =~= texts.take(i as int + 1));
            assert(out@ =~= head + texts_body(texts.take(i as int + 1)));
        }
        i = i + 1;
    }
    proof {
        assert(texts.take(i as int) =~= texts);
        assert(out@ =~= old(out)@ + enc_texts(texts));
    }
}

/// The bytes that are hashed for this configuration and this file.
pub fn fingerprint_bytes(filters: &Filters, facts: &SourceFacts) -> (bytes: Vec<u8>)
    ensures
        bytes@ == fingerprint_stream(fingerprint_input(filters, facts)),
        input_countable(fingerprint_input(filters, facts)),
{
    let mut out: Vec<u8> = Vec::new();
    put_texts(&mut out, &filters.primary_keys);
    put_texts(&mut out, &filters.attribute_keys);
    let path = facts.path.as_str().as_bytes();
    assert(path@.len() == path.len());
    put_bytes(&mut out, path);
    put_u64(&mut out, facts.size);
    match facts.modified {
        None => {
            put_u64(&mut out, 0);
        },
        Some((secs, nanos)) => {
            put_u64(&mut out, 1);
            put_u64(&mut out, secs);
            put_u64(&mut out, nanos as u64);
        },
    }
    assert(out@ =~= fingerprint_stream(fingerprint_input(filters, facts)));
    out
}

/// The fingerprint that goes with hashed bytes.
pub open spec fn hash_of(stream: Seq<u8>) -> u64 {
    DefaultHasher::spec_finish(seq![stream])
}

/// The source fingerprint: the hash of the filter configuration and of what
/// is known of the input file. Nothing else in the configuration enters it.
pub fn calculate_source_hash(config: &Config, facts: &SourceFacts) -> (hash: u64)
    ensures
        hash == hash_of(fingerprint_stream(fingerprint_input(&config.filters, facts))),
{
    let bytes = fingerprint_bytes(&config.filters, facts);
    let mut hasher = DefaultHasher::new();
    hasher.write(bytes.as_slice());
    assert(hasher@ =~= seq![bytes@]);
    hasher.finish()
}

/// Settings other than the filter lists do not enter the fingerprint: two
/// configurations with the same primary and attribute keys give the same
/// fingerprint for the same file.
pub proof fn law_fingerprint_ignores_other_settings(a: &Config, b: &Config, facts: &SourceFacts)
    requires
        key_texts(a.filters.primary_keys@) == key_texts(b.filters.primary_keys@),
        key_texts(a.filters.attribute_keys@) == key_texts(b.filters.attribute_keys@),
    ensures
        hash_of(fingerprint_stream(fingerprint_input(&a.filters, facts))) == hash_of(
            fingerprint_stream(fingerprint_input(&b.filters, facts)),
        ),
{
    let pa = a.filters.primary_keys@;
    let pb = b.filters.primary_keys@;
    assert(key_texts(pa).len() == key_texts(pb).len());
    assert forall|i: int| 0 <= i < pa.len() implies utf8_of(pa)[i] == utf8_of(pb)[i] by {
        assert(key_texts(pa)[i] == key_texts(pb)[i]);
    }
    assert(utf8_of(pa) =~= utf8_of(pb));
    let qa = a.filters.attribute_keys@;
    let qb = b.filters.attribute_keys@;
    assert(key_texts(qa).len() == key_texts(qb).len());
    assert forall|i: int| 0 <= i < qa.len() implies utf8_of(qa)[i] == utf8_of(qb)[i] by {
        assert(key_texts(qa)[i] == key_texts(qb)[i]);
    }
    assert(utf8_of(qa) =~= utf8_of(qb));
}

} // verus!
