//! Source records as the passes see them, and what the filter configuration
//! selects from their tags.

use vstd::prelude::*;

verus! {

/// One tag of a record.
#[derive(Debug, Clone, PartialEq, Eq)]
pub struct Tag {
    pub key: String,
    pub value: String,
}

/// One record of the input, reduced to what the passes read.
///
/// Ids are the source ids as unsigned 64-bit numbers. `lat` and `lon` are the
/// bit patterns of the position as single-precision floats. A dense node is a
/// `Node`.
#[derive(Debug, Clone)]
pub enum Record {
    Node { id: u64, lat: u32, lon: u32, tags: Vec<Tag> },
    Way { id: u64, refs: Vec<u64>, tags: Vec<Tag> },
    Other,
}

impl Record {
    /// The tags of the record; a record of another kind has none.
    pub open spec fn tags(&self) -> Seq<Tag> {
        match self {
            Record::Node { tags, .. } => tags@,
            Record::Way { tags, .. } => tags@,
            Record::Other => Seq::empty(),
        }
    }
}

/// Some tag has the key `key`; the match is exact.
pub open spec fn has_key(tags: Seq<Tag>, key: Seq<char>) -> bool {
    exists|i: int| 0 <= i < tags.len() && (#[trigger] tags[i]).key@ == key
}

/// Tag `i` is the first one with the key `key`.
pub open spec fn is_first_with_key(tags: Seq<Tag>, key: Seq<char>, i: int) -> bool {
    &&& 0 <= i < tags.len()
    &&& tags[i].key@ == key
    &&& forall|j: int| 0 <= j < i ==> (#[trigger] tags[j]).key@ != key
}

/// The value of the first tag with the key `key`.
pub open spec fn value_of(tags: Seq<Tag>, key: Seq<char>) -> Seq<char> {
    tags[choose|i: int| is_first_with_key(tags, key, i)].value@
}

/// The first tag with a key is the only first one, so its value is the value
/// of the key.
pub proof fn lemma_first_with_key(tags: Seq<Tag>, key: Seq<char>, i: int)
    requires
        is_first_with_key(tags, key, i),
    ensures
        has_key(tags, key),
        value_of(tags, key) == tags[i].value@,
{
    let c = choose|c: int| is_first_with_key(tags, key, c);
    if c < i {
        assert(tags[c].key@ != key);
    } else if i < c {
        assert(tags[i].key@ != key);
    }
}

/// The keys of a list of configured keys, as texts.
pub open spec fn key_texts(keys: Seq<String>) -> Seq<Seq<char>> {
    Seq::new(keys.len(), |i: int| keys[i]@)
}

/// Some key of `keys` is on the record.
pub open spec fn any_key_present(tags: Seq<Tag>, keys: Seq<Seq<char>>) -> bool {
    exists|k: int| 0 <= k < keys.len() && has_key(tags, #[trigger] keys[k])
}

/// The pairs of key and value that `keys` select from `tags`: one pair for
/// each key of `keys` that is on the record, in the order of `keys`.
pub open spec fn selected(tags: Seq<Tag>, keys: Seq<Seq<char>>) -> Seq<(Seq<char>, Seq<char>)>
    decreases keys.len(),
{
    if keys.len() == 0 {
        Seq::empty()
    } else {
        let before = selected(tags, keys.drop_last());
        if has_key(tags, keys.last()) {
            before.push((keys.last(), value_of(tags, keys.last())))
        } else {
            before
        }
    }
}

/// Selecting with a list of keys and then with one more key.
pub proof fn lemma_selected_step(tags: Seq<Tag>, keys: Seq<Seq<char>>, n: int)
    requires
        0 <= n < keys.len(),
    ensures
        selected(tags, keys.take(n + 1)) == (if has_key(tags, keys[n]) {
            selected(tags, keys.take(n)).push((keys[n], value_of(tags, keys[n])))
        } else {
            selected(tags, keys.take(n))
        }),
        selected(tags, keys.take(n)).len() <= n,
    decreases n,
{
    assert(keys.take(n + 1).drop_last() =~= keys.take(n));
    if n > 0 {
        lemma_selected_step(tags, keys, n - 1);
    }
}

/// What is selected holds exactly the configured keys that are on the
/// record, each with the value the record has for it, in configuration
/// order.
pub proof fn law_selected_is_exact(tags: Seq<Tag>, keys: Seq<Seq<char>>)
    ensures
        forall|p: int|
            0 <= p < selected(tags, keys).len() ==> {
                let pair = #[trigger] selected(tags, keys)[p];
                has_key(tags, pair.0) && pair.1 == value_of(tags, pair.0) && keys.contains(pair.0)
            },
        forall|k: int|
            0 <= k < keys.len() && has_key(tags, #[trigger] keys[k]) ==> selected(
                tags,
                keys,
            ).contains((keys[k], value_of(tags, keys[k]))),
        selected(tags, keys).len() <= keys.len(),
    decreases keys.len(),
{
    if keys.len() > 0 {
        let front = keys.drop_last();
        law_selected_is_exact(tags, front);
        let before = selected(tags, front);
        let now = selected(tags, keys);
        assert forall|p: int| 0 <= p < now.len() implies {
            let pair = #[trigger] now[p];
            has_key(tags, pair.0) && pair.1 == value_of(tags, pair.0) && keys.contains(pair.0)
        } by {
            if p < before.len() {
                let pair = before[p];
                let w = choose|w: int| 0 <= w < front.len() && front[w] == pair.0;
                assert(keys[w] == pair.0);
            } else {
                assert(keys[keys.len() - 1] == keys.last());
            }
        }
        assert forall|k: int| 0 <= k < keys.len() && has_key(tags, #[trigger] keys[k]) implies now.contains(
            (keys[k], value_of(tags, keys[k])),
        ) by {
            if k < front.len() {
                assert(front[k] == keys[k]);
                let pair = (keys[k], value_of(tags, keys[k]));
                let w = choose|w: int| 0 <= w < before.len() && before[w] == pair;
                assert(now[w] == pair);
            } else {
                assert(now[now.len() - 1] == (keys[k], value_of(tags, keys[k])));
            }
        }
    }
}

/// The position of the first tag with the key `key`, if there is one.
pub fn find_tag(tags: &Vec<Tag>, key: &String) -> (found: Option<usize>)
    ensures
        found is Some <==> has_key(tags@, key@),
        found is Some ==> is_first_with_key(tags@, key@, found->0 as int),
{
    let mut i: usize = 0;
    while i < tags.len()
        invariant
            0 <= i <= tags@.len(),
            forall|j: int| 0 <= j < i ==> (#[trigger] tags@[j]).key@ != key@,
        decreases tags@.len() - i,
    {
        if tags[i].key == *key {
            proof {
                lemma_first_with_key(tags@, key@, i as int);
            }
            return Some(i);
        }
        i = i + 1;
    }
    None
}

/// Whether some key of `keys` is on the record.
pub fn has_any_key(tags: &Vec<Tag>, keys: &Vec<String>) -> (present: bool)
    ensures
        present == any_key_present(tags@, key_texts(keys@)),
{
    let mut k: usize = 0;
    while k < keys.len()
        invariant
            0 <= k <= keys@.len(),
            forall|j: int| 0 <= j < k ==> !has_key(tags@, #[trigger] key_texts(keys@)[j]),
        decreases keys@.len() - k,
    {
        if find_tag(tags, &keys[k]).is_some() {
            assert(has_key(tags@, key_texts(keys@)[k as int]));
            return true;
        }
        k = k + 1;
    }
    false
}

/// Selecting with two lists of keys, one after the other, is selecting with
/// their concatenation.
pub proof fn lemma_selected_concat(tags: Seq<Tag>, a: Seq<Seq<char>>, b: Seq<Seq<char>>)
    ensures
        selected(tags, a + b) == selected(tags, a) + selected(tags, b),
    decreases b.len(),
{
    if b.len() == 0 {
        assert(a + b =~= a);
        assert(selected(tags, a) + selected(tags, b) =~= selected(tags, a));
    } else {
        assert((a + b).drop_last() =~= a + b.drop_last());
        assert((a + b).last() == b.last());
        lemma_selected_concat(tags, a, b.drop_last());
        let front = selected(tags, a) + selected(tags, b.drop_last());
        if has_key(tags, b.last()) {
            let pair = (b.last(), value_of(tags, b.last()));
            assert(front.push(pair) =~= selected(tags, a) + selected(tags, b.drop_last()).push(
                pair,
            ));
        }
    }
}

/// The pairs of key and value of the tags at the positions `picks`.
pub open spec fn picked(tags: Seq<Tag>, picks: Seq<usize>) -> Seq<(Seq<char>, Seq<char>)> {
    Seq::new(picks.len(), |j: int| (tags[picks[j] as int].key@, tags[picks[j] as int].value@))
}

/// Appends to `picks` the positions of the tags that `keys` select, in the
/// order of `keys`.
pub fn pick_from(tags: &Vec<Tag>, keys: &Vec<String>, picks: &mut Vec<usize>)
    requires
        forall|j: int| 0 <= j < old(picks)@.len() ==> (#[trigger] old(picks)@[j]) < tags@.len(),
    ensures
        forall|j: int| 0 <= j < final(picks)@.len() ==> (#[trigger] final(picks)@[j]) < tags@.len(),
        picked(tags@, final(picks)@) == picked(tags@, old(picks)@) + selected(
            tags@,
            key_texts(keys@),
        ),
{
    let ghost texts = key_texts(keys@);
    let mut k: usize = 0;
    proof {
        assert(texts.take(0) =~= Seq::<Seq<char>>::empty());
        assert(picked(tags@, picks@) =~= picked(tags@, old(picks)@) + selected(
            tags@,
            texts.take(0),
        ));
    }
    while k < keys.len()
        invariant
            0 <= k <= keys@.len(),
            texts == key_texts(keys@),
            forall|j: int| 0 <= j < picks@.len() ==> (#[trigger] picks@[j]) < tags@.len(),
            picked(tags@, picks@) == picked(tags@, old(picks)@) + selected(
                tags@,
                texts.take(k as int),
            ),
        decreases keys@.len() - k,
    {
        proof {
            lemma_selected_step(tags@, texts, k as int);
        }
        let ghost before = picks@;
        match find_tag(tags, &keys[k]) {
            Some(i) => {
                picks.push(i);
                proof {
                    lemma_first_with_key(tags@, texts[k as int], i as int);
                    assert(picked(tags@, picks@) =~= picked(tags@, before).push(
                        (texts[k as int], value_of(tags@, texts[k as int])),
                    ));
                    assert(picked(tags@, picks@) =~= picked(tags@, old(picks)@) + selected(
                        tags@,
                        texts.take(k as int + 1),
                    ));
                }
            },
            None => {},
        }
        k = k + 1;
    }
    assert(texts.take(k as int) =~= texts);
}

} // verus!
