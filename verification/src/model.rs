//! The data the pipeline produces and the query side reads: elements, the
//! string interner in its two forms, and the flattened tag-set store.

use vstd::prelude::*;
use vstd::hash_map::StringHashMap;
use vstd::utf8::*;
use dashmap::DashMap;
use crate::dash::{id_strings, id_strings_get, id_strings_insert, id_strings_new, string_ids,
    string_ids_get, string_ids_insert, string_ids_new};
use crate::text::utf8_text;

verus! {

/// One emitted piece of geometry: a node, or one segment of a way.
///
/// `coordinates` is `[[lat1, lon1], [lat2, lon2]]`, each number the IEEE-754
/// bit pattern of a single-precision float. For a node both endpoints are the
/// same. Several elements may share an `id`: every segment of a way carries
/// the id of the way.
#[derive(Debug, Clone, Copy, PartialEq, Eq)]
pub struct Element {
    pub id: u64,
    pub coordinates: [[u32; 2]; 2],
    /// Index into the flattened tag-set store.
    pub tag_set_id: u32,
}

/// One contiguous byte buffer that holds every interned string back to back.
#[derive(Debug)]
pub struct Pool(Vec<u8>);

impl View for Pool {
    type V = Seq<u8>;

    closed spec fn view(&self) -> Seq<u8> {
        self.0@
    }
}

impl Pool {
    /// An empty pool.
    pub fn new() -> (pool: Pool)
        ensures
            pool@ == Seq::<u8>::empty(),
    {
        Pool(Vec::new())
    }

    /// A pool over the given bytes.
    pub fn from_bytes(bytes: Vec<u8>) -> (pool: Pool)
        ensures
            pool@ == bytes@,
    {
        Pool(bytes)
    }

    /// The number of bytes in the pool.
    pub fn len(&self) -> (n: usize)
        ensures
            n == self@.len(),
    {
        self.0.len()
    }

    /// The bytes of the pool.
    pub fn as_bytes(&self) -> (bytes: &[u8])
        ensures
            bytes@ == self@,
    {
        self.0.as_slice()
    }

    /// A pool is never longer than memory can address.
    pub proof fn lemma_len_fits(&self)
        ensures
            self@.len() <= usize::MAX,
    {
        assert(self.0.len() == self.0@.len());
    }

    /// Appends `bytes` at the end; what was there stays where it was.
    pub fn append(&mut self, bytes: &[u8])
        ensures
            final(self)@ == old(self)@ + bytes@,
    {
        self.0.extend_from_slice(bytes);
        assert(self.0@ =~= old(self).0@ + bytes@);
    }
}

impl Default for Pool {
    fn default() -> (pool: Pool)
        ensures
            pool@ == Seq::<u8>::empty(),
    {
        Pool::new()
    }
}

impl Clone for Pool {
    fn clone(&self) -> (copy: Pool)
        ensures
            copy@ == self@,
    {
        let bytes = self.0.clone();
        assert(bytes@ =~= self.0@);
        Pool(bytes)
    }
}

/// The table after `s` has been interned: unchanged if `s` is already in it,
/// else with `s` at the end.
pub open spec fn interned<T>(table: Seq<T>, s: T) -> Seq<T> {
    if table.contains(s) {
        table
    } else {
        table.push(s)
    }
}

/// The id that interning `s` into `table` gives: the position of `s` if it is
/// in the table, else the next free position.
pub open spec fn id_of<T>(table: Seq<T>, s: T) -> int {
    if table.contains(s) {
        table.index_of(s)
    } else {
        table.len() as int
    }
}

/// In a table without repetitions, the id of `s` is the one position that
/// holds `s` once it is interned.
pub proof fn lemma_id_of<T>(table: Seq<T>, s: T, i: int)
    requires
        table.no_duplicates(),
        0 <= i < interned(table, s).len(),
        interned(table, s)[i] == s,
    ensures
        i == id_of(table, s),
        interned(table, s).no_duplicates(),
{
    if table.contains(s) {
        let j = table.index_of(s);
        assert(table[j] == s);
    } else {
        if i < table.len() {
            assert(table[i] == s);
        }
        assert forall|a: int, b: int|
            0 <= a < table.len() + 1 && 0 <= b < table.len() + 1 && a != b implies table.push(
            s,
        )[a] != table.push(s)[b] by {
            if a < table.len() && b < table.len() {
            } else if a < table.len() {
                assert(table[a] != s);
            } else {
                assert(table[b] != s);
            }
        }
    }
}

/// Interning keeps a table free of repetitions, keeps every id that was
/// assigned, and puts `s` at its id.
pub proof fn lemma_interned<T>(table: Seq<T>, s: T)
    requires
        table.no_duplicates(),
    ensures
        interned(table, s).no_duplicates(),
        table.len() <= interned(table, s).len() <= table.len() + 1,
        forall|i: int| 0 <= i < table.len() ==> interned(table, s)[i] == table[i],
        0 <= id_of(table, s) < interned(table, s).len(),
        interned(table, s)[id_of(table, s)] == s,
{
    if table.contains(s) {
        let j = table.index_of(s);
        assert(table[j] == s);
        lemma_id_of(table, s, j);
    } else {
        lemma_id_of(table, s, table.len() as int);
    }
}

/// Interning is injective and ids resolve to what they were given for.
///
/// Let `a` be interned into `table`, and later, after any number of further
/// internings that led to the table `later`, let `b` be interned. Then the
/// id of `a` still holds `a`, the id of `b` holds `b`, and the two ids are
/// the same exactly when `a` and `b` are.
pub proof fn law_interning_is_injective<T>(table: Seq<T>, a: T, later: Seq<T>, b: T)
    requires
        table.no_duplicates(),
        later.no_duplicates(),
        interned(table, a).is_prefix_of(later),
    ensures
        ({
            let last = interned(later, b);
            &&& 0 <= id_of(table, a) < last.len()
            &&& 0 <= id_of(later, b) < last.len()
            &&& last[id_of(table, a)] == a
            &&& last[id_of(later, b)] == b
            &&& a == b <==> id_of(table, a) == id_of(later, b)
        }),
{
    let after_a = interned(table, a);
    let last = interned(later, b);
    lemma_interned(table, a);
    lemma_interned(later, b);
    assert(later[id_of(table, a)] == after_a[id_of(table, a)]);
    if a == b {
        lemma_id_of(later, b, id_of(table, a));
    }
}

/// What the preprocessing passes need from an interner: a table of distinct
/// strings, indexed by id, that only ever grows at the end.
pub trait InternerLike {
    /// The interned strings; the id of a string is its position.
    spec fn table(&self) -> Seq<Seq<char>>;

    /// The interner is consistent and can look strings up by content.
    spec fn ready(&self) -> bool;

    /// Interning a new string `s` will not run out of ids or of addressable
    /// bytes.
    spec fn has_room(&self, s: Seq<char>) -> bool;

    /// No string has two ids.
    proof fn lemma_table_is_distinct(&self)
        requires
            self.ready(),
        ensures
            self.table().no_duplicates(),
    ;

    /// The id of `s`, assigning the next free id if `s` is new.
    fn get_or_intern(&mut self, s: &str) -> (id: u32)
        requires
            old(self).ready(),
            old(self).table().contains(s@) || old(self).has_room(s@),
        ensures
            final(self).ready(),
            final(self).table() == interned(old(self).table(), s@),
            id == id_of(old(self).table(), s@),
    ;
}

/// The read form of the interner: every string once, concatenated in `pool`,
/// with `offsets[id]` and `lengths[id]` locating string `id`, and `map` going
/// from a string back to its id.
///
/// `map` may be emptied once nothing is interned any more; `lookup` does not
/// use it.
pub struct StringInterner {
    pub map: StringHashMap<u32>,
    pub pool: Pool,
    pub offsets: Vec<u32>,
    pub lengths: Vec<u32>,
}

impl StringInterner {
    /// Entry `i` exists and lies inside the pool.
    pub open spec fn entry_in_bounds(&self, i: int) -> bool {
        &&& 0 <= i < self.offsets@.len()
        &&& i < self.lengths@.len()
        &&& self.offsets@[i] + self.lengths@[i] <= self.pool@.len()
    }

    /// The bytes of entry `i`.
    pub open spec fn entry_bytes(&self, i: int) -> Seq<u8> {
        self.pool@.subrange(self.offsets@[i] as int, self.offsets@[i] + self.lengths@[i])
    }

    /// Entry `i` exists, lies inside the pool and is valid UTF-8.
    pub open spec fn entry_ok(&self, i: int) -> bool {
        self.entry_in_bounds(i) && valid_utf8(self.entry_bytes(i))
    }

    /// The interned strings by id.
    pub open spec fn strings(&self) -> Seq<Seq<char>> {
        Seq::new(self.offsets@.len(), |i: int| decode_utf8(self.entry_bytes(i)))
    }

    /// `offsets` and `lengths` describe valid UTF-8 slices of the pool, one per
    /// id, and every id fits in 32 bits.
    pub open spec fn layout_ok(&self) -> bool {
        &&& self.offsets@.len() == self.lengths@.len()
        &&& self.offsets@.len() <= u32::MAX
        &&& forall|i: int| 0 <= i < self.offsets@.len() ==> #[trigger] self.entry_ok(i)
    }

    /// Whatever `map` holds is right: a key maps to an id of that very string.
    pub open spec fn map_ok(&self) -> bool {
        forall|k: Seq<char>| #[trigger]
            self.map@.contains_key(k) ==> (self.map@[k] as int) < self.strings().len()
                && self.strings()[self.map@[k] as int] == k
    }

    /// The layout is sound and `map` holds nothing wrong.
    pub open spec fn wf(&self) -> bool {
        self.layout_ok() && self.map_ok()
    }

    /// `map` knows every interned string, so strings can be found by content.
    pub open spec fn indexed(&self) -> bool {
        forall|i: int|
            0 <= i < self.strings().len() ==> self.map@.contains_key(#[trigger] self.strings()[i])
                && self.map@[self.strings()[i]] == i
    }

    /// There is an id left and the pool stays addressable with 32-bit offsets.
    pub open spec fn room_for(&self, s: Seq<char>) -> bool {
        &&& self.offsets@.len() < u32::MAX
        &&& self.pool@.len() + encode_utf8(s).len() <= u32::MAX
    }

    /// An indexed interner never holds a string twice.
    pub proof fn lemma_strings_are_distinct(&self)
        requires
            self.wf(),
            self.indexed(),
        ensures
            self.strings().no_duplicates(),
    {
        let t = self.strings();
        assert forall|i: int, j: int| 0 <= i < t.len() && 0 <= j < t.len() && i != j implies t[i]
            != t[j] by {
            if t[i] == t[j] {
                assert(self.map@[t[i]] == i);
                assert(self.map@[t[j]] == j);
            }
        }
    }

    /// An empty interner.
    pub fn new() -> (interner: StringInterner)
        ensures
            interner.wf(),
            interner.indexed(),
            interner.strings() == Seq::<Seq<char>>::empty(),
            interner.pool@ == Seq::<u8>::empty(),
    {
        let interner = StringInterner {
            map: StringHashMap::new(),
            pool: Pool::new(),
            offsets: Vec::new(),
            lengths: Vec::new(),
        };
        assert(interner.strings() =~= Seq::<Seq<char>>::empty());
        interner
    }

    /// Whether `s` can still be interned.
    pub fn has_room_for(&self, s: &str) -> (room: bool)
        ensures
            room == self.room_for(s@),
    {
        let need: usize = s.as_bytes().len();
        let used: usize = self.pool.len();
        self.offsets.len() < u32::MAX as usize && used <= u32::MAX as usize && need <= u32::MAX as usize
            - used
    }

    /// The id of `s`, assigning the next free id if `s` is new.
    pub fn get_or_intern(&mut self, s: &str) -> (id: u32)
        requires
            old(self).wf(),
            old(self).indexed(),
            old(self).strings().contains(s@) || old(self).room_for(s@),
        ensures
            final(self).wf(),
            final(self).indexed(),
            final(self).strings() == interned(old(self).strings(), s@),
            id == id_of(old(self).strings(), s@),
            old(self).strings().contains(s@) ==> {
                &&& final(self).pool@ == old(self).pool@
                &&& final(self).offsets@ == old(self).offsets@
                &&& final(self).lengths@ == old(self).lengths@
                &&& final(self).map@ == old(self).map@
            },
            !old(self).strings().contains(s@) ==> {
                &&& final(self).pool@ == old(self).pool@ + encode_utf8(s@)
                &&& final(self).offsets@ == old(self).offsets@.push(old(self).pool@.len() as u32)
                &&& final(self).lengths@ == old(self).lengths@.push(encode_utf8(s@).len() as u32)
                &&& final(self).map@ == old(self).map@.insert(s@, id)
                &&& old(self).pool@.len() <= u32::MAX
                &&& encode_utf8(s@).len() <= u32::MAX
            },
    {
        match self.map.get(s) {
            Some(known) => {
                let id: u32 = *known;
                proof {
                    self.lemma_strings_are_distinct();
                    lemma_id_of(self.strings(), s@, id as int);
                }
                return id;
            },
            None => {},
        }
        proof {
            if self.strings().contains(s@) {
                let i = choose|i: int| 0 <= i < self.strings().len() && self.strings()[i] == s@;
                assert(self.map@.contains_key(self.strings()[i]));
            }
        }
        let bytes = s.as_bytes();
        let start: usize = self.pool.len();
        let id: u32 = self.offsets.len() as u32;
        self.pool.append(bytes);
        self.offsets.push(start as u32);
        self.lengths.push(bytes.len() as u32);
        self.map.insert(s.to_owned(), id);
        proof {
            let old_strings = old(self).strings();
            encode_utf8_valid_utf8(s@);
            encode_utf8_decode_utf8(s@);
            assert forall|i: int| 0 <= i < self.offsets@.len() implies self.entry_bytes(i) == (if i
                < id {
                old(self).entry_bytes(i)
            } else {
                encode_utf8(s@)
            }) by {
                if i < id {
                    assert(old(self).entry_ok(i));
                    assert(self.entry_bytes(i) =~= old(self).entry_bytes(i));
                } else {
                    assert(self.entry_bytes(i) =~= encode_utf8(s@));
                }
            }
            assert forall|i: int| 0 <= i < self.offsets@.len() implies #[trigger] self.entry_ok(
                i,
            ) by {
                if i < id {
                    assert(old(self).entry_ok(i));
                }
            }
            assert(self.strings() =~= old_strings.push(s@));
        }
        id
    }

    /// The string with the given id, if the id has been assigned.
    pub fn lookup(&self, id: u32) -> (found: Option<String>)
        ensures
            found is Some <==> self.entry_ok(id as int),
            found is Some ==> found->0@ == decode_utf8(self.entry_bytes(id as int)),
            self.layout_ok() ==> (found is Some <==> (id as int) < self.strings().len()),
            self.layout_ok() && found is Some ==> found->0@ == self.strings()[id as int],
    {
        let idx: usize = id as usize;
        proof {
            if self.layout_ok() && (id as int) < self.strings().len() {
                assert(self.entry_ok(id as int));
            }
        }
        if idx >= self.offsets.len() || idx >= self.lengths.len() {
            return None;
        }
        let start: usize = self.offsets[idx] as usize;
        let len: usize = self.lengths[idx] as usize;
        let total: usize = self.pool.len();
        if start > total || len > total - start {
            return None;
        }
        let pool = self.pool.as_bytes();
        let found = utf8_text(&pool[start..start + len]);
        proof {
            if found is Some {
                encode_utf8_decode_utf8(found->0@);
            }
        }
        found
    }

    /// Whether `offsets` and `lengths` describe valid UTF-8 slices of the
    /// pool and every id fits in 32 bits.
    pub fn check_layout(&self) -> (sound: bool)
        ensures
            sound == self.layout_ok(),
    {
        let n: usize = self.offsets.len();
        if self.lengths.len() != n || n > u32::MAX as usize {
            return false;
        }
        let mut i: usize = 0;
        while i < n
            invariant
                0 <= i <= n,
                n == self.offsets@.len(),
                n == self.lengths@.len(),
                n <= u32::MAX,
                forall|j: int| 0 <= j < i ==> #[trigger] self.entry_ok(j),
            decreases n - i,
        {
            if self.lookup(i as u32).is_none() {
                assert(!self.entry_ok(i as int));
                return false;
            }
            i = i + 1;
        }
        true
    }

    /// Fills the string-to-id side from the pool. Where a string occurs under
    /// several ids it is found under the first.
    pub fn rebuild_map(&mut self)
        requires
            old(self).layout_ok(),
        ensures
            final(self).wf(),
            final(self).pool == old(self).pool,
            final(self).offsets == old(self).offsets,
            final(self).lengths == old(self).lengths,
            final(self).strings() == old(self).strings(),
            forall|i: int|
                0 <= i < final(self).strings().len() ==> final(self).map@.contains_key(
                    #[trigger] final(self).strings()[i],
                ) && final(self).map@[final(self).strings()[i]] <= i,
            final(self).strings().no_duplicates() ==> final(self).indexed(),
    {
        self.map.clear();
        let n: usize = self.offsets.len();
        let mut i: usize = 0;
        proof {
            assert forall|j: int| 0 <= j < self.offsets@.len() implies #[trigger] self.entry_ok(
                j,
            ) by {
                assert(old(self).entry_ok(j));
            }
            assert(self.strings() =~= old(self).strings());
        }
        while i < n
            invariant
                0 <= i <= n,
                n == self.offsets@.len(),
                self.layout_ok(),
                self.map_ok(),
                self.pool == old(self).pool,
                self.offsets == old(self).offsets,
                self.lengths == old(self).lengths,
                self.strings() == old(self).strings(),
                forall|j: int|
                    0 <= j < i ==> self.map@.contains_key(#[trigger] self.strings()[j])
                        && self.map@[self.strings()[j]] <= j,
                self.strings().no_duplicates() ==> forall|j: int|
                    0 <= j < i ==> self.map@[#[trigger] self.strings()[j]] == j,
                forall|k: Seq<char>| #[trigger]
                    self.map@.contains_key(k) ==> (self.map@[k] as int) < i,
            decreases n - i,
        {
            let ghost before = *self;
            let text = self.lookup(i as u32);
            match text {
                Some(s) => {
                    if !self.map.contains_key(s.as_str()) {
                        self.map.insert(s, i as u32);
                    }
                },
                None => {
                    assert(self.entry_ok(i as int));
                },
            }
            proof {
                assert forall|j: int| 0 <= j < self.offsets@.len() implies
                #[trigger] self.entry_ok(j) by {
                    assert(before.entry_ok(j));
                }
                assert(self.strings() =~= before.strings());
                let t = self.strings();
                if t.no_duplicates() {
                    assert forall|j: int| 0 <= j < i + 1 implies self.map@[#[trigger] t[j]]
                        == j by {
                        if j < i {
                            assert(t[j] != t[i as int]);
                            assert(before.map@[before.strings()[j]] == j);
                        } else {
                            if before.map@.contains_key(t[i as int]) {
                                let w = before.map@[t[i as int]] as int;
                                assert(t[w] == t[i as int]);
                            }
                        }
                    }
                }
                assert forall|j: int| 0 <= j < i + 1 implies self.map@.contains_key(
                    #[trigger] t[j],
                ) && self.map@[t[j]] <= j by {
                    if j < i {
                        assert(before.map@.contains_key(before.strings()[j]));
                    }
                }
            }
            i = i + 1;
        }
        proof {
            if self.strings().no_duplicates() {
                assert forall|j: int| 0 <= j < self.strings().len() implies self.map@.contains_key(
                    #[trigger] self.strings()[j],
                ) && self.map@[self.strings()[j]] == j by {}
            }
        }
    }

    /// Forgets the string-to-id side; ids keep resolving through `lookup`.
    pub fn drop_map(&mut self)
        ensures
            old(self).layout_ok() ==> final(self).wf(),
            final(self).strings() == old(self).strings(),
            final(self).pool == old(self).pool,
            final(self).offsets == old(self).offsets,
            final(self).lengths == old(self).lengths,
            final(self).map@ == Map::<Seq<char>, u32>::empty(),
    {
        self.map.clear();
        proof {
            if old(self).layout_ok() {
                assert forall|i: int| 0 <= i < self.offsets@.len() implies
                #[trigger] self.entry_ok(i) by {
                    assert(old(self).entry_ok(i));
                }
            }
            assert(self.strings() =~= old(self).strings());
        }
    }
}

impl Default for StringInterner {
    fn default() -> (interner: StringInterner)
        ensures
            interner.wf(),
            interner.indexed(),
            interner.strings() == Seq::<Seq<char>>::empty(),
    {
        StringInterner::new()
    }
}

impl Clone for StringInterner {
    /// A copy with the same pool, offsets and lengths. The copy's map holds
    /// what this map holds for the interned strings, which for a sound
    /// interner is all of it.
    fn clone(&self) -> (copy: StringInterner)
        ensures
            copy.pool@ == self.pool@,
            copy.offsets@ == self.offsets@,
            copy.lengths@ == self.lengths@,
            self.wf() ==> copy.map@ == self.map@,
    {
        let offsets = self.offsets.clone();
        let lengths = self.lengths.clone();
        let pool = self.pool.clone();
        let mut map: StringHashMap<u32> = StringHashMap::new();
        let n: usize = if self.offsets.len() <= u32::MAX as usize {
            self.offsets.len()
        } else {
            u32::MAX as usize
        };
        let mut i: usize = 0;
        while i < n
            invariant
                0 <= i <= n,
                n <= self.offsets@.len(),
                n <= u32::MAX,
                self.layout_ok() ==> n == self.offsets@.len(),
                forall|k: Seq<char>| #[trigger]
                    map@.contains_key(k) ==> self.map@.contains_key(k) && map@[k] == self.map@[k],
                self.layout_ok() ==> forall|j: int|
                    0 <= j < i && self.map@.contains_key(#[trigger] self.strings()[j])
                        ==> map@.contains_key(self.strings()[j]),
            decreases n - i,
        {
            match self.lookup(i as u32) {
                Some(s) => {
                    match self.map.get(s.as_str()) {
                        Some(id) => {
                            let id: u32 = *id;
                            map.insert(s, id);
                        },
                        None => {},
                    }
                },
                None => {},
            }
            i = i + 1;
        }
        proof {
            assert(offsets@ =~= self.offsets@);
            assert(lengths@ =~= self.lengths@);
            if self.wf() {
                assert forall|k: Seq<char>| self.map@.contains_key(k) implies map@.contains_key(
                    k,
                ) by {
                    let j = self.map@[k] as int;
                    assert(self.strings()[j] == k);
                }
                assert(map@ =~= self.map@);
            }
        }
        StringInterner { map, pool, offsets, lengths }
    }
}

impl InternerLike for StringInterner {
    open spec fn table(&self) -> Seq<Seq<char>> {
        self.strings()
    }

    open spec fn ready(&self) -> bool {
        self.wf() && self.indexed()
    }

    open spec fn has_room(&self, s: Seq<char>) -> bool {
        self.room_for(s)
    }

    proof fn lemma_table_is_distinct(&self) {
        self.lemma_strings_are_distinct();
    }

    fn get_or_intern(&mut self, s: &str) -> (id: u32) {
        StringInterner::get_or_intern(self, s)
    }
}

/// The bytes that the strings of `table` take when encoded back to back.
pub open spec fn total_bytes(table: Seq<Seq<char>>) -> nat
    decreases table.len(),
{
    if table.len() == 0 {
        0
    } else {
        total_bytes(table.drop_last()) + encode_utf8(table.last()).len()
    }
}

/// A prefix of a table never takes more bytes than the table.
pub proof fn lemma_total_bytes_prefix(table: Seq<Seq<char>>, n: int)
    requires
        0 <= n <= table.len(),
    ensures
        total_bytes(table.take(n)) <= total_bytes(table),
        n < table.len() ==> total_bytes(table.take(n + 1)) == total_bytes(table.take(n))
            + encode_utf8(table[n]).len(),
    decreases table.len() - n,
{
    if n == table.len() {
        assert(table.take(n) =~= table);
    } else {
        assert(table.take(n + 1).drop_last() =~= table.take(n));
        lemma_total_bytes_prefix(table, n + 1);
    }
}

/// The encodings of the strings of `table`, back to back in id order.
pub open spec fn pool_of(table: Seq<Seq<char>>) -> Seq<u8>
    decreases table.len(),
{
    if table.len() == 0 {
        Seq::empty()
    } else {
        pool_of(table.drop_last()) + encode_utf8(table.last())
    }
}

/// The pool of a table is as long as the bytes of its strings together.
pub proof fn lemma_pool_of_len(table: Seq<Seq<char>>)
    ensures
        pool_of(table).len() == total_bytes(table),
    decreases table.len(),
{
    if table.len() > 0 {
        lemma_pool_of_len(table.drop_last());
    }
}

impl StringInterner {
    /// The interner holds `table` without gaps: the pool is the encodings of
    /// the strings in id order, each offset is where the encodings before it
    /// end, and each length is the byte length of its string.
    pub open spec fn holds_exactly(&self, table: Seq<Seq<char>>) -> bool {
        &&& self.pool@ == pool_of(table)
        &&& self.offsets@.len() == table.len()
        &&& self.lengths@.len() == table.len()
        &&& forall|k: int|
            0 <= k < table.len() ==> (#[trigger] self.offsets@[k]) == total_bytes(table.take(k))
        &&& forall|k: int|
            0 <= k < table.len() ==> (#[trigger] self.lengths@[k]) == encode_utf8(table[k]).len()
    }

    /// In an interner without gaps the first string starts at 0, every other
    /// string starts where the one before it ends, and the pool ends with the
    /// last string.
    pub proof fn law_layout_is_contiguous(&self, table: Seq<Seq<char>>)
        requires
            self.holds_exactly(table),
        ensures
            table.len() > 0 ==> self.offsets@[0] == 0,
            forall|k: int|
                0 <= k && k + 1 < table.len() ==> (#[trigger] self.offsets@[k + 1])
                    == self.offsets@[k] + self.lengths@[k],
            self.pool@.len() == total_bytes(table),
            table.len() > 0 ==> self.pool@.len() == self.offsets@[table.len() - 1]
                + self.lengths@[table.len() - 1],
    {
        lemma_pool_of_len(table);
        if table.len() > 0 {
            assert(table.take(0) =~= Seq::<Seq<char>>::empty());
            lemma_total_bytes_prefix(table, table.len() - 1);
            assert(table.take(table.len() as int) =~= table);
        }
        assert forall|k: int| 0 <= k && k + 1 < table.len() implies (#[trigger] self.offsets@[k
            + 1]) == self.offsets@[k] + self.lengths@[k] by {
            lemma_total_bytes_prefix(table, k);
        }
    }
}

/// The write form of the interner, used while the passes run: strings by id in
/// `reverse`, ids by string in `map`.
///
/// Interning goes through an exclusive reference; callers that share one
/// interner between workers put it behind a lock.
pub struct ConcurrentInterner {
    map: DashMap<String, u32>,
    reverse: DashMap<u32, String>,
    next_id: u32,
    pooled: u32,
}

impl ConcurrentInterner {
    /// The interned strings by id.
    pub closed spec fn strings(&self) -> Seq<Seq<char>> {
        Seq::new(self.next_id as nat, |i: int| id_strings(self.reverse)[i as u32])
    }

    /// The two directions agree, ids are dense, and the strings would fit in a
    /// pool addressed with 32-bit offsets.
    pub closed spec fn wf(&self) -> bool {
        &&& forall|i: int|
            0 <= i < self.next_id ==> #[trigger] id_strings(self.reverse).contains_key(i as u32)
        &&& self.pooled == total_bytes(self.strings())
        &&& forall|i: int|
            0 <= i < self.strings().len() ==> string_ids(self.map).contains_key(
                #[trigger] self.strings()[i],
            ) && string_ids(self.map)[self.strings()[i]] == i
        &&& forall|k: Seq<char>| #[trigger]
            string_ids(self.map).contains_key(k) ==> self.strings().contains(k)
    }

    /// There is an id left and the strings still fit in a pool addressed with
    /// 32-bit offsets.
    pub open spec fn room_for(&self, s: Seq<char>) -> bool {
        &&& self.strings().len() < u32::MAX
        &&& total_bytes(self.strings()) + encode_utf8(s).len() <= u32::MAX
    }

    /// No string has two ids, and the counts stay within 32 bits.
    pub proof fn lemma_strings_are_distinct(&self)
        requires
            self.wf(),
        ensures
            self.strings().no_duplicates(),
            self.strings().len() <= u32::MAX,
            total_bytes(self.strings()) <= u32::MAX,
    {
        let t = self.strings();
        assert forall|i: int, j: int| 0 <= i < t.len() && 0 <= j < t.len() && i != j implies t[i]
            != t[j] by {
            if t[i] == t[j] {
                assert(string_ids(self.map)[t[i]] == i);
                assert(string_ids(self.map)[t[j]] == j);
            }
        }
    }

    /// An empty interner.
    pub fn new() -> (interner: ConcurrentInterner)
        ensures
            interner.wf(),
            interner.strings() == Seq::<Seq<char>>::empty(),
    {
        let interner = ConcurrentInterner {
            map: string_ids_new(),
            reverse: id_strings_new(),
            next_id: 0,
            pooled: 0,
        };
        assert(interner.strings() =~= Seq::<Seq<char>>::empty());
        interner
    }

    /// How many strings are interned.
    pub fn len(&self) -> (n: usize)
        requires
            self.wf(),
        ensures
            n == self.strings().len(),
    {
        self.next_id as usize
    }

    /// Whether `s` can still be interned.
    pub fn has_room_for(&self, s: &str) -> (room: bool)
        requires
            self.wf(),
        ensures
            room == self.room_for(s@),
    {
        let need: usize = s.as_bytes().len();
        self.next_id < u32::MAX && need <= (u32::MAX - self.pooled) as usize
    }

    /// How many more strings can get an id.
    pub fn spare_ids(&self) -> (spare: u32)
        requires
            self.wf(),
        ensures
            spare == u32::MAX - self.strings().len(),
    {
        u32::MAX - self.next_id
    }

    /// How many more bytes of text fit.
    pub fn spare_bytes(&self) -> (spare: u32)
        requires
            self.wf(),
        ensures
            spare == u32::MAX - total_bytes(self.strings()),
    {
        u32::MAX - self.pooled
    }

    /// The id of `s`, assigning the next free id if `s` is new.
    pub fn get_or_intern(&mut self, s: &str) -> (id: u32)
        requires
            old(self).wf(),
            old(self).strings().contains(s@) || old(self).room_for(s@),
        ensures
            final(self).wf(),
            final(self).strings() == interned(old(self).strings(), s@),
            id == id_of(old(self).strings(), s@),
    {
        match string_ids_get(&self.map, s) {
            Some(id) => {
                proof {
                    let i = choose|i: int|
                        0 <= i < self.strings().len() && self.strings()[i] == s@;
                    assert(string_ids(self.map)[self.strings()[i]] == i);
                    self.lemma_strings_are_distinct();
                    lemma_id_of(self.strings(), s@, i);
                }
                return id;
            },
            None => {},
        }
        proof {
            if self.strings().contains(s@) {
                let i = choose|i: int| 0 <= i < self.strings().len() && self.strings()[i] == s@;
                assert(string_ids(self.map).contains_key(self.strings()[i]));
            }
        }
        let id: u32 = self.next_id;
        let need: usize = s.as_bytes().len();
        string_ids_insert(&mut self.map, s.to_owned(), id);
        id_strings_insert(&mut self.reverse, id, s.to_owned());
        self.next_id = id + 1;
        self.pooled = self.pooled + need as u32;
        proof {
            let before = old(self).strings();
            assert(self.strings() =~= before.push(s@));
            assert(self.strings().drop_last() =~= before);
            assert forall|k: Seq<char>| #[trigger]
                string_ids(self.map).contains_key(k) implies self.strings().contains(k) by {
                if k == s@ {
                    assert(self.strings()[id as int] == s@);
                } else {
                    assert(before.contains(k));
                    let i = choose|i: int| 0 <= i < before.len() && before[i] == k;
                    assert(self.strings()[i] == k);
                }
            }
        }
        id
    }

    /// The read form with the same strings under the same ids.
    pub fn to_string_interner(&self) -> (frozen: StringInterner)
        requires
            self.wf(),
        ensures
            frozen.wf(),
            frozen.indexed(),
            frozen.strings() == self.strings(),
            frozen.holds_exactly(self.strings()),
    {
        let mut frozen = StringInterner::new();
        let n: u32 = self.next_id;
        let mut i: u32 = 0;
        proof {
            self.lemma_strings_are_distinct();
            assert(self.strings().take(0) =~= Seq::<Seq<char>>::empty());
        }
        while i < n
            invariant
                self.wf(),
                n == self.strings().len(),
                0 <= i <= n,
                self.strings().no_duplicates(),
                self.strings().len() <= u32::MAX,
                total_bytes(self.strings()) <= u32::MAX,
                frozen.wf(),
                frozen.indexed(),
                frozen.strings() == self.strings().take(i as int),
                frozen.holds_exactly(self.strings().take(i as int)),
            decreases n - i,
        {
            let ghost before = frozen;
            proof {
                let t = self.strings();
                lemma_total_bytes_prefix(t, i as int);
                lemma_total_bytes_prefix(t, i as int + 1);
                lemma_pool_of_len(t.take(i as int));
                if t.take(i as int).contains(t[i as int]) {
                    let j = choose|j: int| 0 <= j < i && t.take(i as int)[j] == t[i as int];
                    assert(t[j] == t[i as int]);
                }
                assert(t.take(i as int).push(t[i as int]) =~= t.take(i as int + 1));
            }
            match id_strings_get(&self.reverse, i) {
                Some(s) => {
                    assert(s@ == self.strings()[i as int]);
                    frozen.get_or_intern(s.as_str());
                },
                None => {
                    assert(id_strings(self.reverse).contains_key(i as u32));
                },
            }
            proof {
                let t = self.strings();
                let now = t.take(i as int + 1);
                assert(now.drop_last() =~= t.take(i as int));
                assert(now.last() == t[i as int]);
                assert forall|k: int| 0 <= k < now.len() implies (#[trigger] frozen.offsets@[k])
                    == total_bytes(now.take(k)) && frozen.lengths@[k] == encode_utf8(
                    now[k],
                ).len() by {
                    assert(now.take(k) =~= t.take(k));
                    if k < i {
                        assert(t.take(i as int).take(k) =~= t.take(k));
                        assert(frozen.offsets@[k] == before.offsets@[k]);
                        assert(frozen.lengths@[k] == before.lengths@[k]);
                    }
                }
            }
            i = i + 1;
        }
        assert(self.strings().take(n as int) =~= self.strings());
        frozen
    }

    /// The read form with the same strings under the same ids; the write form
    /// is given up.
    pub fn into_string_interner(self) -> (frozen: StringInterner)
        requires
            self.wf(),
        ensures
            frozen.wf(),
            frozen.indexed(),
            frozen.strings() == self.strings(),
            frozen.holds_exactly(self.strings()),
    {
        self.to_string_interner()
    }
}

impl Default for ConcurrentInterner {
    fn default() -> (interner: ConcurrentInterner)
        ensures
            interner.wf(),
            interner.strings() == Seq::<Seq<char>>::empty(),
    {
        ConcurrentInterner::new()
    }
}

impl InternerLike for ConcurrentInterner {
    open spec fn table(&self) -> Seq<Seq<char>> {
        self.strings()
    }

    open spec fn ready(&self) -> bool {
        self.wf()
    }

    open spec fn has_room(&self, s: Seq<char>) -> bool {
        self.room_for(s)
    }

    proof fn lemma_table_is_distinct(&self) {
        self.lemma_strings_are_distinct();
    }

    fn get_or_intern(&mut self, s: &str) -> (id: u32) {
        ConcurrentInterner::get_or_intern(self, s)
    }
}

/// A key id and a value id in one word: the key in the high 32 bits, the
/// value in the low 32 bits.
pub open spec fn pack(key: u32, value: u32) -> u64 {
    ((key as u64) << 32) | (value as u64)
}

/// The key id and the value id that a packed word holds.
pub open spec fn unpack(packed: u64) -> (u32, u32) {
    ((packed >> 32) as u32, (packed & 0xFFFF_FFFF) as u32)
}

/// Unpacking a packed pair gives the pair back.
pub proof fn lemma_unpack_pack(key: u32, value: u32)
    ensures
        unpack(pack(key, value)) == (key, value),
{
    assert((((key as u64) << 32) | (value as u64)) >> 32 == key as u64) by (bit_vector);
    assert((((key as u64) << 32) | (value as u64)) & 0xFFFF_FFFF == value as u64) by (bit_vector);
}

/// Packs a key id and a value id into one word.
pub fn pack_pair(key: u32, value: u32) -> (packed: u64)
    ensures
        packed == pack(key, value),
{
    ((key as u64) << 32) | (value as u64)
}

/// Splits a packed word into key id and value id.
pub fn unpack_pair(packed: u64) -> (pair: (u32, u32))
    ensures
        pair == unpack(packed),
{
    assert((packed >> 32) <= 0xFFFF_FFFF) by (bit_vector);
    assert((packed & 0xFFFF_FFFF) <= 0xFFFF_FFFF) by (bit_vector);
    ((packed >> 32) as u32, (packed & 0xFFFF_FFFF) as u32)
}

/// A tag sequence as packed words.
pub open spec fn pack_all(pairs: Seq<(u32, u32)>) -> Seq<u64> {
    Seq::new(pairs.len(), |i: int| pack(pairs[i].0, pairs[i].1))
}

/// Packed words as a tag sequence.
pub open spec fn unpack_all(packed: Seq<u64>) -> Seq<(u32, u32)> {
    Seq::new(packed.len(), |i: int| unpack(packed[i]))
}

/// Unpacking what was packed gives the tag sequence back.
pub proof fn lemma_unpack_all_pack_all(pairs: Seq<(u32, u32)>)
    ensures
        unpack_all(pack_all(pairs)) == pairs,
{
    assert forall|i: int| 0 <= i < pairs.len() implies unpack_all(pack_all(pairs))[i]
        == pairs[i] by {
        lemma_unpack_pack(pairs[i].0, pairs[i].1);
    }
    assert(unpack_all(pack_all(pairs)) =~= pairs);
}

/// All tag sets back to back in `data`, one packed word per pair, with
/// `offsets[id]` and `lengths[id]` locating tag set `id`.
#[derive(Debug)]
pub struct FlatTagSets {
    /// Packed pairs: high 32 bits the key id, low 32 bits the value id.
    pub data: Vec<u64>,
    /// Start of each tag set inside `data`.
    pub offsets: Vec<u32>,
    /// Number of pairs of each tag set.
    pub lengths: Vec<u32>,
}

impl FlatTagSets {
    /// Tag set `i` exists and lies inside `data`.
    pub open spec fn in_bounds(&self, i: int) -> bool {
        &&& 0 <= i < self.offsets@.len()
        &&& i < self.lengths@.len()
        &&& self.offsets@[i] + self.lengths@[i] <= self.data@.len()
    }

    /// The packed words of tag set `i`.
    pub open spec fn packed(&self, i: int) -> Seq<u64> {
        self.data@.subrange(self.offsets@[i] as int, self.offsets@[i] + self.lengths@[i])
    }

    /// Tag set `i` as pairs of key id and value id.
    pub open spec fn pairs(&self, i: int) -> Seq<(u32, u32)> {
        unpack_all(self.packed(i))
    }

    /// All tag sets by id.
    pub open spec fn tag_sets(&self) -> Seq<Seq<(u32, u32)>> {
        Seq::new(self.offsets@.len(), |i: int| self.pairs(i))
    }

    /// The arrays have one entry per tag set and every tag set lies inside
    /// `data`.
    pub open spec fn wf(&self) -> bool {
        &&& self.offsets@.len() == self.lengths@.len()
        &&& forall|i: int| 0 <= i < self.offsets@.len() ==> #[trigger] self.in_bounds(i)
    }

    /// A store without tag sets.
    pub fn new() -> (store: FlatTagSets)
        ensures
            store.wf(),
            store.tag_sets() == Seq::<Seq<(u32, u32)>>::empty(),
            store.data@.len() == 0,
    {
        let store = FlatTagSets { data: Vec::new(), offsets: Vec::new(), lengths: Vec::new() };
        assert(store.tag_sets() =~= Seq::<Seq<(u32, u32)>>::empty());
        store
    }

    /// Whether the store is sound.
    pub fn check(&self) -> (sound: bool)
        ensures
            sound == self.wf(),
    {
        let n: usize = self.offsets.len();
        if self.lengths.len() != n {
            return false;
        }
        let total: usize = self.data.len();
        let mut i: usize = 0;
        while i < n
            invariant
                0 <= i <= n,
                n == self.offsets@.len(),
                n == self.lengths@.len(),
                total == self.data@.len(),
                forall|j: int| 0 <= j < i ==> #[trigger] self.in_bounds(j),
            decreases n - i,
        {
            let start: usize = self.offsets[i] as usize;
            let len: usize = self.lengths[i] as usize;
            if start > total || len > total - start {
                assert(!self.in_bounds(i as int));
                return false;
            }
            i = i + 1;
        }
        true
    }

    /// The packed words of tag set `idx`, or `None` if there is no such tag
    /// set or it does not lie inside `data`.
    pub fn get(&self, idx: usize) -> (found: Option<&[u64]>)
        ensures
            found is Some <==> self.in_bounds(idx as int),
            found is Some ==> found->0@ == self.packed(idx as int),
    {
        if idx >= self.offsets.len() || idx >= self.lengths.len() {
            return None;
        }
        let start: usize = self.offsets[idx] as usize;
        let len: usize = self.lengths[idx] as usize;
        let total: usize = self.data.len();
        if start > total || len > total - start {
            return None;
        }
        let data = self.data.as_slice();
        Some(&data[start..start + len])
    }

    /// Tag set `idx` as pairs of key id and value id, or `None` where `get`
    /// gives `None`.
    pub fn resolve(&self, idx: usize) -> (found: Option<Vec<(u32, u32)>>)
        ensures
            found is Some <==> self.in_bounds(idx as int),
            found is Some ==> found->0@ == self.pairs(idx as int),
    {
        match self.get(idx) {
            None => None,
            Some(words) => {
                let mut pairs: Vec<(u32, u32)> = Vec::new();
                let mut i: usize = 0;
                while i < words.len()
                    invariant
                        0 <= i <= words@.len(),
                        pairs@ == unpack_all(words@.take(i as int)),
                    decreases words@.len() - i,
                {
                    pairs.push(unpack_pair(words[i]));
                    assert(pairs@ =~= unpack_all(words@.take(i as int + 1)));
                    i = i + 1;
                }
                assert(words@.take(i as int) =~= words@);
                Some(pairs)
            },
        }
    }
}

impl Default for FlatTagSets {
    fn default() -> (store: FlatTagSets)
        ensures
            store.wf(),
            store.tag_sets() == Seq::<Seq<(u32, u32)>>::empty(),
    {
        FlatTagSets::new()
    }
}

impl Clone for FlatTagSets {
    fn clone(&self) -> (copy: FlatTagSets)
        ensures
            copy.data@ == self.data@,
            copy.offsets@ == self.offsets@,
            copy.lengths@ == self.lengths@,
    {
        let data = self.data.clone();
        let offsets = self.offsets.clone();
        let lengths = self.lengths.clone();
        assert(data@ =~= self.data@);
        assert(offsets@ =~= self.offsets@);
        assert(lengths@ =~= self.lengths@);
        FlatTagSets { data, offsets, lengths }
    }
}

/// What the cache file carries.
pub struct CacheData {
    pub elements: Vec<Element>,
    pub tag_sets: FlatTagSets,
    pub interner: StringInterner,
    /// Fingerprint of the input file and the filter configuration that the
    /// data was computed from.
    pub source_hash: u64,
}

impl CacheData {
    /// Every element refers to a tag set of the store.
    pub open spec fn elements_ok(&self) -> bool {
        forall|i: int|
            0 <= i < self.elements@.len() ==> (#[trigger] self.elements@[i]).tag_set_id
                < self.tag_sets.offsets@.len()
    }

    /// The stores are sound, taken one by one and together.
    pub open spec fn wf(&self) -> bool {
        &&& self.tag_sets.wf()
        &&& self.interner.wf()
        &&& self.elements_ok()
    }

    /// Whether every element refers to a tag set of the store.
    pub fn check_elements(&self) -> (sound: bool)
        ensures
            sound == self.elements_ok(),
    {
        let sets: usize = self.tag_sets.offsets.len();
        let mut i: usize = 0;
        while i < self.elements.len()
            invariant
                0 <= i <= self.elements@.len(),
                sets == self.tag_sets.offsets@.len(),
                forall|j: int| 0 <= j < i ==> (#[trigger] self.elements@[j]).tag_set_id < sets,
            decreases self.elements@.len() - i,
        {
            if self.elements[i].tag_set_id as usize >= sets {
                return false;
            }
            i = i + 1;
        }
        true
    }
}

} // verus!
