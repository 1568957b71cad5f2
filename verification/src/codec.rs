//! The byte layout of the cache: length-prefixed fields, little-endian.
//!
//! Every field is a 64-bit count followed by that many fixed-width items.
//! The encoders are total; each decoder takes its field off the front of the
//! bytes and hands back what follows.

use vstd::prelude::*;
use vstd::bytes::*;
use crate::model::Element;

verus! {

/// A 64-bit number as eight bytes, lowest first.
pub open spec fn u64_bytes(x: u64) -> Seq<u8> {
    spec_u64_to_le_bytes(x)
}

/// A 32-bit number as four bytes, lowest first.
pub open spec fn u32_bytes(x: u32) -> Seq<u8> {
    spec_u32_to_le_bytes(x)
}

/// The 64-bit number at the front of `bytes` and what follows it.
pub open spec fn take_u64(bytes: Seq<u8>) -> Option<(u64, Seq<u8>)> {
    if bytes.len() >= 8 {
        Some((spec_u64_from_le_bytes(bytes.subrange(0, 8)), bytes.skip(8)))
    } else {
        None
    }
}

/// The items of `v`, four bytes each.
pub open spec fn u32s_body(v: Seq<u32>) -> Seq<u8> {
    Seq::new((v.len() * 4) as nat, |j: int| u32_bytes(v[j / 4])[j % 4])
}

/// The items of `v`, eight bytes each.
pub open spec fn u64s_body(v: Seq<u64>) -> Seq<u8> {
    Seq::new((v.len() * 8) as nat, |j: int| u64_bytes(v[j / 8])[j % 8])
}

/// `n` 32-bit numbers read from the front of `bytes`.
pub open spec fn u32s_from(bytes: Seq<u8>, n: nat) -> Seq<u32> {
    Seq::new(n, |i: int| spec_u32_from_le_bytes(bytes.subrange(4 * i, 4 * i + 4)))
}

/// `n` 64-bit numbers read from the front of `bytes`.
pub open spec fn u64s_from(bytes: Seq<u8>, n: nat) -> Seq<u64> {
    Seq::new(n, |i: int| spec_u64_from_le_bytes(bytes.subrange(8 * i, 8 * i + 8)))
}

/// A vector of 32-bit numbers: its length, then its items.
pub open spec fn enc_u32s(v: Seq<u32>) -> Seq<u8> {
    u64_bytes(v.len() as u64) + u32s_body(v)
}

/// A vector of 64-bit numbers: its length, then its items.
pub open spec fn enc_u64s(v: Seq<u64>) -> Seq<u8> {
    u64_bytes(v.len() as u64) + u64s_body(v)
}

/// A byte string: its length, then its bytes.
pub open spec fn enc_bytes(v: Seq<u8>) -> Seq<u8> {
    u64_bytes(v.len() as u64) + v
}

/// The vector of 32-bit numbers at the front of `bytes` and what follows it.
pub open spec fn take_u32s(bytes: Seq<u8>) -> Option<(Seq<u32>, Seq<u8>)> {
    match take_u64(bytes) {
        Some((n, rest)) => if rest.len() >= 4 * n {
            Some((u32s_from(rest, n as nat), rest.skip(4 * n)))
        } else {
            None
        },
        None => None,
    }
}

/// The vector of 64-bit numbers at the front of `bytes` and what follows it.
pub open spec fn take_u64s(bytes: Seq<u8>) -> Option<(Seq<u64>, Seq<u8>)> {
    match take_u64(bytes) {
        Some((n, rest)) => if rest.len() >= 8 * n {
            Some((u64s_from(rest, n as nat), rest.skip(8 * n)))
        } else {
            None
        },
        None => None,
    }
}

/// The byte string at the front of `bytes` and what follows it.
pub open spec fn take_bytes(bytes: Seq<u8>) -> Option<(Seq<u8>, Seq<u8>)> {
    match take_u64(bytes) {
        Some((n, rest)) => if rest.len() >= n {
            Some((rest.subrange(0, n as int), rest.skip(n as int)))
        } else {
            None
        },
        None => None,
    }
}

/// A 64-bit number comes back off the front of its bytes.
pub proof fn lemma_take_u64(x: u64, rest: Seq<u8>)
    ensures
        u64_bytes(x).len() == 8,
        take_u64(u64_bytes(x) + rest) == Some((x, rest)),
{
    lemma_auto_spec_u64_to_from_le_bytes();
    let all = u64_bytes(x) + rest;
    assert(all.subrange(0, 8) =~= u64_bytes(x));
    assert(all.skip(8) =~= rest);
}

/// A vector of 32-bit numbers comes back off the front of its encoding.
pub proof fn lemma_take_u32s(v: Seq<u32>, rest: Seq<u8>)
    requires
        v.len() <= u64::MAX,
    ensures
        enc_u32s(v).len() == 8 + 4 * v.len(),
        take_u32s(enc_u32s(v) + rest) == Some((v, rest)),
{
    lemma_auto_spec_u32_to_from_le_bytes();
    let tail = u32s_body(v) + rest;
    lemma_take_u64(v.len() as u64, tail);
    assert(enc_u32s(v) + rest =~= u64_bytes(v.len() as u64) + tail);
    assert forall|i: int| 0 <= i < v.len() implies u32s_from(tail, v.len())[i] == v[i] by {
        assert(tail.subrange(4 * i, 4 * i + 4) =~= u32_bytes(v[i]));
    }
    assert(u32s_from(tail, v.len()) =~= v);
    assert(tail.skip(4 * (v.len() as int)) =~= rest);
}

/// A vector of 64-bit numbers comes back off the front of its encoding.
pub proof fn lemma_take_u64s(v: Seq<u64>, rest: Seq<u8>)
    requires
        v.len() <= u64::MAX,
    ensures
        enc_u64s(v).len() == 8 + 8 * v.len(),
        take_u64s(enc_u64s(v) + rest) == Some((v, rest)),
{
    lemma_auto_spec_u64_to_from_le_bytes();
    let tail = u64s_body(v) + rest;
    lemma_take_u64(v.len() as u64, tail);
    assert(enc_u64s(v) + rest =~= u64_bytes(v.len() as u64) + tail);
    assert forall|i: int| 0 <= i < v.len() implies u64s_from(tail, v.len())[i] == v[i] by {
        assert(tail.subrange(8 * i, 8 * i + 8) =~= u64_bytes(v[i]));
    }
    assert(u64s_from(tail, v.len()) =~= v);
    assert(tail.skip(8 * (v.len() as int)) =~= rest);
}

/// A byte string comes back off the front of its encoding.
pub proof fn lemma_take_bytes(v: Seq<u8>, rest: Seq<u8>)
    requires
        v.len() <= u64::MAX,
    ensures
        enc_bytes(v).len() == 8 + v.len(),
        take_bytes(enc_bytes(v) + rest) == Some((v, rest)),
{
    let tail = v + rest;
    lemma_take_u64(v.len() as u64, tail);
    assert(enc_bytes(v) + rest =~= u64_bytes(v.len() as u64) + tail);
    assert(tail.subrange(0, v.len() as int) =~= v);
    assert(tail.skip(v.len() as int) =~= rest);
}

/// Appends a 64-bit number.
pub fn put_u64(out: &mut Vec<u8>, x: u64)
    ensures
        final(out)@ == old(out)@ + u64_bytes(x),
{
    let bytes = u64_to_le_bytes(x);
    out.extend_from_slice(bytes.as_slice());
    assert(out@ =~= old(out)@ + u64_bytes(x));
}

/// Appends a vector of 32-bit numbers.
pub fn put_u32s(out: &mut Vec<u8>, v: &Vec<u32>)
    ensures
        final(out)@ == old(out)@ + enc_u32s(v@),
{
    put_u64(out, v.len() as u64);
    let ghost head = out@;
    let mut i: usize = 0;
    assert(out@ =~= head + u32s_body(v@.take(0)));
    while i < v.len()
        invariant
            0 <= i <= v@.len(),
            out@ == head + u32s_body(v@.take(i as int)),
        decreases v@.len() - i,
    {
        let bytes = u32_to_le_bytes(v[i]);
        out.extend_from_slice(bytes.as_slice());
        assert(out@ =~= head + u32s_body(v@.take(i as int + 1)));
        i = i + 1;
    }
    assert(v@.take(i as int) =~= v@);
    assert(out@ =~= old(out)@ + enc_u32s(v@));
}

/// Appends a vector of 64-bit numbers.
pub fn put_u64s(out: &mut Vec<u8>, v: &Vec<u64>)
    ensures
        final(out)@ == old(out)@ + enc_u64s(v@),
{
    put_u64(out, v.len() as u64);
    let ghost head = out@;
    let mut i: usize = 0;
    assert(out@ =~= head + u64s_body(v@.take(0)));
    while i < v.len()
        invariant
            0 <= i <= v@.len(),
            out@ == head + u64s_body(v@.take(i as int)),
        decreases v@.len() - i,
    {
        let bytes = u64_to_le_bytes(v[i]);
        out.extend_from_slice(bytes.as_slice());
        assert(out@ =~= head + u64s_body(v@.take(i as int + 1)));
        i = i + 1;
    }
    assert(v@.take(i as int) =~= v@);
    assert(out@ =~= old(out)@ + enc_u64s(v@));
}

/// Appends a byte string.
pub fn put_bytes(out: &mut Vec<u8>, v: &[u8])
    ensures
        final(out)@ == old(out)@ + enc_bytes(v@),
{
    put_u64(out, v.len() as u64);
    out.extend_from_slice(v);
    assert(out@ =~= old(out)@ + enc_bytes(v@));
}

/// Reads the 64-bit number at position `at`; moves `at` behind it.
pub fn get_u64(bytes: &[u8], at: &mut usize) -> (x: Option<u64>)
    requires
        *old(at) <= bytes@.len(),
    ensures
        *final(at) <= bytes@.len(),
        match take_u64(bytes@.skip(*old(at) as int)) {
            Some((value, rest)) => x == Some(value) && rest == bytes@.skip(*final(at) as int),
            None => x is None && *final(at) == *old(at),
        },
{
    let start: usize = *at;
    if bytes.len() - start < 8 {
        return None;
    }
    let x = u64_from_le_bytes(&bytes[start..start + 8]);
    *at = start + 8;
    proof {
        let here = bytes@.skip(start as int);
        assert(here.subrange(0, 8) =~= bytes@.subrange(start as int, start + 8));
        assert(here.skip(8) =~= bytes@.skip(start + 8));
    }
    Some(x)
}

/// Reads the vector of 32-bit numbers at position `at`; moves `at` behind it.
pub fn get_u32s(bytes: &[u8], at: &mut usize) -> (v: Option<Vec<u32>>)
    requires
        *old(at) <= bytes@.len(),
    ensures
        *final(at) <= bytes@.len(),
        match take_u32s(bytes@.skip(*old(at) as int)) {
            Some((items, rest)) => v is Some && v->0@ == items && rest == bytes@.skip(
                *final(at) as int,
            ),
            None => v is None,
        },
{
    let n: u64 = match get_u64(bytes, at) {
        Some(n) => n,
        None => {
            return None;
        },
    };
    let start: usize = *at;
    let left: usize = bytes.len() - start;
    let fit: u64 = (left / 4) as u64;
    if fit < n {
        return None;
    }
    let count: usize = n as usize;
    let ghost rest = bytes@.skip(start as int);
    let mut v: Vec<u32> = Vec::new();
    let mut i: usize = 0;
    assert(v@ =~= u32s_from(rest, 0));
    while i < count
        invariant
            0 <= i <= count,
            start + 4 * count <= bytes@.len(),
            bytes@.len() <= usize::MAX,
            rest == bytes@.skip(start as int),
            v@ == u32s_from(rest, i as nat),
        decreases count - i,
    {
        let p: usize = start + 4 * i;
        let x = u32_from_le_bytes(&bytes[p..p + 4]);
        v.push(x);
        proof {
            assert(rest.subrange(4 * i, 4 * i + 4) =~= bytes@.subrange(p as int, p + 4));
            assert(v@ =~= u32s_from(rest, (i + 1) as nat));
        }
        i = i + 1;
    }
    *at = start + 4 * count;
    assert(rest.skip(4 * n) =~= bytes@.skip(start + 4 * count));
    Some(v)
}

/// Reads the vector of 64-bit numbers at position `at`; moves `at` behind it.
pub fn get_u64s(bytes: &[u8], at: &mut usize) -> (v: Option<Vec<u64>>)
    requires
        *old(at) <= bytes@.len(),
    ensures
        *final(at) <= bytes@.len(),
        match take_u64s(bytes@.skip(*old(at) as int)) {
            Some((items, rest)) => v is Some && v->0@ == items && rest == bytes@.skip(
                *final(at) as int,
            ),
            None => v is None,
        },
{
    let n: u64 = match get_u64(bytes, at) {
        Some(n) => n,
        None => {
            return None;
        },
    };
    let start: usize = *at;
    let left: usize = bytes.len() - start;
    let fit: u64 = (left / 8) as u64;
    if fit < n {
        return None;
    }
    let count: usize = n as usize;
    let ghost rest = bytes@.skip(start as int);
    let mut v: Vec<u64> = Vec::new();
    let mut i: usize = 0;
    assert(v@ =~= u64s_from(rest, 0));
    while i < count
        invariant
            0 <= i <= count,
            start + 8 * count <= bytes@.len(),
            bytes@.len() <= usize::MAX,
            rest == bytes@.skip(start as int),
            v@ == u64s_from(rest, i as nat),
        decreases count - i,
    {
        let p: usize = start + 8 * i;
        let x = u64_from_le_bytes(&bytes[p..p + 8]);
        v.push(x);
        proof {
            assert(rest.subrange(8 * i, 8 * i + 8) =~= bytes@.subrange(p as int, p + 8));
            assert(v@ =~= u64s_from(rest, (i + 1) as nat));
        }
        i = i + 1;
    }
    *at = start + 8 * count;
    assert(rest.skip(8 * n) =~= bytes@.skip(start + 8 * count));
    Some(v)
}

/// Reads the byte string at position `at`; moves `at` behind it.
pub fn get_bytes(bytes: &[u8], at: &mut usize) -> (v: Option<Vec<u8>>)
    requires
        *old(at) <= bytes@.len(),
    ensures
        *final(at) <= bytes@.len(),
        match take_bytes(bytes@.skip(*old(at) as int)) {
            Some((items, rest)) => v is Some && v->0@ == items && rest == bytes@.skip(
                *final(at) as int,
            ),
            None => v is None,
        },
{
    let n: u64 = match get_u64(bytes, at) {
        Some(n) => n,
        None => {
            return None;
        },
    };
    let start: usize = *at;
    let left: usize = bytes.len() - start;
    let fit: u64 = left as u64;
    if fit < n {
        return None;
    }
    let count: usize = n as usize;
    let mut v: Vec<u8> = Vec::new();
    v.extend_from_slice(&bytes[start..start + count]);
    *at = start + count;
    proof {
        let rest = bytes@.skip(start as int);
        assert(v@ =~= rest.subrange(0, n as int));
        assert(rest.skip(n as int) =~= bytes@.skip(start + count));
    }
    Some(v)
}

/// One element as 28 bytes: the id, the four coordinates, the tag-set id.
pub open spec fn element_bytes(e: Element) -> Seq<u8> {
    u64_bytes(e.id) + u32_bytes(e.coordinates[0][0]) + u32_bytes(e.coordinates[0][1]) + u32_bytes(
        e.coordinates[1][0],
    ) + u32_bytes(e.coordinates[1][1]) + u32_bytes(e.tag_set_id)
}

/// The element that 28 bytes stand for.
pub open spec fn element_from(b: Seq<u8>) -> Element {
    Element {
        id: spec_u64_from_le_bytes(b.subrange(0, 8)),
        coordinates: [
            [spec_u32_from_le_bytes(b.subrange(8, 12)), spec_u32_from_le_bytes(b.subrange(12, 16))],
            [
                spec_u32_from_le_bytes(b.subrange(16, 20)),
                spec_u32_from_le_bytes(b.subrange(20, 24)),
            ],
        ],
        tag_set_id: spec_u32_from_le_bytes(b.subrange(24, 28)),
    }
}

/// An element comes back from its bytes.
pub proof fn lemma_element_bytes(e: Element)
    ensures
        element_bytes(e).len() == 28,
        element_from(element_bytes(e)) == e,
{
    lemma_auto_spec_u64_to_from_le_bytes();
    lemma_auto_spec_u32_to_from_le_bytes();
    let b = element_bytes(e);
    assert(b.subrange(0, 8) =~= u64_bytes(e.id));
    assert(b.subrange(8, 12) =~= u32_bytes(e.coordinates[0][0]));
    assert(b.subrange(12, 16) =~= u32_bytes(e.coordinates[0][1]));
    assert(b.subrange(16, 20) =~= u32_bytes(e.coordinates[1][0]));
    assert(b.subrange(20, 24) =~= u32_bytes(e.coordinates[1][1]));
    assert(b.subrange(24, 28) =~= u32_bytes(e.tag_set_id));
    let back = element_from(b);
    assert(back.coordinates[0] =~= e.coordinates[0]);
    assert(back.coordinates[1] =~= e.coordinates[1]);
    assert(back.coordinates =~= e.coordinates);
}

/// The items of `v`, 28 bytes each.
pub open spec fn elements_body(v: Seq<Element>) -> Seq<u8> {
    Seq::new((v.len() * 28) as nat, |j: int| element_bytes(v[j / 28])[j % 28])
}

/// `n` elements read from the front of `bytes`.
pub open spec fn elements_from(bytes: Seq<u8>, n: nat) -> Seq<Element> {
    Seq::new(n, |i: int| element_from(bytes.subrange(28 * i, 28 * i + 28)))
}

/// A vector of elements: its length, then its items.
pub open spec fn enc_elements(v: Seq<Element>) -> Seq<u8> {
    u64_bytes(v.len() as u64) + elements_body(v)
}

/// The vector of elements at the front of `bytes` and what follows it.
pub open spec fn take_elements(bytes: Seq<u8>) -> Option<(Seq<Element>, Seq<u8>)> {
    match take_u64(bytes) {
        Some((n, rest)) => if rest.len() >= 28 * n {
            Some((elements_from(rest, n as nat), rest.skip(28 * n)))
        } else {
            None
        },
        None => None,
    }
}

/// A vector of elements comes back off the front of its encoding.
pub proof fn lemma_take_elements(v: Seq<Element>, rest: Seq<u8>)
    requires
        v.len() <= u64::MAX,
    ensures
        enc_elements(v).len() == 8 + 28 * v.len(),
        take_elements(enc_elements(v) + rest) == Some((v, rest)),
{
    let tail = elements_body(v) + rest;
    lemma_take_u64(v.len() as u64, tail);
    assert(enc_elements(v) + rest =~= u64_bytes(v.len() as u64) + tail);
    assert forall|i: int| 0 <= i < v.len() implies elements_from(tail, v.len())[i] == v[i] by {
        lemma_element_bytes(v[i]);
        assert(tail.subrange(28 * i, 28 * i + 28) =~= element_bytes(v[i]));
    }
    assert(elements_from(tail, v.len()) =~= v);
    assert(tail.skip(28 * (v.len() as int)) =~= rest);
}

/// Appends one element.
pub fn put_element(out: &mut Vec<u8>, e: &Element)
    ensures
        final(out)@ == old(out)@ + element_bytes(*e),
{
    let id = u64_to_le_bytes(e.id);
    let a = u32_to_le_bytes(e.coordinates[0][0]);
    let b = u32_to_le_bytes(e.coordinates[0][1]);
    let c = u32_to_le_bytes(e.coordinates[1][0]);
    let d = u32_to_le_bytes(e.coordinates[1][1]);
    let t = u32_to_le_bytes(e.tag_set_id);
    out.extend_from_slice(id.as_slice());
    out.extend_from_slice(a.as_slice());
    out.extend_from_slice(b.as_slice());
    out.extend_from_slice(c.as_slice());
    out.extend_from_slice(d.as_slice());
    out.extend_from_slice(t.as_slice());
    assert(out@ =~= old(out)@ + element_bytes(*e));
}

/// Appends a vector of elements.
pub fn put_elements(out: &mut Vec<u8>, v: &Vec<Element>)
    ensures
        final(out)@ == old(out)@ + enc_elements(v@),
{
    put_u64(out, v.len() as u64);
    let ghost head = out@;
    let mut i: usize = 0;
    assert(out@ =~= head + elements_body(v@.take(0)));
    while i < v.len()
        invariant
            0 <= i <= v@.len(),
            out@ == head + elements_body(v@.take(i as int)),
        decreases v@.len() - i,
    {
        put_element(out, &v[i]);
        proof {
            lemma_element_bytes(v@[i as int]);
            assert(out@ =~= head + elements_body(v@.take(i as int + 1)));
        }
        i = i + 1;
    }
    assert(v@.take(i as int) =~= v@);
    assert(out@ =~= old(out)@ + enc_elements(v@));
}

/// Reads the element in the 28 bytes at position `p`.
fn read_element(bytes: &[u8], p: usize) -> (e: Element)
    requires
        p + 28 <= bytes@.len(),
    ensures
        e == element_from(bytes@.subrange(p as int, p + 28)),
{
    assert(bytes@.len() == bytes.len());
    let id = u64_from_le_bytes(&bytes[p..p + 8]);
    let a = u32_from_le_bytes(&bytes[p + 8..p + 12]);
    let b = u32_from_le_bytes(&bytes[p + 12..p + 16]);
    let c = u32_from_le_bytes(&bytes[p + 16..p + 20]);
    let d = u32_from_le_bytes(&bytes[p + 20..p + 24]);
    let t = u32_from_le_bytes(&bytes[p + 24..p + 28]);
    let e = Element { id, coordinates: [[a, b], [c, d]], tag_set_id: t };
    proof {
        let s = bytes@.subrange(p as int, p + 28);
        assert(s.subrange(0, 8) =~= bytes@.subrange(p as int, p + 8));
        assert(s.subrange(8, 12) =~= bytes@.subrange(p + 8, p + 12));
        assert(s.subrange(12, 16) =~= bytes@.subrange(p + 12, p + 16));
        assert(s.subrange(16, 20) =~= bytes@.subrange(p + 16, p + 20));
        assert(s.subrange(20, 24) =~= bytes@.subrange(p + 20, p + 24));
        assert(s.subrange(24, 28) =~= bytes@.subrange(p + 24, p + 28));
        let want = element_from(s);
        assert(e.coordinates[0] =~= want.coordinates[0]);
        assert(e.coordinates[1] =~= want.coordinates[1]);
        assert(e.coordinates =~= want.coordinates);
    }
    e
}

/// Reads the vector of elements at position `at`; moves `at` behind it.
pub fn get_elements(bytes: &[u8], at: &mut usize) -> (v: Option<Vec<Element>>)
    requires
        *old(at) <= bytes@.len(),
    ensures
        *final(at) <= bytes@.len(),
        match take_elements(bytes@.skip(*old(at) as int)) {
            Some((items, rest)) => v is Some && v->0@ == items && rest == bytes@.skip(
                *final(at) as int,
            ),
            None => v is None,
        },
{
    let n: u64 = match get_u64(bytes, at) {
        Some(n) => n,
        None => {
            return None;
        },
    };
    let start: usize = *at;
    let left: usize = bytes.len() - start;
    let fit: u64 = (left / 28) as u64;
    if fit < n {
        return None;
    }
    let count: usize = n as usize;
    let ghost rest = bytes@.skip(start as int);
    let mut v: Vec<Element> = Vec::new();
    let mut i: usize = 0;
    assert(v@ =~= elements_from(rest, 0));
    while i < count
        invariant
            0 <= i <= count,
            start + 28 * count <= bytes@.len(),
            bytes@.len() <= usize::MAX,
            rest == bytes@.skip(start as int),
            v@ == elements_from(rest, i as nat),
        decreases count - i,
    {
        let p: usize = start + 28 * i;
        let e = read_element(bytes, p);
        v.push(e);
        proof {
            assert(rest.subrange(28 * i, 28 * i + 28) =~= bytes@.subrange(p as int, p + 28));
            assert(v@ =~= elements_from(rest, (i + 1) as nat));
        }
        i = i + 1;
    }
    *at = start + 28 * count;
    assert(rest.skip(28 * n) =~= bytes@.skip(start + 28 * count));
    Some(v)
}

} // verus!
