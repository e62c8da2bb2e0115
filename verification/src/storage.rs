//! The byte format of the settings store.
//!
//! A store image is a flat run of length-prefixed records: each record is
//! an eight-byte little-endian length followed by that many payload bytes,
//! and the records alternate key, value, key, value. [`entries`] gives the
//! key-value pairs an image encodes, or nothing when the image breaks off
//! inside a record or between a key and its value. The functions here are
//! the pure half of the store: reading a key's value out of an image, and
//! producing the image with one binding replaced or appended. Opening,
//! reading and rewriting the store file is the caller's concern.

use vstd::prelude::*;
use vstd::bytes::{
    lemma_auto_spec_u64_to_from_le_bytes, spec_u64_from_le_bytes, spec_u64_to_le_bytes,
    u64_from_le_bytes, u64_to_le_bytes,
};
use vstd::slice::slice_subrange;

verus! {

/// One record: the payload behind its little-endian length prefix.
pub open spec fn record(payload: Seq<u8>) -> Seq<u8> {
    spec_u64_to_le_bytes(payload.len() as u64) + payload
}

/// The key-value pairs a store image encodes, or `None` when the image
/// breaks off inside a record or after an unpaired key.
pub open spec fn entries(bs: Seq<u8>) -> Option<Seq<(Seq<u8>, Seq<u8>)>>
    decreases bs.len(),
{
    if bs.len() == 0 {
        Some(Seq::empty())
    } else if bs.len() < 8 {
        None
    } else {
        let kl = spec_u64_from_le_bytes(bs.take(8)) as int;
        if bs.len() < 8 + kl {
            None
        } else {
            let key = bs.subrange(8, 8 + kl);
            let rest = bs.skip(8 + kl);
            if rest.len() < 8 {
                None
            } else {
                let vl = spec_u64_from_le_bytes(rest.take(8)) as int;
                if rest.len() < 8 + vl {
                    None
                } else {
                    let value = rest.subrange(8, 8 + vl);
                    match entries(rest.skip(8 + vl)) {
                        Some(es) => Some(seq![(key, value)] + es),
                        None => None,
                    }
                }
            }
        }
    }
}

/// The first value bound to `key`.
pub open spec fn lookup(es: Seq<(Seq<u8>, Seq<u8>)>, key: Seq<u8>) -> Option<Seq<u8>>
    decreases es.len(),
{
    if es.len() == 0 {
        None
    } else if es[0].0 == key {
        Some(es[0].1)
    } else {
        lookup(es.skip(1), key)
    }
}

/// The pairs with the first binding of `key` replaced by `value`, or with
/// the new pair appended when the key is absent.
pub open spec fn upsert(
    es: Seq<(Seq<u8>, Seq<u8>)>,
    key: Seq<u8>,
    value: Seq<u8>,
) -> Seq<(Seq<u8>, Seq<u8>)>
    decreases es.len(),
{
    if es.len() == 0 {
        seq![(key, value)]
    } else if es[0].0 == key {
        seq![(key, value)] + es.skip(1)
    } else {
        seq![es[0]] + upsert(es.skip(1), key, value)
    }
}

/// The store stores: after writing a binding, that key reads back the new
/// value, and every other key reads back what it read before.
pub proof fn lemma_upsert_lookup(
    es: Seq<(Seq<u8>, Seq<u8>)>,
    key: Seq<u8>,
    value: Seq<u8>,
    other: Seq<u8>,
)
    ensures
        lookup(upsert(es, key, value), key) == Some(value),
        other != key ==> lookup(upsert(es, key, value), other) == lookup(es, other),
    decreases es.len(),
{
    let up = upsert(es, key, value);
    if es.len() == 0 {
        assert(up[0] == (key, value));
        assert(up.skip(1) =~= Seq::<(Seq<u8>, Seq<u8>)>::empty());
        assert(lookup(Seq::<(Seq<u8>, Seq<u8>)>::empty(), other) is None);
    } else if es[0].0 == key {
        assert(up[0] == (key, value));
        assert(up.skip(1) =~= es.skip(1));
    } else {
        lemma_upsert_lookup(es.skip(1), key, value, other);
        assert(up[0] == es[0]);
        assert(up.skip(1) =~= upsert(es.skip(1), key, value));
    }
}

/// An image that starts with a full key-value pair encodes that pair in
/// front of whatever the remainder encodes.
pub proof fn lemma_entries_pair(k: Seq<u8>, v: Seq<u8>, rest: Seq<u8>)
    requires
        k.len() < 0x1_0000_0000_0000_0000,
        v.len() < 0x1_0000_0000_0000_0000,
    ensures
        entries(record(k) + record(v) + rest) == match entries(rest) {
            Some(es) => Some(seq![(k, v)] + es),
            None => None::<Seq<(Seq<u8>, Seq<u8>)>>,
        },
{
    lemma_auto_spec_u64_to_from_le_bytes();
    let bs = record(k) + record(v) + rest;
    assert(spec_u64_to_le_bytes(k.len() as u64).len() == 8);
    assert(spec_u64_to_le_bytes(v.len() as u64).len() == 8);
    assert(bs.len() >= 8);
    assert(bs.take(8) =~= spec_u64_to_le_bytes(k.len() as u64));
    let kl = spec_u64_from_le_bytes(bs.take(8)) as int;
    assert(kl == k.len());
    assert(bs.len() >= 8 + kl);
    assert(bs.subrange(8, 8 + kl) =~= k);
    let r1 = bs.skip(8 + kl);
    assert(r1 =~= record(v) + rest);
    assert(r1.len() >= 8);
    assert(r1.take(8) =~= spec_u64_to_le_bytes(v.len() as u64));
    let vl = spec_u64_from_le_bytes(r1.take(8)) as int;
    assert(vl == v.len());
    assert(r1.len() >= 8 + vl);
    assert(r1.subrange(8, 8 + vl) =~= v);
    assert(r1.skip(8 + vl) =~= rest);
}

/// Two well-formed images concatenate to a well-formed image encoding the
/// two entry lists one after the other.
pub proof fn lemma_entries_concat(a: Seq<u8>, b: Seq<u8>)
    requires
        entries(a) is Some,
        entries(b) is Some,
    ensures
        entries(a + b) == Some(entries(a).unwrap() + entries(b).unwrap()),
    decreases a.len(),
{
    lemma_auto_spec_u64_to_from_le_bytes();
    if a.len() == 0 {
        assert(a + b =~= b);
        assert(entries(a).unwrap() + entries(b).unwrap() =~= entries(b).unwrap());
    } else {
        let kl = spec_u64_from_le_bytes(a.take(8)) as int;
        let key = a.subrange(8, 8 + kl);
        let r1 = a.skip(8 + kl);
        let vl = spec_u64_from_le_bytes(r1.take(8)) as int;
        let value = r1.subrange(8, 8 + vl);
        let rest = r1.skip(8 + vl);
        assert(entries(rest) is Some);
        assert(a =~= record(key) + record(value) + rest) by {
            assert(a.take(8) =~= spec_u64_to_le_bytes(spec_u64_from_le_bytes(a.take(8))));
            assert(r1.take(8) =~= spec_u64_to_le_bytes(spec_u64_from_le_bytes(r1.take(8))));
        }
        lemma_entries_pair(key, value, rest);
        lemma_entries_concat(rest, b);
        assert(a + b =~= record(key) + record(value) + (rest + b));
        lemma_entries_pair(key, value, rest + b);
        assert(entries(a + b) == Some(
            seq![(key, value)] + (entries(rest).unwrap() + entries(b).unwrap()),
        ));
        assert(seq![(key, value)] + (entries(rest).unwrap() + entries(b).unwrap()) =~= entries(
            a,
        ).unwrap() + entries(b).unwrap());
    }
}

/// A key absent from a front run of pairs is found, if anywhere, behind it.
proof fn lemma_lookup_concat(ea: Seq<(Seq<u8>, Seq<u8>)>, eb: Seq<(Seq<u8>, Seq<u8>)>, key: Seq<
    u8,
>)
    requires
        lookup(ea, key) is None,
    ensures
        lookup(ea + eb, key) == lookup(eb, key),
    decreases ea.len(),
{
    if ea.len() == 0 {
        assert(ea + eb =~= eb);
    } else {
        assert((ea + eb).skip(1) =~= ea.skip(1) + eb);
        lemma_lookup_concat(ea.skip(1), eb, key);
    }
}

/// Replacing behind an unmatched front run keeps that run in front.
proof fn lemma_upsert_concat(
    ea: Seq<(Seq<u8>, Seq<u8>)>,
    eb: Seq<(Seq<u8>, Seq<u8>)>,
    key: Seq<u8>,
    value: Seq<u8>,
)
    requires
        lookup(ea, key) is None,
    ensures
        upsert(ea + eb, key, value) == ea + upsert(eb, key, value),
    decreases ea.len(),
{
    if ea.len() == 0 {
        assert(ea + eb =~= eb);
        assert(ea + upsert(eb, key, value) =~= upsert(eb, key, value));
    } else {
        assert((ea + eb).skip(1) =~= ea.skip(1) + eb);
        lemma_upsert_concat(ea.skip(1), eb, key, value);
        assert(seq![(ea + eb)[0]] + (ea.skip(1) + upsert(eb, key, value)) =~= ea + upsert(
            eb,
            key,
            value,
        ));
    }
}

/// The store image is cut off inside a record or after an unpaired key.
#[derive(Debug, Clone, Copy, PartialEq, Eq, Structural)]
pub struct StoreError {}

impl StoreError {
    /// The text under which the damage is reported.
    pub fn message(&self) -> (r: String)
        ensures
            r@ == "settings store is truncated or corrupt"@,
    {
        String::from_str("settings store is truncated or corrupt")
    }
}

/// Compares two byte strings.
fn bytes_eq(a: &[u8], b: &[u8]) -> (r: bool)
    ensures
        r == (a@ == b@),
{
    if a.len() != b.len() {
        return false;
    }
    let n = a.len();
    let mut i: usize = 0;
    while i < n
        invariant
            0 <= i <= n,
            n == a@.len() == b@.len(),
            forall|j: int| 0 <= j < i ==> a@[j] == b@[j],
        decreases n - i,
    {
        if a[i] != b[i] {
            return false;
        }
        i += 1;
    }
    proof {
        assert(a@ =~= b@);
    }
    true
}

/// Appends a length-prefixed record for `payload`.
fn push_record(out: &mut Vec<u8>, payload: &[u8])
    ensures
        final(out)@ == old(out)@ + record(payload@),
{
    let len_bytes = u64_to_le_bytes(payload.len() as u64);
    let ghost mid = out@ + len_bytes@;
    push_bytes(out, len_bytes.as_slice());
    push_bytes(out, payload);
    proof {
        assert(out@ =~= old(out)@ + record(payload@));
    }
}

/// Appends raw bytes.
fn push_bytes(out: &mut Vec<u8>, bytes: &[u8])
    ensures
        final(out)@ == old(out)@ + bytes@,
{
    let n = bytes.len();
    let mut i: usize = 0;
    while i < n
        invariant
            0 <= i <= n,
            n == bytes@.len(),
            out@ == old(out)@ + bytes@.take(i as int),
        decreases n - i,
    {
        out.push(bytes[i]);
        proof {
            assert(old(out)@ + bytes@.take(i + 1) =~= (old(out)@ + bytes@.take(i as int)).push(
                bytes@[i as int],
            ));
        }
        i += 1;
    }
    proof {
        assert(bytes@.take(n as int) =~= bytes@);
    }
}

/// One scanning step: the record starting at `i`, when the image holds a
/// whole one there.
fn read_record(bytes: &Vec<u8>, i: usize) -> (r: Option<(usize, usize)>)
    requires
        i <= bytes@.len(),
    ensures
        ({
            let sfx = bytes@.skip(i as int);
            match r {
                Some((start, end)) => {
                    &&& sfx.len() >= 8
                    &&& i + 8 == start
                    &&& start <= end <= bytes@.len()
                    &&& spec_u64_from_le_bytes(sfx.take(8)) == end - start
                    &&& bytes@.subrange(start as int, end as int) == sfx.subrange(
                        8,
                        8 + (end - start),
                    )
                },
                None => sfx.len() < 8 || sfx.len() < 8 + spec_u64_from_le_bytes(sfx.take(8)),
            }
        }),
{
    let n = bytes.len();
    if n - i < 8 {
        return None;
    }
    let len_slice = slice_subrange(bytes.as_slice(), i, i + 8);
    proof {
        assert(len_slice@ =~= bytes@.skip(i as int).take(8));
    }
    let len = u64_from_le_bytes(len_slice);
    if len > (n - (i + 8)) as u64 {
        return None;
    }
    let start = i + 8;
    let end = start + (len as usize);
    proof {
        assert(bytes@.subrange(start as int, end as int) =~= bytes@.skip(i as int).subrange(
            8,
            8 + (end - start),
        ));
    }
    Some((start, end))
}

/// Copies a range of the image.
fn copy_range(bytes: &Vec<u8>, start: usize, end: usize) -> (r: Vec<u8>)
    requires
        start <= end <= bytes@.len(),
    ensures
        r@ == bytes@.subrange(start as int, end as int),
{
    let mut out: Vec<u8> = Vec::new();
    push_bytes(&mut out, slice_subrange(bytes.as_slice(), start, end));
    proof {
        assert(out@ =~= bytes@.subrange(start as int, end as int));
    }
    out
}

/// Reads the first value stored under `key`, or reports a damaged image.
pub fn store_get(bytes: &Vec<u8>, key: &Vec<u8>) -> (r: Result<Option<Vec<u8>>, StoreError>)
    ensures
        match r {
            Ok(opt) => entries(bytes@) is Some && (match opt {
                Some(v) => lookup(entries(bytes@).unwrap(), key@) == Some(v@),
                None => lookup(entries(bytes@).unwrap(), key@) is None,
            }),
            Err(_) => entries(bytes@) is None,
        },
{
    let n = bytes.len();
    let mut i: usize = 0;
    let ghost mut seen: Seq<(Seq<u8>, Seq<u8>)> = Seq::empty();
    proof {
        assert(bytes@.skip(0) =~= bytes@);
        if entries(bytes@) is Some {
            assert(Seq::<(Seq<u8>, Seq<u8>)>::empty() + entries(bytes@).unwrap() =~= entries(
                bytes@,
            ).unwrap());
        }
    }
    loop
        invariant
            0 <= i <= n,
            n == bytes@.len(),
            lookup(seen, key@) is None,
            match entries(bytes@.skip(i as int)) {
                Some(rest) => entries(bytes@) == Some(seen + rest),
                None => entries(bytes@) is None,
            },
        decreases n - i,
    {
        let ghost sfx = bytes@.skip(i as int);
        if i == n {
            proof {
                assert(sfx.len() == 0);
                assert(entries(bytes@) == Some(seen + Seq::<(Seq<u8>, Seq<u8>)>::empty()));
                assert(seen + Seq::<(Seq<u8>, Seq<u8>)>::empty() =~= seen);
            }
            return Ok(None);
        }
        let (ks, ke) = match read_record(bytes, i) {
            Some(p) => p,
            None => {
                return Err(StoreError {});
            },
        };
        let ghost r1 = bytes@.skip(ke as int);
        proof {
            assert(r1 =~= sfx.skip(8 + (ke - ks)));
        }
        let (vs, ve) = match read_record(bytes, ke) {
            Some(p) => p,
            None => {
                return Err(StoreError {});
            },
        };
        let ghost kseq = bytes@.subrange(ks as int, ke as int);
        let ghost vseq = bytes@.subrange(vs as int, ve as int);
        let ghost rest2 = bytes@.skip(ve as int);
        proof {
            assert(rest2 =~= r1.skip(8 + (ve - vs)));
            match entries(rest2) {
                Some(es) => {
                    assert(entries(sfx) == Some(seq![(kseq, vseq)] + es));
                },
                None => {
                    assert(entries(sfx) is None);
                },
            }
        }
        let k = slice_subrange(bytes.as_slice(), ks, ke);
        proof {
            assert(k@ =~= kseq);
        }
        if bytes_eq(k, key.as_slice()) {
            let v = copy_range(bytes, vs, ve);
            proof {
                match entries(rest2) {
                    Some(es) => {
                        let rest = entries(sfx).unwrap();
                        assert(lookup(rest, key@) == Some(vseq));
                        lemma_lookup_concat(seen, rest, key@);
                    },
                    None => {},
                }
            }
            if read_to_end(bytes, ve) {
                return Ok(Some(v));
            } else {
                return Err(StoreError {});
            }
        }
        proof {
            lemma_lookup_push(seen, kseq, vseq, key@);
            match entries(rest2) {
                Some(es) => {
                    let rest = entries(sfx).unwrap();
                    assert(rest.skip(1) =~= es);
                    assert(seen + rest =~= seen.push((kseq, vseq)) + es);
                },
                None => {},
            }
            seen = seen.push((kseq, vseq));
        }
        i = ve;
    }
}

/// The remainder of the image from `i` on is itself a well-formed run of
/// pairs.
fn read_to_end(bytes: &Vec<u8>, i: usize) -> (r: bool)
    requires
        i <= bytes@.len(),
    ensures
        r == (entries(bytes@.skip(i as int)) is Some),
{
    let n = bytes.len();
    let mut j = i;
    loop
        invariant
            i <= j <= n,
            n == bytes@.len(),
            entries(bytes@.skip(i as int)) is Some <==> entries(bytes@.skip(j as int)) is Some,
        decreases n - j,
    {
        let ghost sfx = bytes@.skip(j as int);
        if j == n {
            proof {
                assert(sfx.len() == 0);
            }
            return true;
        }
        let (ks, ke) = match read_record(bytes, j) {
            Some(p) => p,
            None => {
                return false;
            },
        };
        let ghost r1 = bytes@.skip(ke as int);
        proof {
            assert(r1 =~= sfx.skip(8 + (ke - ks)));
        }
        let (vs, ve) = match read_record(bytes, ke) {
            Some(p) => p,
            None => {
                return false;
            },
        };
        proof {
            let rest2 = bytes@.skip(ve as int);
            assert(rest2 =~= r1.skip(8 + (ve - vs)));
            assert(entries(sfx) is Some <==> entries(rest2) is Some);
        }
        j = ve;
    }
}

/// An unmatched pair in front does not hide a key.
proof fn lemma_lookup_push(es: Seq<(Seq<u8>, Seq<u8>)>, k: Seq<u8>, v: Seq<u8>, key: Seq<u8>)
    requires
        lookup(es, key) is None,
        k != key,
    ensures
        lookup(es.push((k, v)), key) is None,
    decreases es.len(),
{
    if es.len() == 0 {
        assert(es.push((k, v))[0] == (k, v));
        assert(es.push((k, v)).skip(1) =~= Seq::<(Seq<u8>, Seq<u8>)>::empty());
        assert(lookup(Seq::<(Seq<u8>, Seq<u8>)>::empty(), key) is None);
    } else {
        assert(es.push((k, v))[0] == es[0]);
        assert(es.push((k, v)).skip(1) =~= es.skip(1).push((k, v)));
        lemma_lookup_push(es.skip(1), k, v, key);
    }
}

/// Writes `value` under `key`: the image comes back with the first binding
/// of the key replaced, or with the new pair appended when the key was
/// absent. A damaged image is reported instead of rewritten.
pub fn store_set(bytes: &Vec<u8>, key: &Vec<u8>, value: &Vec<u8>) -> (r: Result<
    Vec<u8>,
    StoreError,
>)
    ensures
        match r {
            Ok(out) => entries(bytes@) is Some && entries(out@) == Some(
                upsert(entries(bytes@).unwrap(), key@, value@),
            ),
            Err(_) => entries(bytes@) is None,
        },
{
    let n = bytes.len();
    let mut i: usize = 0;
    let mut out: Vec<u8> = Vec::new();
    let ghost mut seen: Seq<(Seq<u8>, Seq<u8>)> = Seq::empty();
    proof {
        assert(bytes@.skip(0) =~= bytes@);
        if entries(bytes@) is Some {
            assert(Seq::<(Seq<u8>, Seq<u8>)>::empty() + entries(bytes@).unwrap() =~= entries(
                bytes@,
            ).unwrap());
            assert(Seq::<(Seq<u8>, Seq<u8>)>::empty() + upsert(
                entries(bytes@).unwrap(),
                key@,
                value@,
            ) =~= upsert(entries(bytes@).unwrap(), key@, value@));
        }
    }
    loop
        invariant
            0 <= i <= n,
            n == bytes@.len(),
            lookup(seen, key@) is None,
            entries(out@) == Some(seen),
            match entries(bytes@.skip(i as int)) {
                Some(rest) => entries(bytes@) == Some(seen + rest) && (entries(bytes@) is Some
                    ==> upsert(entries(bytes@).unwrap(), key@, value@) == seen + upsert(
                    rest,
                    key@,
                    value@,
                )),
                None => entries(bytes@) is None,
            },
        decreases n - i,
    {
        let ghost sfx = bytes@.skip(i as int);
        if i == n {
            // the key was absent: append the new pair
            proof {
                assert(sfx.len() == 0);
                assert(entries(bytes@) == Some(seen + Seq::<(Seq<u8>, Seq<u8>)>::empty()));
                assert(seen + Seq::<(Seq<u8>, Seq<u8>)>::empty() =~= seen);
            }
            let klen = key.len();
            let vlen = value.len();
            proof {
                assert(key@.len() == klen && value@.len() == vlen);
            }
            let ghost before = out@;
            push_record(&mut out, key.as_slice());
            push_record(&mut out, value.as_slice());
            proof {
                assert(out@ =~= before + (record(key@) + record(value@) + Seq::<u8>::empty()));
                lemma_entries_pair(key@, value@, Seq::empty());
                assert(entries(Seq::<u8>::empty()) == Some(Seq::<(Seq<u8>, Seq<u8>)>::empty()));
                lemma_entries_concat(before, record(key@) + record(value@) + Seq::<u8>::empty());
                assert(seq![(key@, value@)] + Seq::<(Seq<u8>, Seq<u8>)>::empty() =~= seq![
                    (key@, value@),
                ]);
                assert(upsert(Seq::<(Seq<u8>, Seq<u8>)>::empty(), key@, value@) =~= seq![
                    (key@, value@),
                ]);
                assert(seen + seq![(key@, value@)] =~= upsert(
                    entries(bytes@).unwrap(),
                    key@,
                    value@,
                ));
            }
            return Ok(out);
        }
        let (ks, ke) = match read_record(bytes, i) {
            Some(p) => p,
            None => {
                return Err(StoreError {});
            },
        };
        let ghost r1 = bytes@.skip(ke as int);
        proof {
            assert(r1 =~= sfx.skip(8 + (ke - ks)));
        }
        let (vs, ve) = match read_record(bytes, ke) {
            Some(p) => p,
            None => {
                return Err(StoreError {});
            },
        };
        let ghost kseq = bytes@.subrange(ks as int, ke as int);
        let ghost vseq = bytes@.subrange(vs as int, ve as int);
        let ghost rest2 = bytes@.skip(ve as int);
        proof {
            assert(rest2 =~= r1.skip(8 + (ve - vs)));
            match entries(rest2) {
                Some(es) => {
                    assert(entries(sfx) == Some(seq![(kseq, vseq)] + es));
                },
                None => {
                    assert(entries(sfx) is None);
                },
            }
        }
        let k = slice_subrange(bytes.as_slice(), ks, ke);
        proof {
            assert(k@ =~= kseq);
        }
        if bytes_eq(k, key.as_slice()) {
            // replace this binding and keep the remainder as it stands
            if !read_to_end(bytes, ve) {
                return Err(StoreError {});
            }
            let klen = key.len();
            let vlen = value.len();
            proof {
                assert(key@.len() == klen && value@.len() == vlen);
            }
            let ghost before = out@;
            push_record(&mut out, key.as_slice());
            push_record(&mut out, value.as_slice());
            let tail = copy_range(bytes, ve, n);
            push_bytes(&mut out, tail.as_slice());
            proof {
                assert(tail@ =~= rest2);
                let es = entries(rest2).unwrap();
                let rest = entries(sfx).unwrap();
                assert(rest == seq![(kseq, vseq)] + es);
                assert(rest[0].0 == key@);
                assert(upsert(rest, key@, value@) == seq![(key@, value@)] + rest.skip(1));
                assert(rest.skip(1) =~= es);
                lemma_entries_pair(key@, value@, rest2);
                lemma_entries_concat(before, record(key@) + record(value@) + rest2);
                assert(out@ =~= before + (record(key@) + record(value@) + rest2));
                assert(seen + (seq![(key@, value@)] + es) =~= seen + upsert(rest, key@, value@));
            }
            return Ok(out);
        }
        // keep this pair and move on
        let ghost before = out@;
        let kc = copy_range(bytes, ks, ke);
        let vc = copy_range(bytes, vs, ve);
        push_record(&mut out, kc.as_slice());
        push_record(&mut out, vc.as_slice());
        proof {
            assert(out@ =~= before + (record(kseq) + record(vseq) + Seq::<u8>::empty()));
            lemma_entries_pair(kseq, vseq, Seq::empty());
            lemma_entries_concat(before, record(kseq) + record(vseq) + Seq::<u8>::empty());
            assert(seen + (seq![(kseq, vseq)] + Seq::<(Seq<u8>, Seq<u8>)>::empty()) =~= seen.push(
                (kseq, vseq),
            ));
            lemma_lookup_push(seen, kseq, vseq, key@);
            match entries(rest2) {
                Some(es) => {
                    let rest = entries(sfx).unwrap();
                    assert(rest.skip(1) =~= es);
                    assert(seen + rest =~= seen.push((kseq, vseq)) + es);
                    assert(upsert(rest, key@, value@) == seq![(kseq, vseq)] + upsert(
                        es,
                        key@,
                        value@,
                    ));
                    assert(seen + upsert(rest, key@, value@) =~= seen.push((kseq, vseq)) + upsert(
                        es,
                        key@,
                        value@,
                    ));
                },
                None => {},
            }
            seen = seen.push((kseq, vseq));
        }
        i = ve;
    }
}

} // verus!
