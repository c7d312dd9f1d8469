//! The leaf tree: an authenticated key/value map primitive. Each subtree of
//! the store is one leaf tree; its root hash is a Merkle root over the hashes
//! of its encoded entries.
//!
//! This primitive defines its own commitment and proof format: the root is
//! a SHA-256 Merkle root over length-prefixed entry encodings, and a proof
//! discloses the full entry list. Root hashes and proofs are therefore not
//! interchangeable with those of any external leaf-tree engine; stores
//! written by one engine cannot be verified against the other's roots.
use crate::merkle::{hash_bytes, merkle_root, merkle_root_of, sha256};
use crate::util::{bytes_eq, copy_bytes, push_bytes};
use crate::Error;
use vstd::bytes::{
    lemma_auto_spec_u64_to_from_le_bytes, spec_u64_from_le_bytes, spec_u64_to_le_bytes,
    u64_from_le_bytes, u64_to_le_bytes,
};
use vstd::pervasive::VecAdditionalExecFns;
use vstd::prelude::*;
use vstd::slice::{slice_subrange, slice_to_vec};

verus! {

/// An all-zero hash: the root of an empty tree.
pub open spec fn zero_hash() -> Seq<u8> {
    Seq::new(32, |i: int| 0u8)
}

/// Looks a key up in an entry sequence; the first match wins.
pub open spec fn spec_get(es: Seq<(Seq<u8>, Seq<u8>)>, k: Seq<u8>) -> Option<Seq<u8>>
    decreases es.len(),
{
    if es.len() == 0 {
        Option::None
    } else if es[0].0 == k {
        Option::Some(es[0].1)
    } else {
        spec_get(es.skip(1), k)
    }
}

/// Writes a key into an entry sequence: replaces the first entry with that
/// key, or appends a new entry at the end.
pub open spec fn spec_apply(es: Seq<(Seq<u8>, Seq<u8>)>, k: Seq<u8>, v: Seq<u8>) -> Seq<
    (Seq<u8>, Seq<u8>),
>
    decreases es.len(),
{
    if es.len() == 0 {
        seq![(k, v)]
    } else if es[0].0 == k {
        seq![(k, v)] + es.skip(1)
    } else {
        seq![es[0]] + spec_apply(es.skip(1), k, v)
    }
}

/// No two entries share a key.
pub open spec fn unique_keys(es: Seq<(Seq<u8>, Seq<u8>)>) -> bool {
    forall|i: int, j: int| 0 <= i < j < es.len() ==> (#[trigger] es[i]).0 != (#[trigger] es[j]).0
}

/// The bytes a single entry contributes to hashing and serialization: both
/// the key and the value length-prefixed (u64, little endian).
pub open spec fn spec_entry_bytes(k: Seq<u8>, v: Seq<u8>) -> Seq<u8> {
    spec_u64_to_le_bytes(k.len() as u64) + k + spec_u64_to_le_bytes(v.len() as u64) + v
}

/// The leaf hashes fed to the Merkle tree: one SHA-256 digest per entry.
pub open spec fn spec_leaf_hashes(es: Seq<(Seq<u8>, Seq<u8>)>) -> Seq<Seq<u8>> {
    es.map_values(|e: (Seq<u8>, Seq<u8>)| sha256(spec_entry_bytes(e.0, e.1)))
}

/// The root hash of a leaf tree with the given entries: the all-zero hash
/// when empty, else the Merkle root over the entry hashes.
pub open spec fn spec_root_hash(es: Seq<(Seq<u8>, Seq<u8>)>) -> Seq<u8> {
    if es.len() == 0 {
        zero_hash()
    } else {
        merkle_root(spec_leaf_hashes(es))
    }
}

/// A key absent from every entry makes the lookup fail.
pub proof fn lemma_get_not_found(es: Seq<(Seq<u8>, Seq<u8>)>, k: Seq<u8>)
    requires
        forall|j: int| 0 <= j < es.len() ==> (#[trigger] es[j]).0 != k,
    ensures
        spec_get(es, k) is None,
    decreases es.len(),
{
    if es.len() > 0 {
        lemma_get_not_found(es.skip(1), k);
    }
}

/// A first match at index `i` determines the lookup result.
pub proof fn lemma_get_found(es: Seq<(Seq<u8>, Seq<u8>)>, k: Seq<u8>, i: int)
    requires
        0 <= i < es.len(),
        es[i].0 == k,
        forall|j: int| 0 <= j < i ==> (#[trigger] es[j]).0 != k,
    ensures
        spec_get(es, k) == Option::Some(es[i].1),
    decreases i,
{
    if i > 0 {
        lemma_get_found(es.skip(1), k, i - 1);
    }
}

/// A write at an existing first match at index `i` updates that entry in
/// place.
pub proof fn lemma_apply_found(es: Seq<(Seq<u8>, Seq<u8>)>, k: Seq<u8>, v: Seq<u8>, i: int)
    requires
        0 <= i < es.len(),
        es[i].0 == k,
        forall|j: int| 0 <= j < i ==> (#[trigger] es[j]).0 != k,
    ensures
        spec_apply(es, k, v) =~= es.update(i, (k, v)),
    decreases i,
{
    if i == 0 {
        assert(spec_apply(es, k, v) =~= es.update(0, (k, v)));
    } else {
        lemma_apply_found(es.skip(1), k, v, i - 1);
        assert(spec_apply(es, k, v) =~= es.update(i, (k, v)));
    }
}

/// A write of an absent key appends the new entry.
pub proof fn lemma_apply_not_found(es: Seq<(Seq<u8>, Seq<u8>)>, k: Seq<u8>, v: Seq<u8>)
    requires
        forall|j: int| 0 <= j < es.len() ==> (#[trigger] es[j]).0 != k,
    ensures
        spec_apply(es, k, v) =~= es.push((k, v)),
    decreases es.len(),
{
    if es.len() == 0 {
        assert(spec_apply(es, k, v) =~= es.push((k, v)));
    } else {
        lemma_apply_not_found(es.skip(1), k, v);
        assert(spec_apply(es, k, v) =~= es.push((k, v)));
    }
}

/// Writing preserves key uniqueness, and afterwards the written key maps to
/// the written value while every other key is unchanged.
pub proof fn lemma_apply_semantics(es: Seq<(Seq<u8>, Seq<u8>)>, k: Seq<u8>, v: Seq<u8>)
    requires
        unique_keys(es),
    ensures
        unique_keys(spec_apply(es, k, v)),
        spec_get(spec_apply(es, k, v), k) == Option::Some(v),
        forall|k2: Seq<u8>| k2 != k ==> #[trigger] spec_get(spec_apply(es, k, v), k2) == spec_get(
            es,
            k2,
        ),
    decreases es.len(),
{
    if es.len() == 0 {
        let res = spec_apply(es, k, v);
        assert forall|k2: Seq<u8>| k2 != k implies #[trigger] spec_get(res, k2) == spec_get(
            es,
            k2,
        ) by {
            assert(res.skip(1) =~= Seq::<(Seq<u8>, Seq<u8>)>::empty());
            assert(spec_get(res.skip(1), k2) is None);
        }
    } else if es[0].0 == k {
        assert forall|k2: Seq<u8>| k2 != k implies #[trigger] spec_get(spec_apply(es, k, v), k2)
            == spec_get(es, k2) by {
            assert(spec_apply(es, k, v).skip(1) =~= es.skip(1));
        }
        assert forall|i: int, j: int|
            0 <= i < j < spec_apply(es, k, v).len() implies (#[trigger] spec_apply(es, k, v)[i]).0
            != (#[trigger] spec_apply(es, k, v)[j]).0 by {
            if i == 0 {
                assert(es[j].0 != es[0].0);
            } else {
                assert(spec_apply(es, k, v)[i] == es[i]);
                assert(spec_apply(es, k, v)[j] == es[j]);
            }
        }
    } else {
        assert(unique_keys(es.skip(1))) by {
            assert(forall|i: int, j: int|
                0 <= i < j < es.skip(1).len() ==> es.skip(1)[i] == es[i + 1] && es.skip(1)[j]
                    == es[j + 1]);
        }
        lemma_apply_semantics(es.skip(1), k, v);
        let res = spec_apply(es, k, v);
        let inner = spec_apply(es.skip(1), k, v);
        assert(res[0] == es[0]);
        assert(res.skip(1) =~= inner);
        assert(spec_get(res, k) == Option::Some(v));
        assert forall|k2: Seq<u8>| k2 != k implies #[trigger] spec_get(res, k2) == spec_get(
            es,
            k2,
        ) by {
            assert(spec_get(res, k2) == if res[0].0 == k2 {
                Option::Some(res[0].1)
            } else {
                spec_get(inner, k2)
            });
        }
        // Uniqueness: the written key is either updated in place or appended;
        // either way it was not equal to es[0].0.
        assert forall|i: int, j: int| 0 <= i < j < res.len() implies (#[trigger] res[i]).0
            != (#[trigger] res[j]).0 by {
            if i == 0 {
                assert(res[j] == inner[j - 1]);
                if inner[j - 1].0 == es[0].0 {
                    // The entry at j comes from applying to the tail; its key is
                    // either k (and k != es[0].0) or an old tail key.
                    lemma_apply_keys(es.skip(1), k, v, j - 1);
                    assert(false);
                }
            } else {
                assert(res[i] == inner[i - 1]);
                assert(res[j] == inner[j - 1]);
            }
        }
    }
}

/// Every key of an applied sequence is either the written key or an old key.
pub proof fn lemma_apply_keys(es: Seq<(Seq<u8>, Seq<u8>)>, k: Seq<u8>, v: Seq<u8>, i: int)
    requires
        0 <= i < spec_apply(es, k, v).len(),
    ensures
        spec_apply(es, k, v)[i].0 == k || exists|j: int|
            0 <= j < es.len() && (#[trigger] es[j]).0 == spec_apply(es, k, v)[i].0,
    decreases es.len(),
{
    if es.len() == 0 {
    } else if es[0].0 == k {
        if i > 0 {
            assert(spec_apply(es, k, v)[i] == es.skip(1)[i - 1]);
            assert(es[i] == es.skip(1)[i - 1]);
        }
    } else {
        if i > 0 {
            lemma_apply_keys(es.skip(1), k, v, i - 1);
            assert(spec_apply(es, k, v)[i] == spec_apply(es.skip(1), k, v)[i - 1]);
            if spec_apply(es.skip(1), k, v)[i - 1].0 != k {
                let j = choose|j: int|
                    0 <= j < es.skip(1).len() && (#[trigger] es.skip(1)[j]).0 == spec_apply(
                        es.skip(1),
                        k,
                        v,
                    )[i - 1].0;
                assert(es[j + 1] == es.skip(1)[j]);
            }
        }
    }
}

/// The views of a sequence of byte-vector entries.
pub open spec fn entry_views(s: Seq<(Vec<u8>, Vec<u8>)>) -> Seq<(Seq<u8>, Seq<u8>)> {
    s.map_values(|e: (Vec<u8>, Vec<u8>)| (e.0@, e.1@))
}

/// Every key and value is small enough for its length to be encoded in a u64.
pub open spec fn wf_entries(es: Seq<(Seq<u8>, Seq<u8>)>) -> bool {
    &&& es.len() <= u64::MAX
    &&& forall|i: int|
        0 <= i < es.len() ==> (#[trigger] es[i]).0.len() <= u64::MAX && es[i].1.len() <= u64::MAX
}

/// The concatenation of the serialized entries.
pub open spec fn spec_entries_body(es: Seq<(Seq<u8>, Seq<u8>)>) -> Seq<u8>
    decreases es.len(),
{
    if es.len() == 0 {
        Seq::empty()
    } else {
        spec_entry_bytes(es[0].0, es[0].1) + spec_entries_body(es.skip(1))
    }
}

/// The serialized form of an entry list: an entry count (u64, little endian)
/// followed by the length-prefixed entries. This is the wire format of a leaf
/// tree proof.
pub open spec fn spec_encode_entries(es: Seq<(Seq<u8>, Seq<u8>)>) -> Seq<u8> {
    spec_u64_to_le_bytes(es.len() as u64) + spec_entries_body(es)
}

/// Parses one length-prefixed entry off the front of `b`, returning it with
/// the remaining bytes.
pub open spec fn spec_parse_entry(b: Seq<u8>) -> Option<((Seq<u8>, Seq<u8>), Seq<u8>)> {
    if b.len() < 8 {
        Option::None
    } else {
        let kl = spec_u64_from_le_bytes(b.subrange(0, 8));
        if b.len() < 8 + kl {
            Option::None
        } else {
            let k = b.subrange(8, 8 + kl as int);
            let r1 = b.skip(8 + kl as int);
            if r1.len() < 8 {
                Option::None
            } else {
                let vl = spec_u64_from_le_bytes(r1.subrange(0, 8));
                if r1.len() < 8 + vl {
                    Option::None
                } else {
                    Option::Some(((k, r1.subrange(8, 8 + vl as int)), r1.skip(8 + vl as int)))
                }
            }
        }
    }
}

/// Parses exactly `n` entries off the front of `b`.
pub open spec fn spec_parse_entries(b: Seq<u8>, n: nat) -> Option<
    (Seq<(Seq<u8>, Seq<u8>)>, Seq<u8>),
>
    decreases n,
{
    if n == 0 {
        Option::Some((Seq::empty(), b))
    } else {
        match spec_parse_entry(b) {
            Option::Some((e, rest)) => match spec_parse_entries(rest, (n - 1) as nat) {
                Option::Some((es, rest2)) => Option::Some((seq![e] + es, rest2)),
                Option::None => Option::None,
            },
            Option::None => Option::None,
        }
    }
}

/// Decodes a serialized entry list; trailing bytes are rejected.
pub open spec fn spec_decode_entries(b: Seq<u8>) -> Option<Seq<(Seq<u8>, Seq<u8>)>> {
    if b.len() < 8 {
        Option::None
    } else {
        match spec_parse_entries(b.skip(8), spec_u64_from_le_bytes(b.take(8)) as nat) {
            Option::Some((es, rest)) => if rest.len() == 0 {
                Option::Some(es)
            } else {
                Option::None
            },
            Option::None => Option::None,
        }
    }
}

/// A serialized entry followed by anything parses back to that entry.
pub proof fn lemma_parse_entry_of_encoded(k: Seq<u8>, v: Seq<u8>, rest: Seq<u8>)
    requires
        k.len() <= u64::MAX,
        v.len() <= u64::MAX,
    ensures
        spec_parse_entry(spec_entry_bytes(k, v) + rest) == Option::Some(((k, v), rest)),
{
    lemma_auto_spec_u64_to_from_le_bytes();
    let b = spec_entry_bytes(k, v) + rest;
    assert(b.subrange(0, 8) =~= spec_u64_to_le_bytes(k.len() as u64));
    assert(b.subrange(8, 8 + k.len() as int) =~= k);
    let r1 = b.skip(8 + k.len() as int);
    assert(r1 =~= spec_u64_to_le_bytes(v.len() as u64) + v + rest);
    assert(r1.subrange(0, 8) =~= spec_u64_to_le_bytes(v.len() as u64));
    assert(r1.subrange(8, 8 + v.len() as int) =~= v);
    assert(r1.skip(8 + v.len() as int) =~= rest);
}

/// A serialized entry list followed by anything parses back to those entries.
pub proof fn lemma_parse_entries_of_encoded(es: Seq<(Seq<u8>, Seq<u8>)>, rest: Seq<u8>)
    requires
        forall|i: int|
            0 <= i < es.len() ==> (#[trigger] es[i]).0.len() <= u64::MAX && es[i].1.len()
                <= u64::MAX,
    ensures
        spec_parse_entries(spec_entries_body(es) + rest, es.len() as nat) == Option::Some(
            (es, rest),
        ),
    decreases es.len(),
{
    if es.len() == 0 {
        assert(spec_entries_body(es) + rest =~= rest);
        assert(es =~= Seq::<(Seq<u8>, Seq<u8>)>::empty());
    } else {
        let tail_bytes = spec_entries_body(es.skip(1)) + rest;
        assert(spec_entries_body(es) + rest =~= spec_entry_bytes(es[0].0, es[0].1) + tail_bytes);
        lemma_parse_entry_of_encoded(es[0].0, es[0].1, tail_bytes);
        assert(forall|i: int|
            0 <= i < es.skip(1).len() ==> es.skip(1)[i] == es[i + 1]);
        lemma_parse_entries_of_encoded(es.skip(1), rest);
        assert(seq![(es[0].0, es[0].1)] + es.skip(1) =~= es);
    }
}

/// Decoding the serialization of any well-formed entry list yields that list.
pub proof fn lemma_entries_codec_round_trip(es: Seq<(Seq<u8>, Seq<u8>)>)
    requires
        wf_entries(es),
    ensures
        spec_decode_entries(spec_encode_entries(es)) == Option::Some(es),
{
    lemma_auto_spec_u64_to_from_le_bytes();
    let b = spec_encode_entries(es);
    assert(b.take(8) =~= spec_u64_to_le_bytes(es.len() as u64));
    assert(b.skip(8) =~= spec_entries_body(es) + Seq::<u8>::empty());
    lemma_parse_entries_of_encoded(es, Seq::<u8>::empty());
}

/// Serializing one more entry appends its bytes.
pub proof fn lemma_entries_body_push(es: Seq<(Seq<u8>, Seq<u8>)>, e: (Seq<u8>, Seq<u8>))
    ensures
        spec_entries_body(es.push(e)) == spec_entries_body(es) + spec_entry_bytes(e.0, e.1),
    decreases es.len(),
{
    if es.len() == 0 {
        assert(es.push(e)[0] == e);
        assert(es.push(e).skip(1) =~= es);
        assert(spec_entries_body(es) == Seq::<u8>::empty());
        assert(spec_entries_body(es.push(e)) == spec_entry_bytes(e.0, e.1) + spec_entries_body(
            es,
        ));
        assert(spec_entry_bytes(e.0, e.1) + Seq::<u8>::empty() =~= Seq::<u8>::empty()
            + spec_entry_bytes(e.0, e.1));
    } else {
        assert(es.push(e)[0] == es[0]);
        assert(es.push(e).skip(1) =~= es.skip(1).push(e));
        lemma_entries_body_push(es.skip(1), e);
        assert(spec_entries_body(es.push(e).skip(1)) == spec_entries_body(es.skip(1)) +
            spec_entry_bytes(e.0, e.1));
        assert(spec_entries_body(es.push(e)) == spec_entry_bytes(es[0].0, es[0].1) + (
        spec_entries_body(es.skip(1)) + spec_entry_bytes(e.0, e.1)));
        assert(spec_entry_bytes(es[0].0, es[0].1) + (spec_entries_body(es.skip(1))
            + spec_entry_bytes(e.0, e.1)) =~= (spec_entry_bytes(es[0].0, es[0].1)
            + spec_entries_body(es.skip(1))) + spec_entry_bytes(e.0, e.1));
        assert(spec_entries_body(es.push(e)) =~= spec_entries_body(es) + spec_entry_bytes(
            e.0,
            e.1,
        ));
    }
}

/// Parses one length-prefixed entry at byte offset `pos`.
fn parse_entry_at(bytes: &Vec<u8>, pos: usize) -> (r: Option<((Vec<u8>, Vec<u8>), usize)>)
    requires
        pos <= bytes@.len(),
    ensures
        match r {
            Option::Some((e, end)) => pos <= end <= bytes@.len() && spec_parse_entry(
                bytes@.skip(pos as int),
            ) == Option::Some(((e.0@, e.1@), bytes@.skip(end as int))),
            Option::None => spec_parse_entry(bytes@.skip(pos as int)) is None,
        },
{
    proof {
        lemma_auto_spec_u64_to_from_le_bytes();
    }
    let ghost b = bytes@.skip(pos as int);
    let avail = bytes.len() - pos;
    if avail < 8 {
        return Option::None;
    }
    let kl = u64_from_le_bytes(slice_subrange(bytes.as_slice(), pos, pos + 8));
    proof {
        assert(bytes@.subrange(pos as int, pos + 8) =~= b.subrange(0, 8));
    }
    if kl > (avail - 8) as u64 {
        return Option::None;
    }
    let kl_us = kl as usize;
    let key = slice_to_vec(slice_subrange(bytes.as_slice(), pos + 8, pos + 8 + kl_us));
    let pos2 = pos + 8 + kl_us;
    proof {
        assert(key@ =~= b.subrange(8, 8 + kl as int));
        assert(bytes@.skip(pos2 as int) =~= b.skip(8 + kl as int));
    }
    let ghost r1 = b.skip(8 + kl as int);
    let avail2 = bytes.len() - pos2;
    if avail2 < 8 {
        return Option::None;
    }
    let vl = u64_from_le_bytes(slice_subrange(bytes.as_slice(), pos2, pos2 + 8));
    proof {
        assert(bytes@.subrange(pos2 as int, pos2 + 8) =~= r1.subrange(0, 8));
    }
    if vl > (avail2 - 8) as u64 {
        return Option::None;
    }
    let vl_us = vl as usize;
    let value = slice_to_vec(slice_subrange(bytes.as_slice(), pos2 + 8, pos2 + 8 + vl_us));
    let end = pos2 + 8 + vl_us;
    proof {
        assert(value@ =~= r1.subrange(8, 8 + vl as int));
        assert(bytes@.skip(end as int) =~= r1.skip(8 + vl as int));
    }
    Option::Some(((key, value), end))
}

/// Parses exactly `n` entries starting at byte offset `pos`.
fn parse_entries_rec(bytes: &Vec<u8>, pos: usize, n: u64) -> (r: Option<
    (Vec<(Vec<u8>, Vec<u8>)>, usize),
>)
    requires
        pos <= bytes@.len(),
    ensures
        match r {
            Option::Some((es, end)) => pos <= end <= bytes@.len() && spec_parse_entries(
                bytes@.skip(pos as int),
                n as nat,
            ) == Option::Some((entry_views(es@), bytes@.skip(end as int))),
            Option::None => spec_parse_entries(bytes@.skip(pos as int), n as nat) is None,
        },
    decreases n,
{
    if n == 0 {
        let es: Vec<(Vec<u8>, Vec<u8>)> = Vec::new();
        proof {
            assert(entry_views(es@) =~= Seq::<(Seq<u8>, Seq<u8>)>::empty());
        }
        return Option::Some((es, pos));
    }
    match parse_entry_at(bytes, pos) {
        Option::None => Option::None,
        Option::Some((e, mid)) => match parse_entries_rec(bytes, mid, n - 1) {
            Option::None => Option::None,
            Option::Some((mut es, end)) => {
                let ghost tail = entry_views(es@);
                es.insert(0, e);
                proof {
                    assert(entry_views(es@) =~= seq![(e.0@, e.1@)] + tail);
                }
                Option::Some((es, end))
            },
        },
    }
}

/// Decodes a serialized entry list; any malformed or trailing input is
/// rejected as corrupted data.
pub fn decode_entries(bytes: &Vec<u8>) -> (r: Result<Vec<(Vec<u8>, Vec<u8>)>, Error>)
    ensures
        match r {
            Result::Ok(es) => spec_decode_entries(bytes@) == Option::Some(entry_views(es@)),
            Result::Err(e) => spec_decode_entries(bytes@) is None && e is CorruptedData,
        },
{
    proof {
        lemma_auto_spec_u64_to_from_le_bytes();
    }
    if bytes.len() < 8 {
        return Result::Err(Error::CorruptedData("truncated entry list"));
    }
    let n = u64_from_le_bytes(slice_subrange(bytes.as_slice(), 0, 8));
    proof {
        assert(bytes@.subrange(0, 8) =~= bytes@.take(8));
    }
    match parse_entries_rec(bytes, 8, n) {
        Option::None => Result::Err(Error::CorruptedData("malformed entry list")),
        Option::Some((es, end)) => {
            if end == bytes.len() {
                proof {
                    assert(bytes@.skip(end as int).len() == 0);
                }
                Result::Ok(es)
            } else {
                proof {
                    assert(bytes@.skip(end as int).len() > 0);
                }
                Result::Err(Error::CorruptedData("trailing bytes after entry list"))
            }
        },
    }
}

/// An authenticated key/value map: the entries in first-insertion order,
/// committed to by a Merkle root over their hashes.
pub struct LeafTree {
    entries: Vec<(Vec<u8>, Vec<u8>)>,
}

impl View for LeafTree {
    type V = Seq<(Seq<u8>, Seq<u8>)>;

    closed spec fn view(&self) -> Seq<(Seq<u8>, Seq<u8>)> {
        entry_views(self.entries@)
    }
}

impl LeafTree {
    /// An empty leaf tree.
    pub fn new() -> (r: LeafTree)
        ensures
            r@ =~= Seq::<(Seq<u8>, Seq<u8>)>::empty(),
    {
        LeafTree { entries: Vec::new() }
    }

    /// The number of entries.
    pub fn len(&self) -> (r: usize)
        ensures
            r == self@.len(),
    {
        self.entries.len()
    }

    /// Fetches the value stored under `key`, if any.
    pub fn get(&self, key: &Vec<u8>) -> (r: Option<Vec<u8>>)
        ensures
            match r {
                Option::Some(v) => spec_get(self@, key@) == Option::Some(v@),
                Option::None => spec_get(self@, key@) is None,
            },
    {
        let mut i: usize = 0;
        while i < self.entries.len()
            invariant
                i <= self@.len(),
                self@.len() == self.entries@.len(),
                forall|e: (Vec<u8>, Vec<u8>), j: int|
                    0 <= j < self.entries@.len() && e == self.entries@[j] ==> self@[j] == (
                    e.0@,
                    e.1@,
                ),
                forall|j: int| 0 <= j < i ==> (#[trigger] self@[j]).0 != key@,
            decreases self@.len() - i,
        {
            if bytes_eq(&self.entries[i].0, key) {
                proof {
                    lemma_get_found(self@, key@, i as int);
                }
                return Option::Some(copy_bytes(&self.entries[i].1));
            }
            i = i + 1;
        }
        proof {
            lemma_get_not_found(self@, key@);
        }
        Option::None
    }

    /// Writes `value` under `key`: replaces the existing entry or appends a
    /// new one.
    pub fn apply(&mut self, key: &Vec<u8>, value: &Vec<u8>)
        ensures
            final(self)@ == spec_apply(old(self)@, key@, value@),
    {
        let ghost orig = self@;
        let mut i: usize = 0;
        while i < self.entries.len()
            invariant
                i <= self@.len(),
                self@ == orig,
                orig == old(self)@,
                self@.len() == self.entries@.len(),
                forall|e: (Vec<u8>, Vec<u8>), j: int|
                    0 <= j < self.entries@.len() && e == self.entries@[j] ==> self@[j] == (
                    e.0@,
                    e.1@,
                ),
                forall|j: int| 0 <= j < i ==> (#[trigger] self@[j]).0 != key@,
            decreases self@.len() - i,
        {
            if bytes_eq(&self.entries[i].0, key) {
                proof {
                    lemma_apply_found(orig, key@, value@, i as int);
                }
                self.entries.set(i, (copy_bytes(key), copy_bytes(value)));
                proof {
                    assert(self@ =~= orig.update(i as int, (key@, value@)));
                    assert(orig == old(self)@);
                    assert(self@ =~= spec_apply(old(self)@, key@, value@));
                }
                return ;
            }
            i = i + 1;
        }
        proof {
            lemma_apply_not_found(orig, key@, value@);
        }
        self.entries.push((copy_bytes(key), copy_bytes(value)));
        proof {
            assert(self@ =~= orig.push((key@, value@)));
        }
    }

    /// Recomputes the root hash committing to the current entries.
    pub fn root_hash(&self) -> (r: Vec<u8>)
        ensures
            r@ == spec_root_hash(self@),
            r@.len() == 32,
    {
        let mut hashes: Vec<Vec<u8>> = Vec::new();
        let mut i: usize = 0;
        while i < self.entries.len()
            invariant
                i <= self@.len(),
                self@.len() == self.entries@.len(),
                forall|e: (Vec<u8>, Vec<u8>), j: int|
                    0 <= j < self.entries@.len() && e == self.entries@[j] ==> self@[j] == (
                    e.0@,
                    e.1@,
                ),
                hashes@.len() == i,
                forall|j: int| 0 <= j < i ==> (#[trigger] hashes@[j])@.len() == 32,
                forall|j: int| 0 <= j < i ==> (#[trigger] hashes@[j])@ == spec_leaf_hashes(
                    self@,
                )[j],
            decreases self@.len() - i,
        {
            let eb = entry_bytes(&self.entries[i].0, &self.entries[i].1);
            let h = hash_bytes(&eb);
            hashes.push(h);
            i = i + 1;
        }
        match merkle_root_of(&hashes) {
            Option::Some(h) => {
                proof {
                    assert(crate::util::views_of(hashes@) =~= spec_leaf_hashes(self@));
                }
                h
            },
            Option::None => {
                proof {
                    assert(self@.len() == 0);
                }
                zero_hash_vec()
            },
        }
    }
}

impl LeafTree {
    /// Serializes all entries. This is the proof this leaf tree emits for a
    /// query: full disclosure of its contents, from which any inclusion or
    /// absence can be checked against the root hash.
    pub fn prove(&self) -> (r: Vec<u8>)
        ensures
            r@ == spec_encode_entries(self@),
    {
        let mut r = u64_to_le_bytes(self.entries.len() as u64);
        let mut i: usize = 0;
        while i < self.entries.len()
            invariant
                i <= self@.len(),
                self@.len() == self.entries@.len(),
                r@ == spec_u64_to_le_bytes(self@.len() as u64) + spec_entries_body(
                    self@.take(i as int),
                ),
            decreases self@.len() - i,
        {
            proof {
                lemma_entries_body_push(self@.take(i as int), self@[i as int]);
                assert(self@.take(i + 1) =~= self@.take(i as int).push(self@[i as int]));
            }
            let eb = entry_bytes(&self.entries[i].0, &self.entries[i].1);
            push_bytes(&mut r, &eb);
            proof {
                assert(r@ =~= spec_u64_to_le_bytes(self@.len() as u64) + spec_entries_body(
                    self@.take(i + 1),
                ));
            }
            i = i + 1;
        }
        proof {
            assert(self@.take(self@.len() as int) =~= self@);
        }
        r
    }

    /// Wraps already-decoded entries as a leaf tree.
    pub fn from_entries(entries: Vec<(Vec<u8>, Vec<u8>)>) -> (r: LeafTree)
        ensures
            r@ == entry_views(entries@),
    {
        LeafTree { entries }
    }

    /// Copies out all entries.
    pub fn entries_vec(&self) -> (r: Vec<(Vec<u8>, Vec<u8>)>)
        ensures
            entry_views(r@) == self@,
    {
        copy_entries(&self.entries)
    }

    /// Whether no two entries share a key.
    pub fn has_unique_keys(&self) -> (r: bool)
        ensures
            r <==> unique_keys(self@),
    {
        let mut i: usize = 0;
        while i < self.entries.len()
            invariant
                i <= self@.len(),
                self@.len() == self.entries@.len(),
                forall|a: int, b: int| 0 <= a < b < self@.len() && a < i ==> (
                #[trigger] self@[a]).0 != (#[trigger] self@[b]).0,
            decreases self@.len() - i,
        {
            let mut j: usize = i + 1;
            while j < self.entries.len()
                invariant
                    i < j <= self@.len(),
                    self@.len() == self.entries@.len(),
                    forall|b: int| i < b < j ==> (#[trigger] self@[b]).0 != self@[i as int].0,
                decreases self@.len() - j,
            {
                if bytes_eq(&self.entries[i].0, &self.entries[j].0) {
                    proof {
                        assert(self@[i as int].0 == self@[j as int].0);
                    }
                    return false;
                }
                j = j + 1;
            }
            i = i + 1;
        }
        true
    }
}

/// Entries held by an in-memory leaf tree are well formed: every key and
/// value is a real vector, so its length fits in a u64.
pub proof fn lemma_leaftree_entries_wf(lt: &LeafTree)
    ensures
        wf_entries(lt@),
{
    assert(lt.entries.len() == lt.entries@.len());
    assert(lt@.len() <= u64::MAX);
    assert forall|i: int|
        0 <= i < lt@.len() implies (#[trigger] lt@[i]).0.len() <= u64::MAX && lt@[i].1.len()
        <= u64::MAX by {
        assert(lt@[i] == (lt.entries@[i].0@, lt.entries@[i].1@));
        assert(lt.entries@[i].0.len() == lt.entries@[i].0@.len());
        assert(lt.entries@[i].1.len() == lt.entries@[i].1@.len());
    }
}

/// Executes a leaf tree proof: decodes the disclosed entries and recomputes
/// the root hash they commit to. Malformed bytes fail as an invalid proof.
pub fn execute_leaf_proof(bytes: &Vec<u8>) -> (r: Result<(Vec<u8>, LeafTree), Error>)
    ensures
        match r {
            Result::Ok((root, lt)) => spec_decode_entries(bytes@) == Option::Some(lt@) && root@
                == spec_root_hash(lt@) && root@.len() == 32,
            Result::Err(e) => spec_decode_entries(bytes@) is None && e is InvalidProof,
        },
{
    match decode_entries(bytes) {
        Result::Ok(es) => {
            let lt = LeafTree::from_entries(es);
            let root = lt.root_hash();
            Result::Ok((root, lt))
        },
        Result::Err(_) => Result::Err(Error::InvalidProof("invalid proof element")),
    }
}

/// Deep-copies an entry list.
pub fn copy_entries(src: &Vec<(Vec<u8>, Vec<u8>)>) -> (r: Vec<(Vec<u8>, Vec<u8>)>)
    ensures
        entry_views(r@) == entry_views(src@),
{
    let mut r: Vec<(Vec<u8>, Vec<u8>)> = Vec::new();
    let mut i: usize = 0;
    while i < src.len()
        invariant
            i <= src@.len(),
            entry_views(r@) =~= entry_views(src@).take(i as int),
        decreases src@.len() - i,
    {
        r.push((copy_bytes(&src[i].0), copy_bytes(&src[i].1)));
        proof {
            assert(entry_views(src@).take(i + 1) =~= entry_views(src@).take(i as int).push(
                (src@[i as int].0@, src@[i as int].1@),
            ));
            assert(entry_views(r@) =~= entry_views(src@).take(i + 1));
        }
        i = i + 1;
    }
    proof {
        assert(entry_views(r@) =~= entry_views(src@));
    }
    r
}

/// Builds the 32-byte all-zero hash.
pub fn zero_hash_vec() -> (r: Vec<u8>)
    ensures
        r@ == zero_hash(),
        r@.len() == 32,
{
    let mut z: Vec<u8> = Vec::new();
    let mut j: usize = 0;
    while j < 32
        invariant
            j <= 32,
            z@ =~= zero_hash().take(j as int),
        decreases 32 - j,
    {
        proof {
            assert(zero_hash().take(j + 1) =~= zero_hash().take(j as int).push(0u8));
        }
        z.push(0u8);
        j = j + 1;
    }
    proof {
        assert(zero_hash().take(32) =~= zero_hash());
    }
    z
}

/// Builds the hashed/serialized form of one entry.
pub fn entry_bytes(k: &Vec<u8>, v: &Vec<u8>) -> (r: Vec<u8>)
    ensures
        r@ == spec_entry_bytes(k@, v@),
{
    let mut r = u64_to_le_bytes(k.len() as u64);
    push_bytes(&mut r, k);
    let vl = u64_to_le_bytes(v.len() as u64);
    push_bytes(&mut r, &vl);
    push_bytes(&mut r, v);
    proof {
        assert(r@ =~= spec_entry_bytes(k@, v@));
    }
    r
}

} // verus!
