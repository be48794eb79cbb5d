//! A persistent, fixed-capacity key/value block store.
//!
//! The store keeps an exact byte image of its backing file: a 32-byte
//! header (`seed | block_size | block_count | element_count`, each a
//! little-endian `u64`) followed by `block_count` buckets of
//! `block_size` bytes each. A bucket is a gap-free sequence of slots,
//! each framed as the codec writes records; a slot whose key length is
//! zero is a free run whose value length is its spare capacity.
//!
//! Reading and writing the image to disk is the embedding program's
//! business; the store itself never grows, never rehashes, and never
//! spills a record into another bucket.

use vstd::prelude::*;

use crate::codec::{le_bytes_to_u64, parse_slot, u64_le_bytes, Blob, Error};
use crate::hasher::hash_spec;

verus! {

/// A slot, as the specification sees it: encoded key bytes and payload
/// bytes. A free slot has an empty key; its payload is the free run.
pub open spec fn slot_size(s: (Seq<u8>, Seq<u8>)) -> int {
    16 + s.0.len() as int + s.1.len() as int
}

/// The bytes a slot occupies on the wire.
pub open spec fn slot_bytes(s: (Seq<u8>, Seq<u8>)) -> Seq<u8> {
    u64_le_bytes(s.0.len() as u64) + u64_le_bytes(s.1.len() as u64) + s.0 + s.1
}

/// The total wire size of a slot sequence.
pub open spec fn slots_size(slots: Seq<(Seq<u8>, Seq<u8>)>) -> int
    decreases slots.len(),
{
    if slots.len() == 0 {
        0
    } else {
        slot_size(slots[0]) + slots_size(slots.skip(1))
    }
}

/// The concatenated wire bytes of a slot sequence.
pub open spec fn slots_bytes(slots: Seq<(Seq<u8>, Seq<u8>)>) -> Seq<u8>
    decreases slots.len(),
{
    if slots.len() == 0 {
        Seq::empty()
    } else {
        slot_bytes(slots[0]) + slots_bytes(slots.skip(1))
    }
}

/// Every slot's framed size fits the machine word.
pub open spec fn slots_wf(slots: Seq<(Seq<u8>, Seq<u8>)>) -> bool {
    forall|i: int| 0 <= i < slots.len() ==> slot_size(#[trigger] slots[i]) <= usize::MAX
}

/// Parses the gap-free slot sequence that fills `b` from `pos` to its
/// end; `None` when the framing runs past the end of `b`.
pub open spec fn parse_from(b: Seq<u8>, pos: int) -> Option<Seq<(Seq<u8>, Seq<u8>)>>
    decreases b.len() - pos,
{
    if pos == b.len() {
        Some(Seq::empty())
    } else {
        match parse_slot(b, pos) {
            None => None,
            Some(s) => match parse_from(b, pos + slot_size(s)) {
                None => None,
                Some(rest) => Some(seq![s] + rest),
            },
        }
    }
}

/// A well-formed bucket: its bytes are exactly a gap-free slot sequence.
pub open spec fn wf_bucket(b: Seq<u8>) -> bool {
    parse_from(b, 0) is Some
}

/// The slots of a well-formed bucket.
pub open spec fn bucket_slots_of(b: Seq<u8>) -> Seq<(Seq<u8>, Seq<u8>)> {
    parse_from(b, 0)->Some_0
}

/// The value of the first slot whose key bytes equal `key`.
pub open spec fn slots_lookup(slots: Seq<(Seq<u8>, Seq<u8>)>, key: Seq<u8>) -> Option<Seq<u8>>
    decreases slots.len(),
{
    if slots.len() == 0 {
        None
    } else if slots[0].0 == key {
        Some(slots[0].1)
    } else {
        slots_lookup(slots.skip(1), key)
    }
}

/// Whether a record of framed size `rlen` can be placed in this free
/// slot: the slot must be free, and the record must either fill the
/// run exactly or leave at least the 16 bytes a trailing free slot's
/// header needs, so that the bucket stays gap-free.
pub open spec fn slot_usable(s: (Seq<u8>, Seq<u8>), rlen: int) -> bool {
    s.0.len() == 0 && (rlen == slot_size(s) || rlen + 16 <= slot_size(s))
}

/// Whether some free slot of the bucket can take a record of framed
/// size `rlen`.
pub open spec fn has_room(slots: Seq<(Seq<u8>, Seq<u8>)>, rlen: int) -> bool {
    exists|i: int| 0 <= i < slots.len() && slot_usable(#[trigger] slots[i], rlen)
}

/// The slot sequence after placing `(key, val)` in the first usable
/// free slot: the record replaces the front of the run, and any
/// leftover bytes stay behind it as a shorter free run. Unchanged when
/// no slot is usable.
pub open spec fn spec_insert_slots(
    slots: Seq<(Seq<u8>, Seq<u8>)>,
    key: Seq<u8>,
    val: Seq<u8>,
) -> Seq<(Seq<u8>, Seq<u8>)>
    decreases slots.len(),
{
    let rlen: int = 16 + key.len() as int + val.len() as int;
    if slots.len() == 0 {
        slots
    } else if slot_usable(slots[0], rlen as int) {
        if rlen == slot_size(slots[0]) {
            seq![(key, val)] + slots.skip(1)
        } else {
            seq![
                (key, val),
                (Seq::<u8>::empty(), slots[0].1.subrange(rlen as int, slots[0].1.len() as int)),
            ] + slots.skip(1)
        }
    } else {
        seq![slots[0]] + spec_insert_slots(slots.skip(1), key, val)
    }
}

/// The slot sequence after removing the first record whose key equals
/// `key`: the slot becomes a free run over its own bytes, merged with
/// the following slot when that one is free. Unchanged when no record
/// matches.
pub open spec fn spec_remove_slots(
    slots: Seq<(Seq<u8>, Seq<u8>)>,
    key: Seq<u8>,
) -> Seq<(Seq<u8>, Seq<u8>)>
    decreases slots.len(),
{
    if slots.len() == 0 {
        slots
    } else if slots[0].0 == key {
        if slots.len() >= 2 && slots[1].0.len() == 0 {
            seq![
                (
                    Seq::<u8>::empty(),
                    slots[0].0 + slots[0].1 + u64_le_bytes(0) + u64_le_bytes(
                        slots[1].1.len() as u64,
                    ) + slots[1].1,
                ),
            ] + slots.skip(2)
        } else {
            seq![(Seq::<u8>::empty(), slots[0].0 + slots[0].1)] + slots.skip(1)
        }
    } else {
        seq![slots[0]] + spec_remove_slots(slots.skip(1), key)
    }
}

/// Size and bytes of a one-slot sequence.
pub proof fn lemma_slots_single(s: (Seq<u8>, Seq<u8>))
    ensures
        slots_size(seq![s]) == slot_size(s),
        slots_bytes(seq![s]) == slot_bytes(s),
{
    let single = seq![s];
    reveal_with_fuel(slots_size, 2);
    reveal_with_fuel(slots_bytes, 2);
    assert(single.skip(1) =~= Seq::<(Seq<u8>, Seq<u8>)>::empty());
    assert(single[0] == s);
    assert(slots_bytes(single) =~= slot_bytes(s));
}

/// Size of a two-slot sequence.
pub proof fn lemma_slots_pair(a: (Seq<u8>, Seq<u8>), b: (Seq<u8>, Seq<u8>))
    ensures
        slots_size(seq![a, b]) == slot_size(a) + slot_size(b),
{
    let pair = seq![a, b];
    assert(pair.skip(1) =~= seq![b]);
    lemma_slots_single(b);
}

/// Sizes add over concatenation.
pub proof fn lemma_slots_size_append(a: Seq<(Seq<u8>, Seq<u8>)>, b: Seq<(Seq<u8>, Seq<u8>)>)
    ensures
        slots_size(a + b) == slots_size(a) + slots_size(b),
    decreases a.len(),
{
    if a.len() == 0 {
        assert(a + b =~= b);
    } else {
        lemma_slots_size_append(a.skip(1), b);
        assert((a + b).skip(1) =~= a.skip(1) + b);
    }
}

/// Wire bytes concatenate over concatenation.
pub proof fn lemma_slots_bytes_append(a: Seq<(Seq<u8>, Seq<u8>)>, b: Seq<(Seq<u8>, Seq<u8>)>)
    ensures
        slots_bytes(a + b) == slots_bytes(a) + slots_bytes(b),
    decreases a.len(),
{
    if a.len() == 0 {
        assert(a + b =~= b);
        assert(slots_bytes(a) + slots_bytes(b) =~= slots_bytes(b));
    } else {
        lemma_slots_bytes_append(a.skip(1), b);
        assert((a + b).skip(1) =~= a.skip(1) + b);
        assert(slot_bytes((a + b)[0]) + (slots_bytes(a.skip(1)) + slots_bytes(b))
            =~= (slot_bytes(a[0]) + slots_bytes(a.skip(1))) + slots_bytes(b));
    }
}

/// A slot sequence's wire size is the length of its wire bytes.
pub proof fn lemma_slots_bytes_len(slots: Seq<(Seq<u8>, Seq<u8>)>)
    ensures
        slots_bytes(slots).len() == slots_size(slots),
        slots_size(slots) >= 0,
    decreases slots.len(),
{
    if slots.len() != 0 {
        lemma_slots_bytes_len(slots.skip(1));
    }
}

/// Parsing depends only on the suffix that starts at `pos`.
pub proof fn lemma_parse_from_suffix(b: Seq<u8>, pos: int)
    requires
        0 <= pos <= b.len(),
    ensures
        parse_from(b, pos) == parse_from(b.subrange(pos, b.len() as int), 0),
    decreases b.len() - pos,
{
    let t = b.subrange(pos, b.len() as int);
    if pos == b.len() {
        assert(t.len() == 0);
    } else if pos + 16 > b.len() {
        assert(parse_slot(b, pos) is None);
        assert(parse_slot(t, 0) is None);
    } else {
        assert(b.subrange(pos, pos + 8) =~= t.subrange(0, 8));
        assert(b.subrange(pos + 8, pos + 16) =~= t.subrange(8, 16));
        match parse_slot(b, pos) {
            None => {
                assert(parse_slot(t, 0) is None);
            },
            Some(s) => {
                let klen = s.0.len() as int;
                let vlen = s.1.len() as int;
                assert(b.subrange(pos + 16, pos + 16 + klen) =~= t.subrange(16, 16 + klen));
                assert(b.subrange(pos + 16 + klen, pos + 16 + klen + vlen) =~= t.subrange(
                    16 + klen,
                    16 + klen + vlen,
                ));
                assert(parse_slot(t, 0) == Some(s));
                let sz = slot_size(s);
                lemma_parse_from_suffix(b, pos + sz);
                lemma_parse_from_suffix(t, sz);
                assert(t.subrange(sz, t.len() as int) =~= b.subrange(pos + sz, b.len() as int));
            },
        }
    }
}

/// Parsing a well-formed sequence's wire bytes gives the sequence back.
pub proof fn lemma_parse_serialize(slots: Seq<(Seq<u8>, Seq<u8>)>)
    requires
        slots_wf(slots),
    ensures
        parse_from(slots_bytes(slots), 0) == Some(slots),
    decreases slots.len(),
{
    if slots.len() == 0 {
    } else {
        let s = slots[0];
        let rest = slots.skip(1);
        let sb = slot_bytes(s);
        let rb = slots_bytes(rest);
        let b = slots_bytes(slots);
        assert(b =~= sb + rb);
        let klen = s.0.len() as int;
        let vlen = s.1.len() as int;
        lemma_slots_bytes_len(rest);
        assert(b.subrange(0, 8) =~= u64_le_bytes(s.0.len() as u64));
        assert(b.subrange(8, 16) =~= u64_le_bytes(s.1.len() as u64));
        crate::codec::lemma_le_roundtrip(s.0.len() as u64);
        crate::codec::lemma_le_roundtrip(s.1.len() as u64);
        assert(b.subrange(16, 16 + klen) =~= s.0);
        assert(b.subrange(16 + klen, 16 + klen + vlen) =~= s.1);
        assert(parse_slot(b, 0) == Some(s));
        lemma_parse_from_suffix(b, slot_size(s));
        assert(b.subrange(slot_size(s), b.len() as int) =~= rb);
        lemma_parse_serialize(rest);
        assert(seq![s] + rest =~= slots);
    }
}

/// A well-formed bucket's slots fill it exactly.
pub proof fn lemma_parse_size(b: Seq<u8>, pos: int)
    requires
        parse_from(b, pos) is Some,
        0 <= pos <= b.len(),
        b.len() <= usize::MAX,
    ensures
        slots_size(parse_from(b, pos)->Some_0) == b.len() - pos,
        slots_wf(parse_from(b, pos)->Some_0),
    decreases b.len() - pos,
{
    if pos == b.len() {
    } else {
        let s = parse_slot(b, pos)->Some_0;
        lemma_parse_size(b, pos + slot_size(s));
        let rest = parse_from(b, pos + slot_size(s))->Some_0;
        let all = parse_from(b, pos)->Some_0;
        assert(all =~= seq![s] + rest);
        lemma_slots_size_append(seq![s], rest);
        lemma_slots_single(s);
        assert(forall|i: int| 0 <= i < all.len() ==> all[i] == (seq![s] + rest)[i]);
    }
}

/// Placing a record keeps the bucket's wire size unchanged.
pub proof fn lemma_insert_slots_size(slots: Seq<(Seq<u8>, Seq<u8>)>, key: Seq<u8>, val: Seq<u8>)
    ensures
        slots_size(spec_insert_slots(slots, key, val)) == slots_size(slots),
    decreases slots.len(),
{
    let rlen: int = 16 + key.len() as int + val.len() as int;
    let out = spec_insert_slots(slots, key, val);
    if slots.len() == 0 {
    } else if slot_usable(slots[0], rlen as int) {
        if rlen == slot_size(slots[0]) {
            lemma_slots_size_append(seq![(key, val)], slots.skip(1));
            lemma_slots_single((key, val));
        } else {
            let tail = (
                Seq::<u8>::empty(),
                slots[0].1.subrange(rlen as int, slots[0].1.len() as int),
            );
            lemma_slots_size_append(seq![(key, val), tail], slots.skip(1));
            lemma_slots_pair((key, val), tail);
        }
        assert(slots =~= seq![slots[0]] + slots.skip(1));
        lemma_slots_size_append(seq![slots[0]], slots.skip(1));
    } else {
        lemma_insert_slots_size(slots.skip(1), key, val);
        lemma_slots_size_append(seq![slots[0]], spec_insert_slots(slots.skip(1), key, val));
        assert(slots =~= seq![slots[0]] + slots.skip(1));
        lemma_slots_size_append(seq![slots[0]], slots.skip(1));
    }
}

/// Removing a record keeps the bucket's wire size unchanged.
pub proof fn lemma_remove_slots_size(slots: Seq<(Seq<u8>, Seq<u8>)>, key: Seq<u8>)
    ensures
        slots_size(spec_remove_slots(slots, key)) == slots_size(slots),
    decreases slots.len(),
{
    if slots.len() == 0 {
    } else if slots[0].0 == key {
        if slots.len() >= 2 && slots[1].0.len() == 0 {
            let merged = (
                Seq::<u8>::empty(),
                slots[0].0 + slots[0].1 + u64_le_bytes(0) + u64_le_bytes(slots[1].1.len() as u64)
                    + slots[1].1,
            );
            lemma_slots_size_append(seq![merged], slots.skip(2));
            lemma_slots_single(merged);
            assert(slots =~= seq![slots[0], slots[1]] + slots.skip(2));
            lemma_slots_size_append(seq![slots[0], slots[1]], slots.skip(2));
            lemma_slots_pair(slots[0], slots[1]);
        } else {
            let freed = (Seq::<u8>::empty(), slots[0].0 + slots[0].1);
            lemma_slots_size_append(seq![freed], slots.skip(1));
            lemma_slots_single(freed);
            assert(slots =~= seq![slots[0]] + slots.skip(1));
            lemma_slots_size_append(seq![slots[0]], slots.skip(1));
        }
    } else {
        lemma_remove_slots_size(slots.skip(1), key);
        lemma_slots_size_append(seq![slots[0]], spec_remove_slots(slots.skip(1), key));
        assert(slots =~= seq![slots[0]] + slots.skip(1));
        lemma_slots_size_append(seq![slots[0]], slots.skip(1));
    }
}

/// The views of a vector of records.
pub open spec fn blobs_view(s: Seq<Blob>) -> Seq<(Seq<u8>, Seq<u8>)> {
    Seq::new(s.len() as nat, |i: int| (s[i].key(), s[i].val()))
}

/// Parses a bucket's bytes into its records; `None` when the framing
/// runs past the end.
fn parse_bucket(b: &Vec<u8>) -> (r: Option<Vec<Blob>>)
    ensures
        r is Some <==> wf_bucket(b@),
        r is Some ==> blobs_view(r->Some_0@) == bucket_slots_of(b@),
        r is Some ==> forall|i: int|
            0 <= i < r->Some_0@.len() ==> (#[trigger] r->Some_0@[i]).wf(),
{
    let mut acc: Vec<Blob> = Vec::new();
    let mut pos: usize = 0;
    let len = b.len();
    while pos < len
        invariant
            len == b@.len(),
            pos <= len,
            forall|i: int| 0 <= i < acc@.len() ==> (#[trigger] acc@[i]).wf(),
            parse_from(b@, 0) == match parse_from(b@, pos as int) {
                None => None::<Seq<(Seq<u8>, Seq<u8>)>>,
                Some(rest) => Some(blobs_view(acc@) + rest),
            },
        decreases len - pos,
    {
        let slot = match Blob::read(b, pos) {
            Ok(s) => s,
            Err(_) => {
                return None;
            },
        };
        let ghost s = (slot.key(), slot.val());
        let ghost rest0 = parse_from(b@, pos as int + slot_size(s));
        proof {
            assert(parse_from(b@, pos as int) == match rest0 {
                None => None::<Seq<(Seq<u8>, Seq<u8>)>>,
                Some(rest) => Some(seq![s] + rest),
            });
        }
        let next = pos + slot.len();
        acc.push(slot);
        proof {
            if rest0 is Some {
                assert(blobs_view(acc@) =~= blobs_view(acc@.drop_last()).push(s));
                assert(blobs_view(acc@.drop_last()).push(s) + rest0->Some_0 =~= blobs_view(
                    acc@.drop_last(),
                ) + (seq![s] + rest0->Some_0));
            }
        }
        pos = next;
    }
    proof {
        assert(parse_from(b@, pos as int) == Some(Seq::<(Seq<u8>, Seq<u8>)>::empty()));
        assert(blobs_view(acc@) + Seq::<(Seq<u8>, Seq<u8>)>::empty() =~= blobs_view(acc@));
    }
    Some(acc)
}

/// Serializes records back into a bucket's bytes.
fn serialize_bucket(slots: &Vec<Blob>) -> (r: Vec<u8>)
    requires
        forall|i: int| 0 <= i < slots@.len() ==> (#[trigger] slots@[i]).wf(),
        slots_size(blobs_view(slots@)) <= usize::MAX,
    ensures
        r@ == slots_bytes(blobs_view(slots@)),
{
    let mut r: Vec<u8> = Vec::new();
    let mut i: usize = 0;
    let n = slots.len();
    while i < n
        invariant
            n == slots@.len(),
            i <= n,
            forall|j: int| 0 <= j < slots@.len() ==> (#[trigger] slots@[j]).wf(),
            slots_size(blobs_view(slots@)) <= usize::MAX,
            r@ == slots_bytes(blobs_view(slots@).take(i as int)),
        decreases n - i,
    {
        proof {
            let v = blobs_view(slots@);
            assert(v.take(i as int + 1) =~= v.take(i as int) + seq![v[i as int]]);
            lemma_slots_bytes_append(v.take(i as int), seq![v[i as int]]);
            lemma_slots_single(v[i as int]);
            assert(v =~= v.take(i as int) + v.skip(i as int));
            lemma_slots_size_append(v.take(i as int), v.skip(i as int));
            assert(v.skip(i as int) =~= seq![v[i as int]] + v.skip(i as int + 1));
            lemma_slots_size_append(seq![v[i as int]], v.skip(i as int + 1));
            lemma_slots_bytes_len(v.take(i as int));
            lemma_slots_bytes_len(v.skip(i as int + 1));
        }
        slots[i].write(&mut r);
        i = i + 1;
    }
    proof {
        assert(blobs_view(slots@).take(n as int) =~= blobs_view(slots@));
    }
    r
}

/// When no earlier slot matches, lookup finds exactly slot `i`.
pub proof fn lemma_lookup_at(v: Seq<(Seq<u8>, Seq<u8>)>, i: int, key: Seq<u8>)
    requires
        0 <= i < v.len(),
        v[i].0 == key,
        forall|j: int| 0 <= j < i ==> (#[trigger] v[j]).0 != key,
    ensures
        slots_lookup(v, key) == Some(v[i].1),
    decreases i,
{
    if i == 0 {
    } else {
        lemma_lookup_at(v.skip(1), i - 1, key);
    }
}

/// When no slot matches, lookup finds nothing.
pub proof fn lemma_lookup_absent(v: Seq<(Seq<u8>, Seq<u8>)>, key: Seq<u8>)
    requires
        forall|j: int| 0 <= j < v.len() ==> (#[trigger] v[j]).0 != key,
    ensures
        slots_lookup(v, key) is None,
    decreases v.len(),
{
    if v.len() > 0 {
        lemma_lookup_absent(v.skip(1), key);
    }
}

/// When no slot matches, removal changes nothing.
pub proof fn lemma_spec_remove_absent(v: Seq<(Seq<u8>, Seq<u8>)>, key: Seq<u8>)
    requires
        forall|j: int| 0 <= j < v.len() ==> (#[trigger] v[j]).0 != key,
    ensures
        spec_remove_slots(v, key) == v,
    decreases v.len(),
{
    if v.len() > 0 {
        lemma_spec_remove_absent(v.skip(1), key);
        assert(seq![v[0]] + v.skip(1) =~= v);
    }
}

/// The shape of a removal whose first match is slot `i`.
pub proof fn lemma_spec_remove_at(v: Seq<(Seq<u8>, Seq<u8>)>, i: int, key: Seq<u8>)
    requires
        0 <= i < v.len(),
        v[i].0 == key,
        forall|j: int| 0 <= j < i ==> (#[trigger] v[j]).0 != key,
    ensures
        spec_remove_slots(v, key) == if i + 1 < v.len() && v[i + 1].0.len() == 0 {
            v.take(i) + seq![
                (
                    Seq::<u8>::empty(),
                    v[i].0 + v[i].1 + u64_le_bytes(0) + u64_le_bytes(v[i + 1].1.len() as u64)
                        + v[i + 1].1,
                ),
            ] + v.skip(i + 2)
        } else {
            v.take(i) + seq![(Seq::<u8>::empty(), v[i].0 + v[i].1)] + v.skip(i + 1)
        },
    decreases i,
{
    if i == 0 {
        if i + 1 < v.len() && v[i + 1].0.len() == 0 {
            assert(v.take(0) + seq![
                (
                    Seq::<u8>::empty(),
                    v[0].0 + v[0].1 + u64_le_bytes(0) + u64_le_bytes(v[1].1.len() as u64) + v[1].1,
                ),
            ] + v.skip(2) =~= seq![
                (
                    Seq::<u8>::empty(),
                    v[0].0 + v[0].1 + u64_le_bytes(0) + u64_le_bytes(v[1].1.len() as u64) + v[1].1,
                ),
            ] + v.skip(2));
        } else {
            assert(v.take(0) + seq![(Seq::<u8>::empty(), v[0].0 + v[0].1)] + v.skip(1) =~= seq![
                (Seq::<u8>::empty(), v[0].0 + v[0].1),
            ] + v.skip(1));
        }
    } else {
        let w = v.skip(1);
        lemma_spec_remove_at(w, i - 1, key);
        assert(w[i - 1] == v[i]);
        if i + 1 < v.len() && v[i + 1].0.len() == 0 {
            assert(w[i] == v[i + 1]);
            let m = (
                Seq::<u8>::empty(),
                v[i].0 + v[i].1 + u64_le_bytes(0) + u64_le_bytes(v[i + 1].1.len() as u64) + v[i
                    + 1].1,
            );
            assert(seq![v[0]] + (w.take(i - 1) + seq![m] + w.skip(i + 1)) =~= v.take(i) + seq![m]
                + v.skip(i + 2));
        } else {
            let m = (Seq::<u8>::empty(), v[i].0 + v[i].1);
            assert(seq![v[0]] + (w.take(i - 1) + seq![m] + w.skip(i)) =~= v.take(i) + seq![m]
                + v.skip(i + 1));
        }
    }
}

/// The shape of a placement whose first usable free slot is slot `i`.
pub proof fn lemma_spec_insert_at(v: Seq<(Seq<u8>, Seq<u8>)>, i: int, key: Seq<u8>, val: Seq<u8>)
    requires
        0 <= i < v.len(),
        slot_usable(v[i], 16 + key.len() as int + val.len() as int),
        forall|j: int| 0 <= j < i ==> !slot_usable(#[trigger] v[j], 16 + key.len() as int + val.len() as int),
    ensures
        spec_insert_slots(v, key, val) == if 16 + key.len() as int + val.len() as int == slot_size(v[i]) {
            v.take(i) + seq![(key, val)] + v.skip(i + 1)
        } else {
            v.take(i) + seq![
                (key, val),
                (
                    Seq::<u8>::empty(),
                    v[i].1.subrange(16 + key.len() as int + val.len() as int, v[i].1.len() as int),
                ),
            ] + v.skip(i + 1)
        },
    decreases i,
{
    let rlen: int = 16 + key.len() as int + val.len() as int;
    if i == 0 {
        if rlen == slot_size(v[0]) {
            assert(v.take(0) + seq![(key, val)] + v.skip(1) =~= seq![(key, val)] + v.skip(1));
        } else {
            let tail = (Seq::<u8>::empty(), v[0].1.subrange(rlen, v[0].1.len() as int));
            assert(v.take(0) + seq![(key, val), tail] + v.skip(1) =~= seq![(key, val), tail]
                + v.skip(1));
        }
    } else {
        let w = v.skip(1);
        lemma_spec_insert_at(w, i - 1, key, val);
        assert(w[i - 1] == v[i]);
        if rlen == slot_size(v[i]) {
            assert(seq![v[0]] + (w.take(i - 1) + seq![(key, val)] + w.skip(i)) =~= v.take(i)
                + seq![(key, val)] + v.skip(i + 1));
        } else {
            let tail = (Seq::<u8>::empty(), v[i].1.subrange(rlen, v[i].1.len() as int));
            assert(seq![v[0]] + (w.take(i - 1) + seq![(key, val), tail] + w.skip(i)) =~= v.take(i)
                + seq![(key, val), tail] + v.skip(i + 1));
        }
    }
}

/// When no slot is usable, placement changes nothing.
pub proof fn lemma_spec_insert_full(v: Seq<(Seq<u8>, Seq<u8>)>, key: Seq<u8>, val: Seq<u8>)
    requires
        forall|j: int| 0 <= j < v.len() ==> !slot_usable(
            #[trigger] v[j],
            16 + key.len() as int + val.len() as int,
        ),
    ensures
        spec_insert_slots(v, key, val) == v,
    decreases v.len(),
{
    if v.len() > 0 {
        lemma_spec_insert_full(v.skip(1), key, val);
        assert(seq![v[0]] + v.skip(1) =~= v);
    }
}

/// One slot's size is bounded by the whole sequence's size.
pub proof fn lemma_slot_size_bounds(v: Seq<(Seq<u8>, Seq<u8>)>, i: int)
    requires
        0 <= i < v.len(),
    ensures
        slot_size(v[i]) <= slots_size(v),
        i + 1 < v.len() ==> slot_size(v[i]) + slot_size(v[i + 1]) <= slots_size(v),
{
    assert(v =~= v.take(i) + v.skip(i));
    lemma_slots_size_append(v.take(i), v.skip(i));
    lemma_slots_bytes_len(v.take(i));
    let w = v.skip(i);
    assert(w =~= seq![v[i]] + w.skip(1));
    lemma_slots_size_append(seq![v[i]], w.skip(1));
    lemma_slots_single(v[i]);
    lemma_slots_bytes_len(w.skip(1));
    if i + 1 < v.len() {
        let u = w.skip(1);
        assert(u =~= seq![v[i + 1]] + u.skip(1));
        lemma_slots_size_append(seq![v[i + 1]], u.skip(1));
        lemma_slots_single(v[i + 1]);
        lemma_slots_bytes_len(u.skip(1));
    }
}

/// The slot sequence of a fresh bucket: one free run spanning the
/// whole block, its payload zeroed.
pub open spec fn fresh_slots(block_size: int) -> Seq<(Seq<u8>, Seq<u8>)> {
    seq![(Seq::<u8>::empty(), Seq::new((block_size - 16) as nat, |i: int| 0u8))]
}

/// Distributing a multiplication one step.
proof fn lemma_mul_succ(a: int, b: int)
    ensures
        (a + 1) * b == a * b + b,
{
    assert((a + 1) * b == a * b + b) by (nonlinear_arith);
}

/// Multiplication is monotone in its first argument.
proof fn lemma_mul_le(a1: int, a2: int, b: int)
    requires
        a1 <= a2,
        0 <= b,
    ensures
        a1 * b <= a2 * b,
{
    assert(a1 * b <= a2 * b) by (nonlinear_arith)
        requires
            a1 <= a2,
            0 <= b,
    ;
}

/// The seed of the first 8 header bytes.
pub open spec fn header_seed(bytes: Seq<u8>) -> u64 {
    le_bytes_to_u64(bytes.subrange(0, 8))
}

/// The block size field of a header image.
pub open spec fn header_bs(bytes: Seq<u8>) -> u64 {
    le_bytes_to_u64(bytes.subrange(8, 16))
}

/// The block count field of a header image.
pub open spec fn header_nb(bytes: Seq<u8>) -> u64 {
    le_bytes_to_u64(bytes.subrange(16, 24))
}

/// The element count field of a header image.
pub open spec fn header_elems(bytes: Seq<u8>) -> u64 {
    le_bytes_to_u64(bytes.subrange(24, 32))
}

/// Whether a byte image carries a usable store: a full header, sane
/// bucket geometry, and at least `block_size * block_count` bucket
/// bytes behind the header.
pub open spec fn image_ok(bytes: Seq<u8>) -> bool {
    &&& bytes.len() >= 32
    &&& 1 <= header_nb(bytes)
    &&& 16 <= header_bs(bytes)
    &&& 32 + header_bs(bytes) as int * header_nb(bytes) as int <= bytes.len()
}

/// The fixed-capacity key/value block store, held as the exact byte
/// image of its backing file: a 32-byte header and `nblocks` buckets
/// of `block_size` bytes each.
#[derive(Debug)]
pub struct Store {
    hseed: u64,
    block_size: u64,
    nblocks: u64,
    elems: u64,
    buckets: Vec<Vec<u8>>,
}

impl Store {
    /// The hash seed, chosen at creation and fixed for the store's life.
    pub closed spec fn seed(&self) -> u64 {
        self.hseed
    }

    /// Bytes per bucket.
    pub closed spec fn bs(&self) -> int {
        self.block_size as int
    }

    /// Number of buckets.
    pub closed spec fn nb(&self) -> int {
        self.nblocks as int
    }

    /// The live record counter as persisted in the header.
    pub closed spec fn elem_count(&self) -> int {
        self.elems as int
    }

    /// How many buckets are actually held.
    pub closed spec fn num_buckets(&self) -> int {
        self.buckets@.len() as int
    }

    /// The bytes of bucket `i`.
    pub closed spec fn bucket_bytes(&self, i: int) -> Seq<u8> {
        self.buckets@[i]@
    }

    /// Structural well-formedness: sane geometry, one byte vector of
    /// exactly `block_size` bytes per bucket, and a total image that
    /// fits the machine word.
    pub open spec fn wf(&self) -> bool {
        &&& 1 <= self.nb()
        &&& 16 <= self.bs()
        &&& 32 + self.bs() * self.nb() <= usize::MAX
        &&& self.num_buckets() == self.nb()
        &&& forall|i: int| 0 <= i < self.nb() ==> (#[trigger] self.bucket_bytes(i)).len() == self.bs()
    }

    /// Every bucket parses as a gap-free slot sequence.
    pub open spec fn buckets_wf(&self) -> bool {
        forall|i: int| 0 <= i < self.nb() ==> wf_bucket(#[trigger] self.bucket_bytes(i))
    }

    /// The bucket a key routes to.
    pub open spec fn bucket_of(&self, key: Seq<u8>) -> int {
        hash_spec(self.seed(), key) as int % self.nb()
    }

    /// The slots of bucket `i`.
    pub open spec fn bucket_slots(&self, i: int) -> Seq<(Seq<u8>, Seq<u8>)> {
        bucket_slots_of(self.bucket_bytes(i))
    }

    /// The value of the key's live record, if any.
    pub open spec fn lookup(&self, key: Seq<u8>) -> Option<Seq<u8>> {
        slots_lookup(self.bucket_slots(self.bucket_of(key)), key)
    }

    /// The two stores share seed and geometry.
    pub open spec fn same_config(&self, other: &Store) -> bool {
        self.seed() == other.seed() && self.bs() == other.bs() && self.nb() == other.nb()
    }

    /// The buckets before `i`, concatenated.
    pub open spec fn cat_upto(&self, i: int) -> Seq<u8>
        decreases i,
    {
        if i <= 0 {
            Seq::empty()
        } else {
            self.cat_upto(i - 1) + self.bucket_bytes(i - 1)
        }
    }

    /// The exact byte image of the store: the header followed by every
    /// bucket in order.
    pub open spec fn image(&self) -> Seq<u8> {
        u64_le_bytes(self.seed()) + u64_le_bytes(self.bs() as u64) + u64_le_bytes(
            self.nb() as u64,
        ) + u64_le_bytes(self.elem_count() as u64) + self.cat_upto(self.nb())
    }

    /// The bucket index a key routes to, as the scan computes it.
    fn route(&self, probe: &Blob) -> (r: usize)
        requires
            self.wf(),
        ensures
            r as int == self.bucket_of(probe.key()),
            r < self.num_buckets(),
    {
        proof {
            lemma_mul_le(1, self.bs(), self.nb());
            assert(self.bs() * self.nb() == self.nb() * self.bs()) by (nonlinear_arith);
        }
        let h = probe.k_hash(self.hseed);
        (h % self.nblocks) as usize
    }


    /// Bytes per bucket, as created.
    pub fn block_size(&self) -> (r: u64)
        ensures
            r == self.bs(),
    {
        self.block_size
    }

    /// The number of buckets, as created.
    pub fn block_count(&self) -> (r: u64)
        ensures
            r == self.nb(),
    {
        self.nblocks
    }

    /// The live record counter.
    pub fn element_count(&self) -> (r: u64)
        ensures
            r == self.elem_count(),
    {
        self.elems
    }

    /// The hash seed.
    pub fn hash_seed(&self) -> (r: u64)
        ensures
            r == self.seed(),
    {
        self.hseed
    }

    /// A fresh bucket: one free slot spanning the whole block, its
    /// spare capacity `block_size - 16`, its payload zeroed.
    fn fresh_bucket(block_size: u64) -> (r: Vec<u8>)
        requires
            16 <= block_size,
            block_size as int <= usize::MAX,
        ensures
            r@.len() == block_size,
            wf_bucket(r@),
            bucket_slots_of(r@) == fresh_slots(block_size as int),
    {
        let ghost zeros = Seq::new((block_size - 16) as nat, |i: int| 0u8);
        let mut w: Vec<u8> = Vec::new();
        Blob::write_u64(&mut w, 0);
        Blob::write_u64(&mut w, block_size - 16);
        proof {
            assert(w@ =~= u64_le_bytes(0) + u64_le_bytes((block_size - 16) as u64));
        }
        let n = (block_size - 16) as usize;
        let mut j: usize = 0;
        while j < n
            invariant
                j <= n,
                n == block_size - 16,
                zeros == Seq::new((block_size - 16) as nat, |i: int| 0u8),
                w@ == u64_le_bytes(0) + u64_le_bytes((block_size - 16) as u64) + zeros.take(
                    j as int,
                ),
            decreases n - j,
        {
            w.push(0);
            proof {
                assert(zeros.take(j as int + 1) =~= zeros.take(j as int).push(0u8));
                assert(w@ =~= u64_le_bytes(0) + u64_le_bytes((block_size - 16) as u64)
                    + zeros.take(j as int + 1));
            }
            j = j + 1;
        }
        proof {
            let s = (Seq::<u8>::empty(), zeros);
            assert(zeros.take(n as int) =~= zeros);
            assert(w@ =~= slot_bytes(s));
            lemma_slots_single(s);
            lemma_parse_serialize(seq![s]);
            assert(slots_bytes(seq![s]) =~= w@);
            assert(fresh_slots(block_size as int) =~~= seq![s]);
        }
        w
    }

    /// Creates a store with the given geometry: a randomly chosen hash
    /// seed, no live records, and every bucket one free slot.
    pub fn new(block_size: u64, nblocks: u64) -> (r: Store)
        requires
            1 <= nblocks,
            16 <= block_size,
            32 + block_size as int * nblocks as int <= usize::MAX,
        ensures
            r.wf(),
            r.buckets_wf(),
            r.bs() == block_size,
            r.nb() == nblocks,
            r.elem_count() == 0,
            forall|i: int| 0 <= i < nblocks ==> #[trigger] r.bucket_slots(i) == fresh_slots(
                block_size as int,
            ),
    {
        let hseed = random_seed();
        Self::with_seed(block_size, nblocks, hseed)
    }

    /// Creates a store with the given geometry and hash seed.
    pub fn with_seed(block_size: u64, nblocks: u64, hseed: u64) -> (r: Store)
        requires
            1 <= nblocks,
            16 <= block_size,
            32 + block_size as int * nblocks as int <= usize::MAX,
        ensures
            r.wf(),
            r.buckets_wf(),
            r.seed() == hseed,
            r.bs() == block_size,
            r.nb() == nblocks,
            r.elem_count() == 0,
            forall|i: int| 0 <= i < nblocks ==> #[trigger] r.bucket_slots(i) == fresh_slots(
                block_size as int,
            ),
    {
        let buckets = Self::make_buckets(block_size, nblocks);
        Store { hseed, block_size, nblocks, elems: 0, buckets }
    }

    /// One fresh bucket per block.
    fn make_buckets(block_size: u64, nblocks: u64) -> (buckets: Vec<Vec<u8>>)
        requires
            1 <= nblocks,
            16 <= block_size,
            32 + block_size as int * nblocks as int <= usize::MAX,
        ensures
            buckets@.len() == nblocks,
            forall|j: int| 0 <= j < nblocks ==> (#[trigger] buckets@[j])@.len() == block_size,
            forall|j: int| 0 <= j < nblocks ==> wf_bucket((#[trigger] buckets@[j])@),
            forall|j: int| 0 <= j < nblocks ==> bucket_slots_of((#[trigger] buckets@[j])@)
                == fresh_slots(block_size as int),
    {
        proof {
            lemma_mul_le(1, nblocks as int, block_size as int);
            assert(nblocks as int * block_size as int == block_size as int * nblocks as int)
                by (nonlinear_arith);
            lemma_mul_le(1, block_size as int, nblocks as int);
        }
        let mut buckets: Vec<Vec<u8>> = Vec::new();
        let mut i: usize = 0;
        let n = nblocks as usize;
        while i < n
            invariant
                i <= n,
                n == nblocks,
                16 <= block_size,
                block_size as int <= usize::MAX,
                buckets@.len() == i,
                forall|j: int| 0 <= j < i ==> (#[trigger] buckets@[j])@.len() == block_size,
                forall|j: int| 0 <= j < i ==> wf_bucket((#[trigger] buckets@[j])@),
                forall|j: int| 0 <= j < i ==> bucket_slots_of((#[trigger] buckets@[j])@)
                    == fresh_slots(block_size as int),
            decreases n - i,
        {
            buckets.push(Self::fresh_bucket(block_size));
            i = i + 1;
        }
        buckets
    }

    /// A store whose buckets are all fresh holds no record: every
    /// lookup misses.
    pub proof fn lemma_fresh_lookup_none(&self, key: Seq<u8>)
        requires
            self.wf(),
            key.len() >= 1,
            forall|i: int| 0 <= i < self.nb() ==> #[trigger] self.bucket_slots(i) == fresh_slots(
                self.bs(),
            ),
        ensures
            self.lookup(key) is None,
    {
        let bi = self.bucket_of(key);
        let single = fresh_slots(self.bs());
        assert(0 <= bi < self.nb());
        assert(self.bucket_slots(bi) == single);
        assert(single[0].0.len() == 0);
        assert(single[0].0 != key);
        assert(single.skip(1) =~= Seq::<(Seq<u8>, Seq<u8>)>::empty());
        assert(slots_lookup(single, key) == slots_lookup(single.skip(1), key));
        assert(slots_lookup(Seq::<(Seq<u8>, Seq<u8>)>::empty(), key) is None);
    }

    /// Reads a store back from a byte image: the header verbatim, then
    /// one byte vector per bucket. Bucket contents are not validated;
    /// broken framing surfaces later, from the operation that walks the
    /// broken bucket. Fails with `Io` on a truncated image or a header
    /// whose geometry no store can have.
    pub fn open(bytes: &Vec<u8>) -> (r: Result<Store, Error>)
        ensures
            r is Ok <==> image_ok(bytes@),
            r is Err ==> r->Err_0 == Error::Io,
            r is Ok ==> {
                let s = r->Ok_0;
                &&& s.wf()
                &&& s.seed() == header_seed(bytes@)
                &&& s.bs() == header_bs(bytes@)
                &&& s.nb() == header_nb(bytes@)
                &&& s.elem_count() == header_elems(bytes@)
                &&& forall|i: int| 0 <= i < s.nb() ==> #[trigger] s.bucket_bytes(i) == bytes@
                    .subrange(32 + i * s.bs(), 32 + (i + 1) * s.bs())
            },
    {
        if bytes.len() < 32 {
            return Err(Error::Io);
        }
        let hseed = Blob::read_u64(bytes, 0);
        let block_size = Blob::read_u64(bytes, 8);
        let nblocks = Blob::read_u64(bytes, 16);
        let elems = Blob::read_u64(bytes, 24);
        if nblocks < 1 || block_size < 16 {
            return Err(Error::Io);
        }
        let total = match block_size.checked_mul(nblocks) {
            Some(t) => t,
            None => {
                return Err(Error::Io);
            },
        };
        let body = match total.checked_add(32) {
            Some(t) => t,
            None => {
                return Err(Error::Io);
            },
        };
        if body > bytes.len() as u64 {
            return Err(Error::Io);
        }
        proof {
            lemma_mul_le(1, nblocks as int, block_size as int);
            assert(nblocks as int * block_size as int == block_size as int * nblocks as int)
                by (nonlinear_arith);
            lemma_mul_le(1, block_size as int, nblocks as int);
        }
        let bs = block_size as usize;
        let n = nblocks as usize;
        let mut buckets: Vec<Vec<u8>> = Vec::new();
        let mut off: usize = 32;
        let mut i: usize = 0;
        while i < n
            invariant
                i <= n,
                n == nblocks,
                bs == block_size,
                16 <= block_size,
                off == 32 + i as int * bs as int,
                32 + block_size as int * nblocks as int <= bytes@.len(),
                bytes@.len() <= usize::MAX,
                buckets@.len() == i,
                forall|j: int| 0 <= j < i ==> (#[trigger] buckets@[j])@ == bytes@.subrange(
                    32 + j * bs as int,
                    32 + (j + 1) * bs as int,
                ),
            decreases n - i,
        {
            proof {
                lemma_mul_succ(i as int, bs as int);
                lemma_mul_le(i as int + 1, n as int, bs as int);
                assert(nblocks as int * block_size as int == block_size as int * nblocks as int)
                    by (nonlinear_arith);
            }
            let b = crate::codec::copy_range(bytes, off, bs);
            buckets.push(b);
            off = off + bs;
            i = i + 1;
        }
        let s = Store { hseed, block_size, nblocks, elems, buckets };
        proof {
            assert forall|i: int| 0 <= i < s.nb() implies (#[trigger] s.bucket_bytes(i)).len()
                == s.bs() by {
                lemma_mul_succ(i, bs as int);
                lemma_mul_le(i + 1, nblocks as int, bs as int);
                assert(nblocks as int * bs as int == bs as int * nblocks as int)
                    by (nonlinear_arith);
                assert(0 <= i * bs as int) by (nonlinear_arith)
                    requires
                        0 <= i,
                        0 <= bs,
                ;
            }
            assert(bytes@.subrange(0, 8) =~= bytes@.subrange(0 as int, 0 as int + 8));
            assert(bytes@.subrange(8, 16) =~= bytes@.subrange(8 as int, 8 as int + 8));
            assert(bytes@.subrange(16, 24) =~= bytes@.subrange(16 as int, 16 as int + 8));
            assert(bytes@.subrange(24, 32) =~= bytes@.subrange(24 as int, 24 as int + 8));
        }
        Ok(s)
    }

    /// Serializes the store into the exact byte image of its file.
    pub fn to_bytes(&self) -> (r: Vec<u8>)
        requires
            self.wf(),
        ensures
            r@ == self.image(),
            r@.len() == 32 + self.bs() * self.nb(),
    {
        let mut w: Vec<u8> = Vec::new();
        Blob::write_u64(&mut w, self.hseed);
        Blob::write_u64(&mut w, self.block_size);
        Blob::write_u64(&mut w, self.nblocks);
        Blob::write_u64(&mut w, self.elems);
        proof {
            assert(w@ =~= u64_le_bytes(self.hseed) + u64_le_bytes(self.block_size) + u64_le_bytes(
                self.nblocks,
            ) + u64_le_bytes(self.elems) + self.cat_upto(0));
        }
        let ghost header = u64_le_bytes(self.hseed) + u64_le_bytes(self.block_size) + u64_le_bytes(
            self.nblocks,
        ) + u64_le_bytes(self.elems);
        let n = self.buckets.len();
        let mut i: usize = 0;
        while i < n
            invariant
                self.wf(),
                i <= n,
                n == self.num_buckets(),
                header == u64_le_bytes(self.seed()) + u64_le_bytes(self.bs() as u64)
                    + u64_le_bytes(self.nb() as u64) + u64_le_bytes(self.elem_count() as u64),
                w@ == header + self.cat_upto(i as int),
                w@.len() == 32 + i as int * self.bs(),
            decreases n - i,
        {
            w.extend_from_slice(self.buckets[i].as_slice());
            proof {
                assert(w@ =~= header + (self.cat_upto(i as int) + self.bucket_bytes(i as int)));
                lemma_mul_succ(i as int, self.bs());
            }
            i = i + 1;
        }
        proof {
            assert(self.bs() * self.nb() == self.nb() * self.bs()) by (nonlinear_arith);
            assert(w@ =~= self.image());
        }
        w
    }

    /// Adjusts the live record counter: adds `n` when it is positive,
    /// otherwise subtracts, stopping at zero.
    pub fn inc_elems(&mut self, n: i32)
        requires
            old(self).wf(),
            n > 0 ==> old(self).elem_count() + n <= u64::MAX,
            n > i32::MIN,
        ensures
            final(self).wf(),
            final(self).same_config(&*old(self)),
            final(self).num_buckets() == old(self).num_buckets(),
            forall|i: int| 0 <= i < final(self).nb() ==> #[trigger] final(self).bucket_bytes(i)
                == old(self).bucket_bytes(i),
            final(self).elem_count() == if n >= 0 {
                old(self).elem_count() + n
            } else if old(self).elem_count() >= -n {
                old(self).elem_count() + n
            } else {
                old(self).elem_count()
            },
    {
        if n > 0 {
            self.elems = self.elems + (n as u64);
        } else {
            let n2 = (-n) as u64;
            if self.elems >= n2 {
                self.elems = self.elems - n2;
            }
        }
        proof {
            assert forall|i: int| 0 <= i < self.nb() implies #[trigger] self.bucket_bytes(i)
                == old(self).bucket_bytes(i) by {
                assert(self.buckets == old(self).buckets);
            }
        }
    }
}

/// Finds the first record whose key bytes equal the probe's.
fn find_match(slots: &Vec<Blob>, probe: &Blob) -> (r: Option<usize>)
    ensures
        r is Some ==> {
            let i = r->Some_0 as int;
            &&& 0 <= i < slots@.len()
            &&& blobs_view(slots@)[i].0 == probe.key()
            &&& forall|j: int| 0 <= j < i ==> (#[trigger] blobs_view(slots@)[j]).0 != probe.key()
            &&& slots_lookup(blobs_view(slots@), probe.key()) == Some(blobs_view(slots@)[i].1)
        },
        r is None ==> slots_lookup(blobs_view(slots@), probe.key()) is None,
        r is None ==> forall|j: int|
            0 <= j < slots@.len() ==> (#[trigger] blobs_view(slots@)[j]).0 != probe.key(),
{
    let ghost view = blobs_view(slots@);
    let n = slots.len();
    let mut i: usize = 0;
    while i < n
        invariant
            view == blobs_view(slots@),
            n == slots@.len(),
            i <= n,
            forall|j: int| 0 <= j < i ==> (#[trigger] view[j]).0 != probe.key(),
        decreases n - i,
    {
        if slots[i].key_match(probe) {
            proof {
                lemma_lookup_at(view, i as int, probe.key());
            }
            return Some(i);
        }
        i = i + 1;
    }
    proof {
        lemma_lookup_absent(view, probe.key());
    }
    None
}

/// Finds the first free slot that can take a record of framed size
/// `rlen` without breaking the bucket's gap-free framing.
fn find_free(slots: &Vec<Blob>, rlen: usize) -> (r: Option<usize>)
    requires
        forall|j: int| 0 <= j < slots@.len() ==> (#[trigger] slots@[j]).wf(),
        rlen + 16 <= usize::MAX,
    ensures
        r is Some ==> {
            let i = r->Some_0 as int;
            &&& 0 <= i < slots@.len()
            &&& slot_usable(blobs_view(slots@)[i], rlen as int)
            &&& forall|j: int|
                0 <= j < i ==> !slot_usable(#[trigger] blobs_view(slots@)[j], rlen as int)
        },
        r is None ==> !has_room(blobs_view(slots@), rlen as int),
{
    let ghost view = blobs_view(slots@);
    let n = slots.len();
    let mut i: usize = 0;
    while i < n
        invariant
            view == blobs_view(slots@),
            n == slots@.len(),
            i <= n,
            rlen + 16 <= usize::MAX,
            forall|j: int| 0 <= j < slots@.len() ==> (#[trigger] slots@[j]).wf(),
            forall|j: int| 0 <= j < i ==> !slot_usable(#[trigger] view[j], rlen as int),
        decreases n - i,
    {
        let free = slots[i].key_bytes().len() == 0;
        let ssize = slots[i].len();
        if free && (rlen == ssize || rlen + 16 <= ssize) {
            return Some(i);
        }
        proof {
            assert(!slot_usable(view[i as int], rlen as int));
        }
        i = i + 1;
    }
    None
}

impl Store {
    /// Looks a key up: routes to its bucket, scans the slots in order,
    /// and returns the first record whose key bytes match. Fails with
    /// `NotFound` when the scan exhausts the bucket or runs into broken
    /// framing.
    pub fn get(&self, k: &Vec<u8>) -> (r: Result<Blob, Error>)
        requires
            self.wf(),
            1 <= k@.len(),
            k@.len() + 16 <= usize::MAX,
        ensures
            r is Ok ==> {
                &&& wf_bucket(self.bucket_bytes(self.bucket_of(k@)))
                &&& self.lookup(k@) == Some(r->Ok_0.val())
                &&& r->Ok_0.key() == k@
                &&& r->Ok_0.wf()
            },
            wf_bucket(self.bucket_bytes(self.bucket_of(k@))) && self.lookup(k@) is Some
                ==> r is Ok,
            r is Err ==> r->Err_0 == Error::NotFound,
    {
        let kc = crate::codec::copy_range(k, 0, k.len());
        proof {
            assert(kc@ =~= k@);
        }
        let probe = Blob::from(kc, Vec::new());
        let bi = self.route(&probe);
        let slots = match parse_bucket(&self.buckets[bi]) {
            Some(s) => s,
            None => {
                return Err(Error::NotFound);
            },
        };
        match find_match(&slots, &probe) {
            Some(i) => {
                let kb = crate::codec::copy_range(
                    slots[i].key_bytes(),
                    0,
                    slots[i].key_bytes().len(),
                );
                let vb = crate::codec::copy_range(
                    slots[i].val_bytes(),
                    0,
                    slots[i].val_bytes().len(),
                );
                proof {
                    assert(kb@ =~= slots@[i as int].key());
                    assert(vb@ =~= slots@[i as int].val());
                }
                Ok(Blob::from(kb, vb))
            },
            None => Err(Error::NotFound),
        }
    }

    /// Places a record in its bucket without first removing older
    /// records for the same key: the linear scan takes the first free
    /// run that can hold the record (leaving any leftover bytes as a
    /// trailing free run) and bumps the element counter. Fails with
    /// `TooBig` when no bucket could ever hold the record, `NoRoom`
    /// when this one cannot now, and `Io` on broken framing.
    pub fn insert_only(&mut self, blob: Blob) -> (r: Result<(), Error>)
        requires
            old(self).wf(),
            blob.wf(),
            1 <= blob.key().len(),
            old(self).elem_count() < u64::MAX,
        ensures
            final(self).wf(),
            final(self).same_config(&*old(self)),
            forall|j: int|
                0 <= j < final(self).nb() && j != old(self).bucket_of(blob.key())
                    ==> #[trigger] final(self).bucket_bytes(j) == old(self).bucket_bytes(j),
            ({
                let bi = old(self).bucket_of(blob.key());
                let slots0 = old(self).bucket_slots(bi);
                let rlen = blob.spec_len();
                &&& (r is Ok <==> rlen <= old(self).bs() && wf_bucket(
                    old(self).bucket_bytes(bi),
                ) && has_room(slots0, rlen))
                &&& (r is Ok ==> {
                    &&& final(self).bucket_slots(bi) == spec_insert_slots(
                        slots0,
                        blob.key(),
                        blob.val(),
                    )
                    &&& wf_bucket(final(self).bucket_bytes(bi))
                    &&& final(self).elem_count() == old(self).elem_count() + 1
                })
                &&& (r is Err ==> *final(self) == *old(self))
                &&& (r is Err ==> r->Err_0 == if rlen > old(self).bs() {
                    Error::TooBig(rlen as u64)
                } else if !wf_bucket(old(self).bucket_bytes(bi)) {
                    Error::Io
                } else {
                    Error::NoRoom
                })
            }),
    {
        let rlen = blob.len();
        let bi = self.route(&blob);
        if rlen as u64 > self.block_size {
            return Err(Error::TooBig(rlen as u64));
        }
        proof {
            lemma_mul_le(1, self.nb(), self.bs());
            assert(self.nb() * self.bs() == self.bs() * self.nb()) by (nonlinear_arith);
        }
        let ghost slots0 = old(self).bucket_slots(bi as int);
        let mut slots = match parse_bucket(&self.buckets[bi]) {
            Some(s) => s,
            None => {
                return Err(Error::Io);
            },
        };
        proof {
            assert(self.bucket_bytes(bi as int) == self.buckets@[bi as int]@);
            lemma_mul_le(1, self.nb(), self.bs());
            assert(self.nb() * self.bs() == self.bs() * self.nb()) by (nonlinear_arith);
            lemma_parse_size(self.bucket_bytes(bi as int), 0);
        }
        let ghost view = blobs_view(slots@);
        let nslots = slots.len();
        let i = match find_free(&slots, rlen) {
            Some(i) => i,
            None => {
                return Err(Error::NoRoom);
            },
        };
        // `slots[i]` is the allocation point.
        let ghost orig = view[i as int];
        let exact = rlen == slots[i].len();
        if exact {
            slots[i] = blob;
            proof {
                assert(blobs_view(slots@) =~= view.update(i as int, (blob.key(), blob.val())));
                assert(view.update(i as int, (blob.key(), blob.val())) =~= view.take(i as int)
                    + seq![(blob.key(), blob.val())] + view.skip(i as int + 1));
            }
        } else {
            proof {
                assert(slot_usable(view[i as int], rlen as int));
                assert(view[i as int].1 == slots@[i as int].val());
            }
            let pv = slots[i].val_bytes();
            proof {
                assert(rlen != slot_size(view[i as int]));
                assert(rlen + 16 <= slot_size(view[i as int]));
                assert(view[i as int].0.len() == 0);
                assert(pv@.len() == view[i as int].1.len());
                assert(rlen <= pv@.len());
            }
            let tail = crate::codec::copy_range(pv, rlen, pv.len() - rlen);
            let tail_blob = Blob::from(Vec::new(), tail);
            slots[i] = blob;
            slots.insert(i + 1, tail_blob);
            proof {
                let mid = seq![
                    (blob.key(), blob.val()),
                    (Seq::<u8>::empty(), orig.1.subrange(blob.spec_len(), orig.1.len() as int)),
                ];
                assert(blobs_view(slots@) =~= view.take(i as int) + mid + view.skip(i as int + 1));
            }
        }
        proof {
            lemma_spec_insert_at(view, i as int, blob.key(), blob.val());
            lemma_insert_slots_size(view, blob.key(), blob.val());
            let nv = blobs_view(slots@);
            assert(nv == spec_insert_slots(view, blob.key(), blob.val()));
            assert(slots_size(nv) == self.bs());
            assert forall|j: int| 0 <= j < nv.len() implies slot_size(#[trigger] nv[j])
                <= usize::MAX by {
                lemma_slot_size_bounds(nv, j);
                lemma_slots_bytes_len(nv);
            }
        }
        let newb = serialize_bucket(&slots);
        proof {
            lemma_parse_serialize(blobs_view(slots@));
            lemma_slots_bytes_len(blobs_view(slots@));
        }
        self.buckets[bi] = newb;
        proof {
            assert forall|j: int| 0 <= j < self.nb() implies (#[trigger] self.bucket_bytes(
                j,
            )).len() == self.bs() by {
                if j != bi as int {
                    assert(self.bucket_bytes(j) == old(self).bucket_bytes(j));
                }
            }
        }
        self.inc_elems(1);
        proof {
            assert forall|j: int|
                0 <= j < self.nb() && j != old(self).bucket_of(blob.key())
                    implies #[trigger] self.bucket_bytes(j) == old(self).bucket_bytes(j) by {
            }
        }
        Ok(())
    }

    /// Removes the key's record, if it has one: the slot becomes a
    /// free run, merged with the following slot when that one is also
    /// free (coalescing forward only), and the element counter drops.
    /// Removing an absent key succeeds as a no-op. Fails with `Io`
    /// only on broken framing.
    pub fn remove(&mut self, k: &Vec<u8>) -> (r: Result<(), Error>)
        requires
            old(self).wf(),
            1 <= k@.len(),
            k@.len() + 16 <= usize::MAX,
        ensures
            final(self).wf(),
            final(self).same_config(&*old(self)),
            forall|j: int|
                0 <= j < final(self).nb() && j != old(self).bucket_of(k@)
                    ==> #[trigger] final(self).bucket_bytes(j) == old(self).bucket_bytes(j),
            final(self).elem_count() <= old(self).elem_count(),
            r is Ok <==> wf_bucket(old(self).bucket_bytes(old(self).bucket_of(k@))),
            r is Err ==> *final(self) == *old(self) && r->Err_0 == Error::Io,
            r is Ok ==> {
                let bi = old(self).bucket_of(k@);
                let slots0 = old(self).bucket_slots(bi);
                &&& final(self).bucket_slots(bi) == spec_remove_slots(slots0, k@)
                &&& wf_bucket(final(self).bucket_bytes(bi))
                &&& final(self).elem_count() == if slots_lookup(slots0, k@) is Some && old(
                    self,
                ).elem_count() >= 1 {
                    old(self).elem_count() - 1
                } else {
                    old(self).elem_count()
                }
            },
    {
        let kc = crate::codec::copy_range(k, 0, k.len());
        proof {
            assert(kc@ =~= k@);
        }
        let probe = Blob::from(kc, Vec::new());
        let bi = self.route(&probe);
        let ghost slots0 = old(self).bucket_slots(bi as int);
        let mut slots = match parse_bucket(&self.buckets[bi]) {
            Some(s) => s,
            None => {
                return Err(Error::Io);
            },
        };
        proof {
            assert(self.bucket_bytes(bi as int) == self.buckets@[bi as int]@);
            lemma_mul_le(1, self.nb(), self.bs());
            assert(self.nb() * self.bs() == self.bs() * self.nb()) by (nonlinear_arith);
            lemma_parse_size(self.bucket_bytes(bi as int), 0);
        }
        let ghost view = blobs_view(slots@);
        let i = match find_match(&slots, &probe) {
            Some(i) => i,
            None => {
                proof {
                    lemma_spec_remove_absent(view, k@);
                }
                return Ok(());
            },
        };
        proof {
            lemma_spec_remove_at(view, i as int, k@);
            lemma_slot_size_bounds(view, i as int);
            lemma_slots_bytes_len(view);
        }
        let nslots = slots.len();
        let coalesce = i < nslots - 1 && slots[i + 1].key_bytes().len() == 0;
        if coalesce {
            let mut p = crate::codec::copy_range(
                slots[i].key_bytes(),
                0,
                slots[i].key_bytes().len(),
            );
            let vb = slots[i].val_bytes();
            p.extend_from_slice(vb.as_slice());
            Blob::write_u64(&mut p, 0);
            Blob::write_u64(&mut p, slots[i + 1].val_bytes().len() as u64);
            let nb2 = slots[i + 1].val_bytes();
            p.extend_from_slice(nb2.as_slice());
            proof {
                assert(p@ =~= view[i as int].0 + view[i as int].1 + u64_le_bytes(0)
                    + u64_le_bytes(view[i as int + 1].1.len() as u64) + view[i as int + 1].1);
            }
            let merged = Blob::from(Vec::new(), p);
            slots[i] = merged;
            slots.remove(i + 1);
            proof {
                let m = (
                    Seq::<u8>::empty(),
                    view[i as int].0 + view[i as int].1 + u64_le_bytes(0) + u64_le_bytes(
                        view[i as int + 1].1.len() as u64,
                    ) + view[i as int + 1].1,
                );
                assert(blobs_view(slots@) =~= view.take(i as int) + seq![m] + view.skip(
                    i as int + 2,
                ));
            }
        } else {
            let mut p = crate::codec::copy_range(
                slots[i].key_bytes(),
                0,
                slots[i].key_bytes().len(),
            );
            let vb = slots[i].val_bytes();
            p.extend_from_slice(vb.as_slice());
            proof {
                assert(p@ =~= view[i as int].0 + view[i as int].1);
            }
            let freed = Blob::from(Vec::new(), p);
            slots[i] = freed;
            proof {
                let m = (Seq::<u8>::empty(), view[i as int].0 + view[i as int].1);
                assert(blobs_view(slots@) =~= view.take(i as int) + seq![m] + view.skip(
                    i as int + 1,
                ));
            }
        }
        proof {
            lemma_remove_slots_size(view, k@);
            let nv = blobs_view(slots@);
            assert(nv == spec_remove_slots(view, k@));
            assert(slots_size(nv) == self.bs());
            assert forall|j: int| 0 <= j < nv.len() implies slot_size(#[trigger] nv[j])
                <= usize::MAX by {
                lemma_slot_size_bounds(nv, j);
                lemma_slots_bytes_len(nv);
            }
        }
        let newb = serialize_bucket(&slots);
        proof {
            lemma_parse_serialize(blobs_view(slots@));
            lemma_slots_bytes_len(blobs_view(slots@));
        }
        self.buckets[bi] = newb;
        proof {
            assert forall|j: int| 0 <= j < self.nb() implies (#[trigger] self.bucket_bytes(
                j,
            )).len() == self.bs() by {
                if j != bi as int {
                    assert(self.bucket_bytes(j) == old(self).bucket_bytes(j));
                }
            }
        }
        self.inc_elems(-1);
        proof {
            assert forall|j: int|
                0 <= j < self.nb() && j != old(self).bucket_of(k@)
                    implies #[trigger] self.bucket_bytes(j) == old(self).bucket_bytes(j) by {
            }
        }
        Ok(())
    }

    /// Inserts a record as an upsert: any live record for the same key
    /// is removed first, so at most one record per key stays live, and
    /// then the record is placed in its bucket. Fails with `TooBig`,
    /// `NoRoom` or `Io` exactly as placement does; a failed placement
    /// leaves the removal in place, as the underlying scan does.
    pub fn insert(&mut self, blob: Blob) -> (r: Result<(), Error>)
        requires
            old(self).wf(),
            blob.wf(),
            1 <= blob.key().len(),
            old(self).elem_count() < u64::MAX,
        ensures
            final(self).wf(),
            final(self).same_config(&*old(self)),
            forall|j: int|
                0 <= j < final(self).nb() && j != old(self).bucket_of(blob.key())
                    ==> #[trigger] final(self).bucket_bytes(j) == old(self).bucket_bytes(j),
            ({
                let bi = old(self).bucket_of(blob.key());
                let slots0 = old(self).bucket_slots(bi);
                let s1 = spec_remove_slots(slots0, blob.key());
                let rlen = blob.spec_len();
                &&& (!wf_bucket(old(self).bucket_bytes(bi)) ==> r is Err)
                &&& (wf_bucket(old(self).bucket_bytes(bi)) ==> {
                    &&& (r is Ok <==> rlen <= old(self).bs() && has_room(s1, rlen))
                    &&& (r is Ok ==> final(self).bucket_slots(bi) == spec_insert_slots(
                        s1,
                        blob.key(),
                        blob.val(),
                    ) && wf_bucket(final(self).bucket_bytes(bi)))
                    &&& (r is Err ==> final(self).bucket_slots(bi) == s1)
                })
            }),
    {
        let kb = blob.key_bytes();
        let kc = crate::codec::copy_range(kb, 0, kb.len());
        proof {
            assert(kc@ =~= blob.key());
        }
        let _ = self.remove(&kc);
        self.insert_only(blob)
    }
}


/// How many slots carry exactly these key bytes.
pub open spec fn key_count(slots: Seq<(Seq<u8>, Seq<u8>)>, key: Seq<u8>) -> nat
    decreases slots.len(),
{
    if slots.len() == 0 {
        0
    } else if slots[0].0 == key {
        1 + key_count(slots.skip(1), key)
    } else {
        key_count(slots.skip(1), key)
    }
}

/// Placing a record makes its key's value the one looked up, as long
/// as no older record for the key is still live.
pub proof fn lemma_place_lookup(s: Seq<(Seq<u8>, Seq<u8>)>, key: Seq<u8>, val: Seq<u8>)
    requires
        slots_lookup(s, key) is None,
        has_room(s, 16 + key.len() as int + val.len() as int),
    ensures
        slots_lookup(spec_insert_slots(s, key, val), key) == Some(val),
    decreases s.len(),
{
    let rlen: int = 16 + key.len() as int + val.len() as int;
    if s.len() == 0 {
    } else if slot_usable(s[0], rlen) {
        if rlen == slot_size(s[0]) {
            assert((seq![(key, val)] + s.skip(1))[0] == (key, val));
        } else {
            let tail = (Seq::<u8>::empty(), s[0].1.subrange(rlen, s[0].1.len() as int));
            assert((seq![(key, val), tail] + s.skip(1))[0] == (key, val));
        }
    } else {
        assert(s[0].0 != key);
        assert forall|i: int| 0 <= i < s.skip(1).len() && slot_usable(
            #[trigger] s.skip(1)[i],
            rlen,
        ) implies has_room(s.skip(1), rlen) by {}
        let w = choose|i: int| 0 <= i < s.len() && slot_usable(#[trigger] s[i], rlen);
        assert(w != 0);
        assert(s.skip(1)[w - 1] == s[w]);
        lemma_place_lookup(s.skip(1), key, val);
        let out = seq![s[0]] + spec_insert_slots(s.skip(1), key, val);
        assert(out[0] == s[0]);
        assert(out.skip(1) =~= spec_insert_slots(s.skip(1), key, val));
    }
}

/// Placing a record leaves every other key's lookup unchanged.
pub proof fn lemma_place_preserves(
    s: Seq<(Seq<u8>, Seq<u8>)>,
    key: Seq<u8>,
    val: Seq<u8>,
    k2: Seq<u8>,
)
    requires
        k2 != key,
        k2.len() > 0,
    ensures
        slots_lookup(spec_insert_slots(s, key, val), k2) == slots_lookup(s, k2),
    decreases s.len(),
{
    let rlen: int = 16 + key.len() as int + val.len() as int;
    if s.len() == 0 {
    } else if slot_usable(s[0], rlen) {
        assert(s[0].0.len() == 0);
        assert(s[0].0 != k2);
        assert(slots_lookup(s, k2) == slots_lookup(s.skip(1), k2));
        if rlen == slot_size(s[0]) {
            let out = seq![(key, val)] + s.skip(1);
            assert(out[0] == (key, val));
            assert(out.skip(1) =~= s.skip(1));
            assert(slots_lookup(out, k2) == slots_lookup(s.skip(1), k2));
        } else {
            let tail = (Seq::<u8>::empty(), s[0].1.subrange(rlen, s[0].1.len() as int));
            let out = seq![(key, val), tail] + s.skip(1);
            assert(out[0] == (key, val));
            assert(out.skip(1) =~= seq![tail] + s.skip(1));
            assert((seq![tail] + s.skip(1))[0] == tail);
            assert(tail.0 != k2);
            assert((seq![tail] + s.skip(1)).skip(1) =~= s.skip(1));
            assert(slots_lookup(out, k2) == slots_lookup(seq![tail] + s.skip(1), k2));
            assert(slots_lookup(seq![tail] + s.skip(1), k2) == slots_lookup(s.skip(1), k2));
        }
    } else {
        lemma_place_preserves(s.skip(1), key, val, k2);
        if s[0].0 == k2 {
        } else {
            assert(slots_lookup(s, k2) == slots_lookup(s.skip(1), k2));
        }
        let out = seq![s[0]] + spec_insert_slots(s.skip(1), key, val);
        assert(out[0] == s[0]);
        assert(out.skip(1) =~= spec_insert_slots(s.skip(1), key, val));
    }
}

/// Removal leaves every other key's lookup unchanged.
pub proof fn lemma_remove_preserves(s: Seq<(Seq<u8>, Seq<u8>)>, key: Seq<u8>, k2: Seq<u8>)
    requires
        k2 != key,
        k2.len() > 0,
    ensures
        slots_lookup(spec_remove_slots(s, key), k2) == slots_lookup(s, k2),
    decreases s.len(),
{
    if s.len() == 0 {
    } else if s[0].0 == key {
        if s.len() >= 2 && s[1].0.len() == 0 {
            let m = (
                Seq::<u8>::empty(),
                s[0].0 + s[0].1 + u64_le_bytes(0) + u64_le_bytes(s[1].1.len() as u64) + s[1].1,
            );
            let out = seq![m] + s.skip(2);
            assert(out[0] == m);
            assert(m.0 != k2);
            assert(out.skip(1) =~= s.skip(2));
            assert(s.skip(1)[0] == s[1]);
            assert(s[1].0 != k2);
            assert(s.skip(1).skip(1) =~= s.skip(2));
            assert(s[0].0 != k2);
            assert(slots_lookup(s, k2) == slots_lookup(s.skip(1), k2));
            assert(slots_lookup(s.skip(1), k2) == slots_lookup(s.skip(2), k2));
            assert(slots_lookup(out, k2) == slots_lookup(s.skip(2), k2));
        } else {
            let m = (Seq::<u8>::empty(), s[0].0 + s[0].1);
            let out = seq![m] + s.skip(1);
            assert(out[0] == m);
            assert(m.0 != k2);
            assert(out.skip(1) =~= s.skip(1));
            assert(s[0].0 != k2);
            assert(slots_lookup(s, k2) == slots_lookup(s.skip(1), k2));
            assert(slots_lookup(out, k2) == slots_lookup(s.skip(1), k2));
        }
    } else {
        lemma_remove_preserves(s.skip(1), key, k2);
        if s[0].0 == k2 {
        } else {
            assert(slots_lookup(s, k2) == slots_lookup(s.skip(1), k2));
        }
        let out = seq![s[0]] + spec_remove_slots(s.skip(1), key);
        assert(out[0] == s[0]);
        assert(out.skip(1) =~= spec_remove_slots(s.skip(1), key));
    }
}

/// Removal takes one occurrence away and, when the key was live at
/// most once, leaves its lookup empty.
pub proof fn lemma_remove_count(s: Seq<(Seq<u8>, Seq<u8>)>, key: Seq<u8>)
    requires
        key.len() > 0,
    ensures
        key_count(spec_remove_slots(s, key), key) == if key_count(s, key) >= 1 {
            key_count(s, key) - 1
        } else {
            0
        },
        key_count(s, key) <= 1 ==> slots_lookup(spec_remove_slots(s, key), key) is None,
        key_count(s, key) == 0 ==> slots_lookup(s, key) is None,
        slots_lookup(s, key) is None ==> key_count(s, key) == 0,
    decreases s.len(),
{
    if s.len() == 0 {
    } else if s[0].0 == key {
        if s.len() >= 2 && s[1].0.len() == 0 {
            let m = (
                Seq::<u8>::empty(),
                s[0].0 + s[0].1 + u64_le_bytes(0) + u64_le_bytes(s[1].1.len() as u64) + s[1].1,
            );
            let out = seq![m] + s.skip(2);
            assert(out[0] == m);
            assert(m.0 != key);
            assert(out.skip(1) =~= s.skip(2));
            lemma_remove_count(s.skip(1), key);
            assert(s.skip(1)[0] == s[1]);
            assert(s[1].0 != key);
            assert(s.skip(1).skip(1) =~= s.skip(2));
            lemma_remove_count(s.skip(2), key);
        } else {
            let m = (Seq::<u8>::empty(), s[0].0 + s[0].1);
            let out = seq![m] + s.skip(1);
            assert(out[0] == m);
            assert(m.0 != key);
            assert(out.skip(1) =~= s.skip(1));
            lemma_remove_count(s.skip(1), key);
        }
    } else {
        lemma_remove_count(s.skip(1), key);
        let out = seq![s[0]] + spec_remove_slots(s.skip(1), key);
        assert(out[0] == s[0]);
        assert(out.skip(1) =~= spec_remove_slots(s.skip(1), key));
    }
}

/// Removing an absent key changes nothing, and removing twice is
/// removing once, as long as the key was live at most once.
pub proof fn lemma_remove_idempotent(s: Seq<(Seq<u8>, Seq<u8>)>, key: Seq<u8>)
    requires
        key.len() > 0,
        key_count(s, key) <= 1,
    ensures
        slots_lookup(s, key) is None ==> spec_remove_slots(s, key) == s,
        spec_remove_slots(spec_remove_slots(s, key), key) == spec_remove_slots(s, key),
{
    lemma_remove_count(s, key);
    if slots_lookup(s, key) is None {
        lemma_lookup_none_no_match(s, key);
        lemma_spec_remove_absent(s, key);
    }
    let s1 = spec_remove_slots(s, key);
    lemma_remove_count(s1, key);
    lemma_lookup_none_no_match(s1, key);
    lemma_spec_remove_absent(s1, key);
}


/// Placing a record adds exactly one slot carrying its key.
pub proof fn lemma_place_count(s: Seq<(Seq<u8>, Seq<u8>)>, key: Seq<u8>, val: Seq<u8>)
    requires
        key.len() > 0,
        has_room(s, 16 + key.len() as int + val.len() as int),
    ensures
        key_count(spec_insert_slots(s, key, val), key) == key_count(s, key) + 1,
    decreases s.len(),
{
    let rlen: int = 16 + key.len() as int + val.len() as int;
    if s.len() == 0 {
    } else if slot_usable(s[0], rlen) {
        assert(s[0].0 != key);
        assert(key_count(s, key) == key_count(s.skip(1), key));
        if rlen == slot_size(s[0]) {
            let out = seq![(key, val)] + s.skip(1);
            assert(out[0] == (key, val));
            assert(out.skip(1) =~= s.skip(1));
            assert(key_count(out, key) == 1 + key_count(s.skip(1), key));
        } else {
            let tail = (Seq::<u8>::empty(), s[0].1.subrange(rlen, s[0].1.len() as int));
            let out = seq![(key, val), tail] + s.skip(1);
            assert(out[0] == (key, val));
            assert(out.skip(1) =~= seq![tail] + s.skip(1));
            assert((seq![tail] + s.skip(1))[0] == tail);
            assert(tail.0 != key);
            assert((seq![tail] + s.skip(1)).skip(1) =~= s.skip(1));
            assert(key_count(seq![tail] + s.skip(1), key) == key_count(s.skip(1), key));
            assert(key_count(out, key) == 1 + key_count(s.skip(1), key));
        }
    } else {
        assert forall|i: int|
            0 <= i < s.skip(1).len() && slot_usable(#[trigger] s.skip(1)[i], rlen) implies
            has_room(s.skip(1), rlen) by {}
        let w = choose|i: int| 0 <= i < s.len() && slot_usable(#[trigger] s[i], rlen);
        assert(w != 0);
        assert(s.skip(1)[w - 1] == s[w]);
        lemma_place_count(s.skip(1), key, val);
        let out = seq![s[0]] + spec_insert_slots(s.skip(1), key, val);
        assert(out[0] == s[0]);
        assert(out.skip(1) =~= spec_insert_slots(s.skip(1), key, val));
        if s[0].0 == key {
            assert(key_count(s, key) == 1 + key_count(s.skip(1), key));
            assert(key_count(out, key) == 1 + key_count(out.skip(1), key));
        } else {
            assert(key_count(s, key) == key_count(s.skip(1), key));
            assert(key_count(out, key) == key_count(out.skip(1), key));
        }
    }
}

/// A missing lookup means no slot carries the key.
pub proof fn lemma_lookup_none_no_match(s: Seq<(Seq<u8>, Seq<u8>)>, key: Seq<u8>)
    requires
        slots_lookup(s, key) is None,
    ensures
        forall|j: int| 0 <= j < s.len() ==> (#[trigger] s[j]).0 != key,
    decreases s.len(),
{
    if s.len() > 0 {
        lemma_lookup_none_no_match(s.skip(1), key);
        assert forall|j: int| 0 <= j < s.len() implies (#[trigger] s[j]).0 != key by {
            if j > 0 {
                assert(s.skip(1)[j - 1] == s[j]);
            }
        }
    }
}

impl Store {
    /// Capacity conservation: a well-formed bucket's slot sizes always
    /// sum to exactly the block size, whatever insertions and removals
    /// produced it.
    pub proof fn lemma_capacity_conservation(&self, i: int)
        requires
            self.wf(),
            0 <= i < self.nb(),
            wf_bucket(self.bucket_bytes(i)),
        ensures
            slots_size(self.bucket_slots(i)) == self.bs(),
    {
        lemma_mul_le(1, self.nb(), self.bs());
        assert(self.nb() * self.bs() == self.bs() * self.nb()) by (nonlinear_arith);
        lemma_parse_size(self.bucket_bytes(i), 0);
    }

    /// The concatenated length of the first `m` buckets.
    proof fn lemma_cat_len(&self, m: int)
        requires
            self.wf(),
            0 <= m <= self.nb(),
        ensures
            self.cat_upto(m).len() == m * self.bs(),
        decreases m,
    {
        if m == 0 {
            assert(0 * self.bs() == 0) by (nonlinear_arith);
        } else {
            self.lemma_cat_len(m - 1);
            lemma_mul_succ(m - 1, self.bs());
        }
    }

    /// Bucket `i` sits at its fixed offset inside the concatenation.
    proof fn lemma_cat_index(&self, m: int, i: int)
        requires
            self.wf(),
            0 <= i < m <= self.nb(),
        ensures
            self.cat_upto(m).subrange(i * self.bs(), (i + 1) * self.bs()) == self.bucket_bytes(i),
        decreases m,
    {
        self.lemma_cat_len(m);
        self.lemma_cat_len(m - 1);
        lemma_mul_succ(m - 1, self.bs());
        if i == m - 1 {
            assert(self.cat_upto(m).subrange(i * self.bs(), (i + 1) * self.bs())
                =~= self.bucket_bytes(i));
        } else {
            self.lemma_cat_index(m - 1, i);
            lemma_mul_succ(i, self.bs());
            lemma_mul_le(i + 1, m - 1, self.bs());
            assert(0 <= i * self.bs()) by (nonlinear_arith)
                requires
                    0 <= i,
                    0 <= self.bs(),
            ;
            assert(self.cat_upto(m).subrange(i * self.bs(), (i + 1) * self.bs())
                =~= self.cat_upto(m - 1).subrange(i * self.bs(), (i + 1) * self.bs()));
        }
    }

    /// Persistence: the byte image round-trips. Its header reads back
    /// field for field, and every bucket sits byte-exact at its offset,
    /// so `open` on the image rebuilds this store.
    pub proof fn lemma_image_roundtrip(&self)
        requires
            self.wf(),
        ensures
            image_ok(self.image()),
            header_seed(self.image()) == self.seed(),
            header_bs(self.image()) == self.bs(),
            header_nb(self.image()) == self.nb(),
            header_elems(self.image()) == self.elem_count(),
            forall|i: int| 0 <= i < self.nb() ==> #[trigger] self.image().subrange(
                32 + i * self.bs(),
                32 + (i + 1) * self.bs(),
            ) == self.bucket_bytes(i),
    {
        let im = self.image();
        self.lemma_cat_len(self.nb());
        assert(self.nb() * self.bs() == self.bs() * self.nb()) by (nonlinear_arith);
        assert(im.subrange(0, 8) =~= u64_le_bytes(self.seed()));
        assert(im.subrange(8, 16) =~= u64_le_bytes(self.bs() as u64));
        assert(im.subrange(16, 24) =~= u64_le_bytes(self.nb() as u64));
        assert(im.subrange(24, 32) =~= u64_le_bytes(self.elem_count() as u64));
        crate::codec::lemma_le_roundtrip(self.seed());
        crate::codec::lemma_le_roundtrip(self.bs() as u64);
        crate::codec::lemma_le_roundtrip(self.nb() as u64);
        crate::codec::lemma_le_roundtrip(self.elem_count() as u64);
        assert forall|i: int| 0 <= i < self.nb() implies #[trigger] self.image().subrange(
            32 + i * self.bs(),
            32 + (i + 1) * self.bs(),
        ) == self.bucket_bytes(i) by {
            self.lemma_cat_index(self.nb(), i);
            lemma_mul_succ(i, self.bs());
            lemma_mul_le(i + 1, self.nb(), self.bs());
            assert(0 <= i * self.bs()) by (nonlinear_arith)
                requires
                    0 <= i,
                    0 <= self.bs(),
            ;
            assert(self.image().subrange(32 + i * self.bs(), 32 + (i + 1) * self.bs())
                =~= self.cat_upto(self.nb()).subrange(i * self.bs(), (i + 1) * self.bs()));
        }
    }


    /// Upsert: after a successful insert of `(key, val)` over a bucket
    /// that held the key at most once, exactly one record for the key
    /// is live, and it carries `val`.
    pub proof fn lemma_upsert_single(&self, prior: &Store, key: Seq<u8>, val: Seq<u8>)
        requires
            prior.wf(),
            self.wf(),
            key.len() > 0,
            self.same_config(prior),
            wf_bucket(prior.bucket_bytes(prior.bucket_of(key))),
            key_count(prior.bucket_slots(prior.bucket_of(key)), key) <= 1,
            has_room(
                spec_remove_slots(prior.bucket_slots(prior.bucket_of(key)), key),
                16 + key.len() as int + val.len() as int,
            ),
            self.bucket_slots(self.bucket_of(key)) == spec_insert_slots(
                spec_remove_slots(prior.bucket_slots(prior.bucket_of(key)), key),
                key,
                val,
            ),
        ensures
            key_count(self.bucket_slots(self.bucket_of(key)), key) == 1,
            self.lookup(key) == Some(val),
    {
        let s0 = prior.bucket_slots(prior.bucket_of(key));
        lemma_remove_count(s0, key);
        lemma_place_count(spec_remove_slots(s0, key), key, val);
        lemma_place_lookup(spec_remove_slots(s0, key), key, val);
    }

    /// Round trip: a record the bucket has room for is found again by
    /// its key, with exactly the value that was inserted, as long as
    /// the key was live at most once before the upsert.
    pub proof fn lemma_insert_round_trip(&self, prior: &Store, key: Seq<u8>, val: Seq<u8>)
        requires
            prior.wf(),
            self.wf(),
            key.len() > 0,
            self.same_config(prior),
            wf_bucket(prior.bucket_bytes(prior.bucket_of(key))),
            key_count(prior.bucket_slots(prior.bucket_of(key)), key) <= 1,
            has_room(
                spec_remove_slots(prior.bucket_slots(prior.bucket_of(key)), key),
                16 + key.len() as int + val.len() as int,
            ),
            self.bucket_slots(self.bucket_of(key)) == spec_insert_slots(
                spec_remove_slots(prior.bucket_slots(prior.bucket_of(key)), key),
                key,
                val,
            ),
        ensures
            self.lookup(key) == Some(val),
    {
        let s0 = prior.bucket_slots(prior.bucket_of(key));
        lemma_remove_count(s0, key);
        lemma_place_lookup(spec_remove_slots(s0, key), key, val);
    }
}


/// Chooses a fresh store's hash seed.
///
/// Relies on `rand::random`, which draws from the thread-local
/// generator; nothing is assumed about the value.
#[verifier::external_body]
pub(crate) fn random_seed() -> u64 {
    rand::random()
}

} // verus!
