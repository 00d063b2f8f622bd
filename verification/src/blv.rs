//! The tag-length-value ("BLV") record layer.
//!
//! A frame is a sequence of records `<tag:1><biased length:4><value>`,
//! the length written big-endian with a fixed bias added. Frames decode
//! into a map from tag to value; decoding stops quietly at the first
//! truncated or implausible record.

use vstd::prelude::*;
use vstd::map::*;

use crate::errors::NeoError;

verus! {

/// The magic bias added to every length field on the wire.
pub const BLV_OFFSET: i32 = 1966546385;

/// The largest value length whose biased length still fits a signed
/// 32-bit field: `i32::MAX - BLV_OFFSET`.
pub const MAX_VALUE_LEN: usize = 180937262;

/// A big-endian 32-bit quantity as its four bytes.
pub open spec fn be32_bytes(n: u32) -> Seq<u8> {
    seq![(n >> 24) as u8, ((n >> 16) & 0xff) as u8, ((n >> 8) & 0xff) as u8, (n & 0xff) as u8]
}

/// Four bytes read back as a big-endian 32-bit quantity.
pub open spec fn be32_val(b0: u8, b1: u8, b2: u8, b3: u8) -> u32 {
    ((b0 as u32) << 24) | ((b1 as u32) << 16) | ((b2 as u32) << 8) | (b3 as u32)
}

/// The signed reading of an unsigned 32-bit quantity.
pub open spec fn i32_of_u32(n: u32) -> int {
    if n < 0x8000_0000 {
        n as int
    } else {
        n - 0x1_0000_0000
    }
}

/// Writing then reading a 32-bit quantity big-endian is the identity.
pub proof fn lemma_be32_round(n: u32)
    ensures
        be32_val((n >> 24) as u8, ((n >> 16) & 0xff) as u8, ((n >> 8) & 0xff) as u8, (
        n & 0xff) as u8) == n,
{
    assert((((n >> 24) as u8) as u32) << 24 | ((((n >> 16) & 0xff) as u8) as u32) << 16 | ((((n
        >> 8) & 0xff) as u8) as u32) << 8 | (((n & 0xff) as u8) as u32) == n) by (bit_vector);
}

/// The single byte a tag is written as: its low eight bits.
pub open spec fn tag_byte(t: i32) -> u8 {
    (t & 0xff) as u8
}

/// One record: the tag byte, the biased length big-endian, the value.
pub open spec fn record_spec(t: i32, v: Seq<u8>) -> Seq<u8>
    recommends
        v.len() <= MAX_VALUE_LEN,
{
    seq![tag_byte(t)] + be32_bytes((v.len() + BLV_OFFSET) as u32) + v
}

/// A whole frame: the records of the entries, in order.
pub open spec fn tlv_encode_entries(es: Seq<(i32, Seq<u8>)>) -> Seq<u8>
    decreases es.len(),
{
    if es.len() == 0 {
        Seq::empty()
    } else {
        record_spec(es[0].0, es[0].1) + tlv_encode_entries(es.skip(1))
    }
}

/// The map a frame decodes to: records are read from the front while at
/// least five bytes remain and each biased length is plausible; a later
/// record's tag overrides an earlier one's.
pub open spec fn tlv_decode_spec(s: Seq<u8>) -> Map<i32, Seq<u8>>
    decreases s.len(),
{
    if s.len() < 5 {
        Map::empty()
    } else {
        let t = s[0] as i32;
        let l = i32_of_u32(be32_val(s[1], s[2], s[3], s[4])) - BLV_OFFSET;
        if l < 0 || 5 + l > s.len() {
            Map::empty()
        } else {
            map![t => s.subrange(5, 5 + l)].union_prefer_right(tlv_decode_spec(s.skip(5 + l)))
        }
    }
}

/// The map formed by an entry sequence, later entries overriding earlier.
pub open spec fn entry_map_of(es: Seq<(i32, Seq<u8>)>) -> Map<i32, Seq<u8>>
    decreases es.len(),
{
    if es.len() == 0 {
        Map::empty()
    } else {
        map![es[0].0 => es[0].1].union_prefer_right(entry_map_of(es.skip(1)))
    }
}

/// Whether some entry carries the key.
pub open spec fn seq_has_key(es: Seq<(i32, Seq<u8>)>, k: i32) -> bool {
    exists|i: int| 0 <= i < es.len() && (#[trigger] es[i]).0 == k
}

/// Whether every key occurs at most once.
pub open spec fn unique_keys(es: Seq<(i32, Seq<u8>)>) -> bool {
    forall|i: int, j: int| 0 <= i < j < es.len() ==> (#[trigger] es[i]).0 != (#[trigger] es[j]).0
}

/// Whether every value is short enough for its biased length to fit the
/// length field.
pub open spec fn values_fit(es: Seq<(i32, Seq<u8>)>) -> bool {
    forall|i: int| 0 <= i < es.len() ==> (#[trigger] es[i]).1.len() <= MAX_VALUE_LEN
}

/// Rebinding a key in an entry sequence: in place where the key already
/// occurs, appended otherwise.
pub open spec fn insert_entry(es: Seq<(i32, Seq<u8>)>, k: i32, v: Seq<u8>) -> Seq<(i32, Seq<u8>)>
    decreases es.len(),
{
    if es.len() == 0 {
        seq![(k, v)]
    } else if es[0].0 == k {
        seq![(k, v)] + es.skip(1)
    } else {
        seq![es[0]] + insert_entry(es.skip(1), k, v)
    }
}

/// A key is in the entry map exactly when some entry carries it.
pub proof fn lemma_entry_map_keys(es: Seq<(i32, Seq<u8>)>)
    ensures
        forall|k: i32| #[trigger] entry_map_of(es).contains_key(k) <==> seq_has_key(es, k),
    decreases es.len(),
{
    if es.len() > 0 {
        lemma_entry_map_keys(es.skip(1));
        assert forall|k: i32| #[trigger] entry_map_of(es).contains_key(k) implies seq_has_key(
            es,
            k,
        ) by {
            if k == es[0].0 {
                assert(es[0].0 == k);
            } else {
                assert(entry_map_of(es.skip(1)).contains_key(k));
                let i = choose|i: int|
                    0 <= i < es.skip(1).len() && (#[trigger] es.skip(1)[i]).0 == k;
                assert(es[i + 1].0 == k);
            }
        }
        assert forall|k: i32| seq_has_key(es, k) implies #[trigger] entry_map_of(
            es,
        ).contains_key(k) by {
            let i = choose|i: int| 0 <= i < es.len() && (#[trigger] es[i]).0 == k;
            if i > 0 {
                assert(es.skip(1)[i - 1].0 == k);
                assert(entry_map_of(es.skip(1)).contains_key(k));
            }
        }
    }
}

/// Appending an entry rebinds exactly its key.
pub proof fn lemma_entry_map_push(es: Seq<(i32, Seq<u8>)>, k: i32, v: Seq<u8>)
    ensures
        entry_map_of(es.push((k, v))) == entry_map_of(es).insert(k, v),
    decreases es.len(),
{
    if es.len() == 0 {
        let s = es.push((k, v));
        assert(s.len() == 1);
        assert(s[0] == (k, v));
        assert(s.skip(1) =~= Seq::<(i32, Seq<u8>)>::empty());
        assert(entry_map_of(s.skip(1)) == Map::<i32, Seq<u8>>::empty());
        assert(entry_map_of(s) == map![k => v].union_prefer_right(
            Map::<i32, Seq<u8>>::empty(),
        ));
        assert(map![k => v].union_prefer_right(Map::<i32, Seq<u8>>::empty())
            =~= Map::<i32, Seq<u8>>::empty().insert(k, v));
    } else {
        assert(es.push((k, v)).skip(1) =~= es.skip(1).push((k, v)));
        lemma_entry_map_push(es.skip(1), k, v);
        assert(entry_map_of(es.push((k, v))) == map![es[0].0 => es[0].1].union_prefer_right(
            entry_map_of(es.skip(1)).insert(k, v),
        ));
        assert(map![es[0].0 => es[0].1].union_prefer_right(entry_map_of(es.skip(1)).insert(k, v))
            =~= entry_map_of(es).insert(k, v));
    }
}

/// `insert_entry` rebinds exactly the given key, keeps every other entry
/// in place, and preserves key uniqueness.
pub proof fn lemma_insert_entry(es: Seq<(i32, Seq<u8>)>, k: i32, v: Seq<u8>)
    requires
        unique_keys(es),
    ensures
        unique_keys(insert_entry(es, k, v)),
        entry_map_of(insert_entry(es, k, v)) == entry_map_of(es).insert(k, v),
        seq_has_key(es, k) ==> insert_entry(es, k, v).len() == es.len() && (forall|i: int|
            0 <= i < es.len() ==> #[trigger] insert_entry(es, k, v)[i] == (if es[i].0 == k {
                (k, v)
            } else {
                es[i]
            })),
        !seq_has_key(es, k) ==> insert_entry(es, k, v) == es.push((k, v)),
        values_fit(es) && v.len() <= MAX_VALUE_LEN ==> values_fit(insert_entry(es, k, v)),
    decreases es.len(),
{
    lemma_entry_map_keys(es);
    let res = insert_entry(es, k, v);
    if es.len() == 0 {
        assert(!seq_has_key(es, k));
        assert(res =~= es.push((k, v)));
        lemma_entry_map_push(es, k, v);
    } else if es[0].0 == k {
        assert(es[0].0 == k);
        assert(seq_has_key(es, k));
        assert(res =~= seq![(k, v)] + es.skip(1));
        assert(res.len() == es.len());
        assert forall|i: int| 0 <= i < es.len() implies #[trigger] res[i] == (if es[i].0 == k {
            (k, v)
        } else {
            es[i]
        }) by {
            if i > 0 {
                assert(res[i] == es.skip(1)[i - 1]);
                assert(es[i].0 != k);
            }
        }
        lemma_entry_map_keys(es.skip(1));
        assert(!seq_has_key(es.skip(1), k)) by {
            if seq_has_key(es.skip(1), k) {
                let i = choose|i: int|
                    0 <= i < es.skip(1).len() && (#[trigger] es.skip(1)[i]).0 == k;
                assert(es[i + 1].0 == k);
                assert(es[0].0 == es[i + 1].0);
            }
        }
        assert(!entry_map_of(es.skip(1)).contains_key(k));
        assert(entry_map_of(res) == map![k => v].union_prefer_right(entry_map_of(res.skip(1))));
        assert(res.skip(1) =~= es.skip(1));
        assert(map![k => v].union_prefer_right(entry_map_of(es.skip(1))) =~= entry_map_of(
            es,
        ).insert(k, v));
    } else {
        assert(unique_keys(es.skip(1))) by {
            assert(forall|i: int, j: int|
                0 <= i < j < es.skip(1).len() ==> (#[trigger] es.skip(1)[i]).0 != (
                #[trigger] es.skip(1)[j]).0);
        }
        lemma_insert_entry(es.skip(1), k, v);
        assert(res == seq![es[0]] + insert_entry(es.skip(1), k, v));
        assert(res.skip(1) =~= insert_entry(es.skip(1), k, v));
        assert(res[0] == es[0]);
        // key membership agrees between es and its tail, since the head
        // does not carry k
        assert(seq_has_key(es, k) <==> seq_has_key(es.skip(1), k)) by {
            if seq_has_key(es, k) {
                let i = choose|i: int| 0 <= i < es.len() && (#[trigger] es[i]).0 == k;
                assert(i > 0);
                assert(es.skip(1)[i - 1].0 == k);
            }
            if seq_has_key(es.skip(1), k) {
                let i = choose|i: int|
                    0 <= i < es.skip(1).len() && (#[trigger] es.skip(1)[i]).0 == k;
                assert(es[i + 1].0 == k);
            }
        }
        if seq_has_key(es, k) {
            assert(res.len() == es.len());
            assert forall|i: int| 0 <= i < es.len() implies #[trigger] res[i] == (if es[i].0 == k {
                (k, v)
            } else {
                es[i]
            }) by {
                if i > 0 {
                    assert(res[i] == insert_entry(es.skip(1), k, v)[i - 1]);
                    assert(es.skip(1)[i - 1] == es[i]);
                }
            }
        } else {
            assert(res =~= es.push((k, v)));
        }
        // uniqueness: the tail result's keys are the tail's keys plus k,
        // and the head's key is neither
        lemma_entry_map_keys(insert_entry(es.skip(1), k, v));
        assert forall|i: int, j: int| 0 <= i < j < res.len() implies (#[trigger] res[i]).0 != (
        #[trigger] res[j]).0 by {
            if i == 0 {
                let tail = insert_entry(es.skip(1), k, v);
                assert(res[j] == tail[j - 1]);
                if seq_has_key(es.skip(1), k) {
                    assert(es.skip(1)[j - 1].0 != es[0].0);
                } else {
                    if j - 1 < es.skip(1).len() {
                        assert(tail[j - 1] == es.skip(1)[j - 1]);
                        assert(es.skip(1)[j - 1].0 != es[0].0);
                    } else {
                        assert(tail[j - 1] == (k, v));
                    }
                }
            } else {
                let tail = insert_entry(es.skip(1), k, v);
                assert(res[i] == tail[i - 1] && res[j] == tail[j - 1]);
            }
        }
        assert(entry_map_of(res) == map![es[0].0 => es[0].1].union_prefer_right(
            entry_map_of(es.skip(1)).insert(k, v),
        ));
        assert(map![es[0].0 => es[0].1].union_prefer_right(entry_map_of(es.skip(1)).insert(k, v))
            =~= entry_map_of(es).insert(k, v));
    }
}

/// Appending an entry appends its record.
pub proof fn lemma_encode_entries_snoc(es: Seq<(i32, Seq<u8>)>, e: (i32, Seq<u8>))
    ensures
        tlv_encode_entries(es.push(e)) == tlv_encode_entries(es) + record_spec(e.0, e.1),
    decreases es.len(),
{
    if es.len() == 0 {
        assert(es.push(e)[0] == e);
        assert(es.push(e).skip(1) =~= Seq::<(i32, Seq<u8>)>::empty());
        assert(tlv_encode_entries(es.push(e)) == record_spec(e.0, e.1) + tlv_encode_entries(
            Seq::<(i32, Seq<u8>)>::empty(),
        ));
        assert(tlv_encode_entries(Seq::<(i32, Seq<u8>)>::empty()) == Seq::<u8>::empty());
        assert(record_spec(e.0, e.1) + Seq::<u8>::empty() =~= tlv_encode_entries(es)
            + record_spec(e.0, e.1));
    } else {
        assert(es.push(e).skip(1) =~= es.skip(1).push(e));
        lemma_encode_entries_snoc(es.skip(1), e);
        assert(es.push(e)[0] == es[0]);
        assert(tlv_encode_entries(es.push(e)) == record_spec(es[0].0, es[0].1) + (
        tlv_encode_entries(es.skip(1)) + record_spec(e.0, e.1)));
        assert(record_spec(es[0].0, es[0].1) + (tlv_encode_entries(es.skip(1)) + record_spec(
            e.0,
            e.1,
        )) =~= tlv_encode_entries(es) + record_spec(e.0, e.1));
    }
}

/// With unique keys, each entry's key maps to that entry's value.
pub proof fn lemma_entry_map_at(es: Seq<(i32, Seq<u8>)>)
    requires
        unique_keys(es),
    ensures
        forall|i: int|
            0 <= i < es.len() ==> entry_map_of(es).contains_key((#[trigger] es[i]).0)
                && entry_map_of(es)[es[i].0] == es[i].1,
    decreases es.len(),
{
    if es.len() > 0 {
        assert(forall|i: int, j: int|
            0 <= i < j < es.skip(1).len() ==> (#[trigger] es.skip(1)[i]).0 != (
            #[trigger] es.skip(1)[j]).0);
        lemma_entry_map_at(es.skip(1));
        lemma_entry_map_keys(es.skip(1));
        assert forall|i: int| 0 <= i < es.len() implies entry_map_of(es).contains_key((
        #[trigger] es[i]).0) && entry_map_of(es)[es[i].0] == es[i].1 by {
            if i == 0 {
                assert(!seq_has_key(es.skip(1), es[0].0)) by {
                    if seq_has_key(es.skip(1), es[0].0) {
                        let j = choose|j: int|
                            0 <= j < es.skip(1).len() && (#[trigger] es.skip(1)[j]).0 == es[0].0;
                        assert(es[j + 1].0 == es[0].0);
                    }
                }
                assert(!entry_map_of(es.skip(1)).contains_key(es[0].0));
            } else {
                assert(es.skip(1)[i - 1] == es[i]);
                assert(entry_map_of(es.skip(1)).contains_key(es[i].0));
            }
        }
    }
}

/// The total on-wire length of an entry sequence's records.
pub open spec fn sum_record_len(es: Seq<(i32, Seq<u8>)>) -> int
    decreases es.len(),
{
    if es.len() == 0 {
        0
    } else {
        5 + es[0].1.len() + sum_record_len(es.skip(1))
    }
}

/// An encoding's length is its records' total length, which is never
/// negative.
pub proof fn lemma_encode_len_sum(es: Seq<(i32, Seq<u8>)>)
    ensures
        tlv_encode_entries(es).len() == sum_record_len(es),
        sum_record_len(es) >= 0,
    decreases es.len(),
{
    if es.len() > 0 {
        lemma_encode_len_sum(es.skip(1));
        assert(record_spec(es[0].0, es[0].1).len() == 5 + es[0].1.len());
    }
}

/// Rebinding a key grows the records' total length by at most one fresh
/// record.
pub proof fn lemma_insert_entry_sum(es: Seq<(i32, Seq<u8>)>, k: i32, v: Seq<u8>)
    ensures
        sum_record_len(insert_entry(es, k, v)) <= sum_record_len(es) + 5 + v.len(),
    decreases es.len(),
{
    if es.len() == 0 {
        let r = insert_entry(es, k, v);
        assert(r == seq![(k, v)]);
        assert(r[0] == (k, v));
        assert(r.skip(1) =~= Seq::<(i32, Seq<u8>)>::empty());
        assert(sum_record_len(Seq::<(i32, Seq<u8>)>::empty()) == 0);
        assert(sum_record_len(r) == 5 + v.len());
    } else if es[0].0 == k {
        let r = insert_entry(es, k, v);
        assert(r == seq![(k, v)] + es.skip(1));
        assert(r[0] == (k, v));
        assert(r.skip(1) =~= es.skip(1));
        lemma_encode_len_sum(es.skip(1));
    } else {
        let r = insert_entry(es, k, v);
        assert(r == seq![es[0]] + insert_entry(es.skip(1), k, v));
        assert(r[0] == es[0]);
        assert(r.skip(1) =~= insert_entry(es.skip(1), k, v));
        lemma_insert_entry_sum(es.skip(1), k, v);
    }
}

/// The records' total length splits at any boundary.
pub proof fn lemma_sum_split(es: Seq<(i32, Seq<u8>)>, i: int)
    requires
        0 <= i <= es.len(),
    ensures
        sum_record_len(es) == sum_record_len(es.take(i)) + sum_record_len(es.skip(i)),
    decreases i,
{
    if i == 0 {
        assert(es.take(0) =~= Seq::<(i32, Seq<u8>)>::empty());
        assert(es.skip(0) =~= es);
    } else {
        lemma_sum_split(es.skip(1), i - 1);
        assert(es.take(i)[0] == es[0]);
        assert(es.take(i).skip(1) =~= es.skip(1).take(i - 1));
        assert(es.skip(i) =~= es.skip(1).skip(i - 1));
        assert(sum_record_len(es.take(i)) == 5 + es[0].1.len() + sum_record_len(
            es.skip(1).take(i - 1),
        ));
    }
}

/// Decoding a well-formed record followed by anything reads exactly that
/// record and goes on with the rest.
pub proof fn lemma_decode_record(t: i32, v: Seq<u8>, rest: Seq<u8>)
    requires
        0 <= t < 256,
        v.len() <= MAX_VALUE_LEN,
    ensures
        tlv_decode_spec(record_spec(t, v) + rest) == map![t => v].union_prefer_right(
            tlv_decode_spec(rest),
        ),
{
    let s = record_spec(t, v) + rest;
    let n = ((v.len() + BLV_OFFSET) as u32);
    assert(t & 0xff == t) by (bit_vector)
        requires
            0 <= t < 256,
    ;
    assert(record_spec(t, v).len() == 5 + v.len());
    assert(s[0] == tag_byte(t));
    assert(s[0] as i32 == t);
    assert(s[1] == (n >> 24) as u8);
    assert(s[2] == ((n >> 16) & 0xff) as u8);
    assert(s[3] == ((n >> 8) & 0xff) as u8);
    assert(s[4] == (n & 0xff) as u8);
    lemma_be32_round(n);
    assert(be32_val(s[1], s[2], s[3], s[4]) == n);
    assert(i32_of_u32(n) == v.len() + BLV_OFFSET);
    let l = i32_of_u32(be32_val(s[1], s[2], s[3], s[4])) - BLV_OFFSET;
    assert(l == v.len());
    assert(5 + l <= s.len());
    assert(s.subrange(5, 5 + l) =~= v);
    assert(s.skip(5 + l) =~= rest);
    assert(tlv_decode_spec(s) == map![t => v].union_prefer_right(tlv_decode_spec(rest)));
}

/// Decoding inverts encoding: the encoding of an entry sequence with
/// unique single-byte tags decodes to exactly its entry map.
pub proof fn lemma_tlv_decode_encode(es: Seq<(i32, Seq<u8>)>)
    requires
        unique_keys(es),
        values_fit(es),
        forall|i: int| 0 <= i < es.len() ==> 0 <= (#[trigger] es[i]).0 < 256,
    ensures
        tlv_decode_spec(tlv_encode_entries(es)) == entry_map_of(es),
    decreases es.len(),
{
    if es.len() == 0 {
        assert(tlv_encode_entries(es).len() == 0);
        assert(tlv_decode_spec(tlv_encode_entries(es)) =~= entry_map_of(es));
    } else {
        let tail = es.skip(1);
        assert(forall|i: int, j: int|
            0 <= i < j < tail.len() ==> (#[trigger] tail[i]).0 != (#[trigger] tail[j]).0);
        assert(forall|i: int| 0 <= i < tail.len() ==> (#[trigger] tail[i]).1.len()
            <= MAX_VALUE_LEN);
        assert(forall|i: int| 0 <= i < tail.len() ==> 0 <= (#[trigger] tail[i]).0 < 256);
        lemma_tlv_decode_encode(tail);
        lemma_decode_record(es[0].0, es[0].1, tlv_encode_entries(tail));
    }
}

/// Round trip: the encoding of a frame whose single-byte tags avoid 0
/// and 39 decodes to the frame itself, extended by the two padding
/// entries bound at tags 0 and 39.
pub proof fn lemma_tlv_round_trip(es: Seq<(i32, Seq<u8>)>, p0: Seq<u8>, p39: Seq<u8>)
    requires
        unique_keys(es),
        values_fit(es),
        forall|i: int| 0 <= i < es.len() ==> 0 <= (#[trigger] es[i]).0 < 256,
        !seq_has_key(es, 0),
        !seq_has_key(es, 39),
        p0.len() <= MAX_VALUE_LEN,
        p39.len() <= MAX_VALUE_LEN,
    ensures
        tlv_decode_spec(tlv_encode_entries(insert_entry(insert_entry(es, 0, p0), 39, p39)))
            == entry_map_of(es).insert(0, p0).insert(39, p39),
{
    let es1 = insert_entry(es, 0, p0);
    let es2 = insert_entry(es1, 39, p39);
    lemma_insert_entry(es, 0, p0);
    assert(es1 == es.push((0int as i32, p0)));
    lemma_insert_entry(es1, 39, p39);
    assert(!seq_has_key(es1, 39)) by {
        if seq_has_key(es1, 39) {
            let i = choose|i: int| 0 <= i < es1.len() && (#[trigger] es1[i]).0 == 39;
            if i < es.len() {
                assert(es[i].0 == 39);
            } else {
                assert(es1[i] == (0int as i32, p0));
            }
        }
    }
    assert(es2 == es1.push((39int as i32, p39)));
    assert(forall|i: int| 0 <= i < es2.len() ==> 0 <= (#[trigger] es2[i]).0 < 256) by {
        assert forall|i: int| 0 <= i < es2.len() implies 0 <= (#[trigger] es2[i]).0 < 256 by {
            if i < es.len() {
                assert(es2[i] == es[i]);
            } else if i == es.len() {
                assert(es2[i] == (0int as i32, p0));
            } else {
                assert(es2[i] == (39int as i32, p39));
            }
        }
    }
    assert(values_fit(es2)) by {
        assert forall|i: int| 0 <= i < es2.len() implies (#[trigger] es2[i]).1.len()
            <= MAX_VALUE_LEN by {
            if i < es.len() {
                assert(es2[i] == es[i]);
            } else if i == es.len() {
                assert(es2[i] == (0int as i32, p0));
            } else {
                assert(es2[i] == (39int as i32, p39));
            }
        }
    }
    lemma_tlv_decode_encode(es2);
}

/// Truncation tolerance: decoding any front piece of an encoding gives a
/// submap of the full decoding.
pub proof fn lemma_tlv_truncation(es: Seq<(i32, Seq<u8>)>, k: int)
    requires
        unique_keys(es),
        values_fit(es),
        forall|i: int| 0 <= i < es.len() ==> 0 <= (#[trigger] es[i]).0 < 256,
        0 <= k <= tlv_encode_entries(es).len(),
    ensures
        tlv_decode_spec(tlv_encode_entries(es).take(k)).submap_of(
            tlv_decode_spec(tlv_encode_entries(es)),
        ),
    decreases es.len(),
{
    let full = tlv_encode_entries(es);
    let trunc = full.take(k);
    if es.len() == 0 {
        assert(trunc.len() == 0);
        assert(tlv_decode_spec(trunc) =~= Map::<i32, Seq<u8>>::empty());
        assert(tlv_decode_spec(trunc).submap_of(tlv_decode_spec(full)));
    } else {
        let t = es[0].0;
        let v = es[0].1;
        let tail = es.skip(1);
        let etail = tlv_encode_entries(tail);
        let rec = record_spec(t, v);
        assert(rec.len() == 5 + v.len());
        assert(forall|i: int, j: int|
            0 <= i < j < tail.len() ==> (#[trigger] tail[i]).0 != (#[trigger] tail[j]).0);
        assert(forall|i: int| 0 <= i < tail.len() ==> (#[trigger] tail[i]).1.len()
            <= MAX_VALUE_LEN);
        assert(forall|i: int| 0 <= i < tail.len() ==> 0 <= (#[trigger] tail[i]).0 < 256);
        lemma_decode_record(t, v, etail);
        lemma_tlv_decode_encode(tail);
        lemma_entry_map_keys(tail);
        assert(!seq_has_key(tail, t)) by {
            if seq_has_key(tail, t) {
                let i = choose|i: int| 0 <= i < tail.len() && (#[trigger] tail[i]).0 == t;
                assert(es[i + 1].0 == t);
                assert(es[0].0 != es[i + 1].0);
            }
        }
        assert(!tlv_decode_spec(etail).contains_key(t));
        if k < 5 {
            assert(trunc.len() < 5);
            assert(tlv_decode_spec(trunc) =~= Map::<i32, Seq<u8>>::empty());
        } else if k < 5 + v.len() {
            // the cut lands inside the first record's value: its length
            // field promises more bytes than remain, so decoding stops
            let n = ((v.len() + BLV_OFFSET) as u32);
            assert(t & 0xff == t) by (bit_vector)
                requires
                    0 <= t < 256,
            ;
            assert(trunc.len() == k);
            assert(trunc[1] == rec[1] && trunc[2] == rec[2] && trunc[3] == rec[3] && trunc[4]
                == rec[4]);
            assert(rec[1] == (n >> 24) as u8);
            assert(rec[2] == ((n >> 16) & 0xff) as u8);
            assert(rec[3] == ((n >> 8) & 0xff) as u8);
            assert(rec[4] == (n & 0xff) as u8);
            lemma_be32_round(n);
            assert(i32_of_u32(be32_val(trunc[1], trunc[2], trunc[3], trunc[4])) - BLV_OFFSET
                == v.len());
            assert(5 + (v.len() as int) > trunc.len());
            assert(tlv_decode_spec(trunc) =~= Map::<i32, Seq<u8>>::empty());
        } else {
            let k2 = k - (5 + v.len());
            assert(full =~= rec + etail);
            assert(trunc =~= rec + etail.take(k2));
            lemma_decode_record(t, v, etail.take(k2));
            lemma_tlv_truncation(tail, k2);
            let sub = tlv_decode_spec(etail.take(k2));
            let whole = tlv_decode_spec(etail);
            assert(sub.submap_of(whole));
            assert(!sub.contains_key(t)) by {
                if sub.contains_key(t) {
                    assert(whole.contains_key(t));
                }
            }
            assert forall|c: i32|
                #[trigger] map![t => v].union_prefer_right(sub).contains_key(c) implies map![t
                => v].union_prefer_right(whole).contains_key(c) && map![t
                => v].union_prefer_right(whole)[c] == map![t => v].union_prefer_right(
                sub,
            )[c] by {
                if c == t {
                } else {
                    assert(sub.contains_key(c));
                    assert(whole.contains_key(c) && whole[c] == sub[c]);
                }
            }
        }
    }
}

/// The bytes of `"Insufficient data for length decoding"`.
pub open spec fn insufficient_len_text() -> Seq<u8> {
    seq![
        73u8, 110u8, 115u8, 117u8, 102u8, 102u8, 105u8, 99u8, 105u8, 101u8, 110u8, 116u8, 32u8,
        100u8, 97u8, 116u8, 97u8, 32u8, 102u8, 111u8, 114u8, 32u8, 108u8, 101u8, 110u8, 103u8,
        116u8, 104u8, 32u8, 100u8, 101u8, 99u8, 111u8, 100u8, 105u8, 110u8, 103u8,
    ]
}

/// The bytes of `"Decoded length is negative"`.
pub open spec fn negative_len_text() -> Seq<u8> {
    seq![
        68u8, 101u8, 99u8, 111u8, 100u8, 101u8, 100u8, 32u8, 108u8, 101u8, 110u8, 103u8, 116u8,
        104u8, 32u8, 105u8, 115u8, 32u8, 110u8, 101u8, 103u8, 97u8, 116u8, 105u8, 118u8, 101u8,
    ]
}

fn insufficient_len_vec() -> (r: Vec<u8>)
    ensures
        r@ == insufficient_len_text(),
{
    let mut v: Vec<u8> = Vec::new();
    v.push(73);
    v.push(110);
    v.push(115);
    v.push(117);
    v.push(102);
    v.push(102);
    v.push(105);
    v.push(99);
    v.push(105);
    v.push(101);
    v.push(110);
    v.push(116);
    v.push(32);
    v.push(100);
    v.push(97);
    v.push(116);
    v.push(97);
    v.push(32);
    v.push(102);
    v.push(111);
    v.push(114);
    v.push(32);
    v.push(108);
    v.push(101);
    v.push(110);
    v.push(103);
    v.push(116);
    v.push(104);
    v.push(32);
    v.push(100);
    v.push(101);
    v.push(99);
    v.push(111);
    v.push(100);
    v.push(105);
    v.push(110);
    v.push(103);
    proof {
        assert(v@ =~= insufficient_len_text());
    }
    v
}

fn negative_len_vec() -> (r: Vec<u8>)
    ensures
        r@ == negative_len_text(),
{
    let mut v: Vec<u8> = Vec::new();
    v.push(68);
    v.push(101);
    v.push(99);
    v.push(111);
    v.push(100);
    v.push(101);
    v.push(100);
    v.push(32);
    v.push(108);
    v.push(101);
    v.push(110);
    v.push(103);
    v.push(116);
    v.push(104);
    v.push(32);
    v.push(105);
    v.push(115);
    v.push(32);
    v.push(110);
    v.push(101);
    v.push(103);
    v.push(97);
    v.push(116);
    v.push(105);
    v.push(118);
    v.push(101);
    proof {
        assert(v@ =~= negative_len_text());
    }
    v
}

/// The decoded (de-biased, signed) length standing at `pos` in `s`.
pub open spec fn biased_len_at(s: Seq<u8>, pos: int) -> int
    recommends
        0 <= pos,
        pos + 4 <= s.len(),
{
    i32_of_u32(be32_val(s[pos], s[pos + 1], s[pos + 2], s[pos + 3])) - BLV_OFFSET
}

/// Reads a four-byte big-endian length field at the cursor, removes the
/// bias, and advances the cursor past it. Too few remaining bytes leave
/// the cursor alone; a negative de-biased length still consumes the four
/// bytes. Exactly the plausible (non-negative) lengths come back `Ok`.
pub fn read_and_decode_length(data: &[u8], cursor: &mut usize) -> (r: Result<usize, NeoError>)
    requires
        *old(cursor) <= data@.len(),
    ensures
        match r {
            Ok(l) => {
                &&& *old(cursor) + 4 <= data@.len()
                &&& *final(cursor) == *old(cursor) + 4
                &&& l == biased_len_at(data@, *old(cursor) as int)
            },
            Err(e) => {
                &&& e matches NeoError::Other(m)
                &&& if *old(cursor) + 4 > data@.len() {
                    *final(cursor) == *old(cursor) && m@ == insufficient_len_text()
                } else {
                    &&& *final(cursor) == *old(cursor) + 4
                    &&& biased_len_at(data@, *old(cursor) as int) < 0
                    &&& m@ == negative_len_text()
                }
            },
        },
{
    if data.len() - *cursor < 4 {
        return Err(NeoError::Other(insufficient_len_vec()));
    }
    let c = *cursor;
    let n: u32 = ((data[c] as u32) << 24) | ((data[c + 1] as u32) << 16) | ((data[c
        + 2] as u32) << 8) | (data[c + 3] as u32);
    *cursor = c + 4;
    if n >= 1966546385u32 && n < 0x8000_0000u32 {
        proof {
            assert(i32_of_u32(n) == n);
        }
        Ok((n - 1966546385u32) as usize)
    } else {
        proof {
            if n < 1966546385u32 {
                assert(i32_of_u32(n) - BLV_OFFSET < 0);
            } else {
                assert(n >= 0x8000_0000u32);
                assert(i32_of_u32(n) < 0);
                assert(i32_of_u32(n) - BLV_OFFSET < 0);
            }
        }
        Err(NeoError::Other(negative_len_vec()))
    }
}

/// A frame, as a map from tag to value.
///
/// The entries keep their insertion order, each key held once; that
/// fixed order is what the encoder walks.
pub struct BlvMap {
    entries: Vec<(i32, Vec<u8>)>,
}

impl BlvMap {
    /// The entries as a sequence of (tag, value bytes) pairs.
    pub closed spec fn entries_view(&self) -> Seq<(i32, Seq<u8>)> {
        self.entries@.map_values(|e: (i32, Vec<u8>)| (e.0, e.1@))
    }

    /// The mathematical map this frame holds.
    pub closed spec fn view(&self) -> Map<i32, Seq<u8>> {
        entry_map_of(self.entries_view())
    }

    /// The number of entries.
    pub closed spec fn spec_len(&self) -> nat {
        self.entries@.len()
    }

    /// Keys occur at most once.
    pub open spec fn wf(&self) -> bool {
        unique_keys(self.entries_view())
    }

    /// An empty frame.
    pub fn new() -> (r: BlvMap)
        ensures
            r@ == Map::<i32, Seq<u8>>::empty(),
            r.entries_view() == Seq::<(i32, Seq<u8>)>::empty(),
            r.wf(),
            r.spec_len() == 0,
    {
        let r = BlvMap { entries: Vec::new() };
        proof {
            assert(r.entries_view() =~= Seq::<(i32, Seq<u8>)>::empty());
        }
        r
    }

    /// Binds `key` to `value`: in place where the key is already bound,
    /// appended otherwise.
    pub fn insert(&mut self, key: i32, value: Vec<u8>)
        requires
            old(self).wf(),
        ensures
            final(self).wf(),
            final(self)@ == old(self)@.insert(key, value@),
            final(self).entries_view() == insert_entry(old(self).entries_view(), key, value@),
    {
        proof {
            lemma_insert_entry(old(self).entries_view(), key, value@);
        }
        let n = self.entries.len();
        let mut i: usize = 0;
        while i < n
            invariant
                self == old(self),
                old(self).wf(),
                n == self.entries@.len(),
                i <= n,
                forall|j: int| 0 <= j < i ==> (#[trigger] self.entries@[j]).0 != key,
            decreases n - i,
        {
            if self.entries[i].0 == key {
                let ghost old_view = self.entries_view();
                self.entries[i] = (key, value);
                proof {
                    assert(old_view == old(self).entries_view());
                    assert(unique_keys(old_view));
                    lemma_insert_entry(old_view, key, value@);
                    assert(old_view[i as int].0 == key);
                    assert(seq_has_key(old_view, key));
                    assert forall|j: int| 0 <= j < old_view.len() implies #[trigger] self
                        .entries_view()[j] == (if old_view[j].0 == key {
                        (key, value@)
                    } else {
                        old_view[j]
                    }) by {
                        if j != i {
                            assert(self.entries@[j] == old(self).entries@[j]);
                            if j < i {
                                assert(old_view[j].0 != key);
                            } else {
                                assert(old_view[i as int].0 != old_view[j].0);
                            }
                        }
                    }
                    assert(self.entries_view().len() == insert_entry(old_view, key, value@).len());
                    assert(self.entries_view() =~= insert_entry(old_view, key, value@));
                }
                return ;
            }
            i = i + 1;
        }
        let ghost old_view = self.entries_view();
        self.entries.push((key, value));
        proof {
            assert(!seq_has_key(old_view, key)) by {
                if seq_has_key(old_view, key) {
                    let j = choose|j: int|
                        0 <= j < old_view.len() && (#[trigger] old_view[j]).0 == key;
                    assert(old(self).entries@[j].0 == key);
                }
            }
            assert(self.entries_view() =~= old_view.push((key, value@)));
            assert(self.entries_view() =~= insert_entry(old_view, key, value@));
        }
    }

    /// The value bound to `key`, if any.
    pub fn get(&self, key: &i32) -> (r: Option<&Vec<u8>>)
        requires
            self.wf(),
        ensures
            match r {
                Some(v) => self@.contains_key(*key) && v@ == self@[*key],
                None => !self@.contains_key(*key),
            },
    {
        proof {
            lemma_entry_map_keys(self.entries_view());
            lemma_entry_map_at(self.entries_view());
        }
        let n = self.entries.len();
        let mut i: usize = 0;
        while i < n
            invariant
                self.wf(),
                n == self.entries@.len(),
                i <= n,
                forall|j: int| 0 <= j < i ==> (#[trigger] self.entries@[j]).0 != *key,
            decreases n - i,
        {
            if self.entries[i].0 == *key {
                proof {
                    lemma_entry_map_keys(self.entries_view());
                    lemma_entry_map_at(self.entries_view());
                    assert(self.entries_view()[i as int].0 == *key);
                }
                return Some(&self.entries[i].1);
            }
            i = i + 1;
        }
        proof {
            lemma_entry_map_keys(self.entries_view());
            assert(!seq_has_key(self.entries_view(), *key)) by {
                if seq_has_key(self.entries_view(), *key) {
                    let j = choose|j: int|
                        0 <= j < self.entries_view().len() && (#[trigger] self.entries_view()[j]).0
                            == *key;
                    assert(self.entries@[j].0 == *key);
                }
            }
        }
        None
    }

    /// Whether `key` is bound.
    pub fn contains_key(&self, key: &i32) -> (r: bool)
        requires
            self.wf(),
        ensures
            r == self@.contains_key(*key),
    {
        match self.get(key) {
            Some(_) => true,
            None => false,
        }
    }

    /// The number of entries.
    pub fn len(&self) -> (r: usize)
        ensures
            r == self.spec_len(),
    {
        self.entries.len()
    }

    /// How the frame's map and size read off its entry sequence.
    pub proof fn lemma_view(&self)
        ensures
            self@ == entry_map_of(self.entries_view()),
            self.spec_len() == self.entries_view().len(),
    {
    }

    /// The entry at an index, for walking the frame in its fixed order.
    pub fn entry_at(&self, i: usize) -> (r: (i32, &Vec<u8>))
        requires
            i < self.spec_len(),
        ensures
            r.0 == self.entries_view()[i as int].0,
            r.1@ == self.entries_view()[i as int].1,
    {
        let e = &self.entries[i];
        (e.0, &e.1)
    }
}

} // verus!
