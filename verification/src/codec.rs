//! The obfuscated-base64 frame codec.
//!
//! Encoding applies standard base64 and then substitutes each alphabet
//! character through a fixed permutation; decoding substitutes back and
//! decodes. The two substitution tables are built once per codec.

use vstd::prelude::*;

use crate::alphabet::{custom_char, custom_inv, custom_char_exec, deobf_char, obf_char,
    lemma_custom_alphabet, lemma_obf_char_round};
use crate::b64::{b64_encode_spec, b64_std_decode, b64_std_encode, char_sextet, sextet_char,
    sextet_char_exec, lemma_encode_chars, lemma_encode_injective, lemma_std_alphabet, PAD_BYTE,
    B64_MAX_INPUT};
use crate::blv::{biased_len_at, be32_bytes, be32_val, i32_of_u32, insert_entry,
    lemma_encode_entries_snoc, lemma_entry_map_keys, lemma_insert_entry, read_and_decode_length,
    record_spec, seq_has_key, tag_byte, tlv_decode_spec, tlv_encode_entries, values_fit, BlvMap,
    BLV_OFFSET, MAX_VALUE_LEN};
use crate::bytemap::ByteMap;
use crate::errors::NeoError;

use rand::Rng;
use rand::RngExt;

verus! {

/// The tags a frame's fields are keyed by.
#[derive(Debug, Clone, Copy, PartialEq, Eq, Hash, Structural)]
pub enum MessageField {
    /// Payload bytes.
    Data,
    /// The ASCII command verb.
    Cmd,
    /// The client-chosen session identifier.
    Mark,
    /// `OK` or `FAIL` in replies.
    Status,
    /// A human-readable error description.
    Error,
    /// The target host literal of a connect command.
    Ip,
    /// The target port of a connect command, in decimal ASCII.
    Port,
    /// Random padding injected on encode, ignored on decode.
    Random1,
    /// Random padding injected on encode, ignored on decode.
    Random2,
}

impl MessageField {
    /// The tag value this field is keyed by on the wire.
    pub open spec fn tag_spec(self) -> i32 {
        match self {
            MessageField::Data => 1,
            MessageField::Cmd => 2,
            MessageField::Mark => 3,
            MessageField::Status => 4,
            MessageField::Error => 5,
            MessageField::Ip => 6,
            MessageField::Port => 7,
            MessageField::Random1 => 0,
            MessageField::Random2 => 39,
        }
    }

    /// The tag value this field is keyed by on the wire.
    pub fn tag(self) -> (r: i32)
        ensures
            r == self.tag_spec(),
    {
        match self {
            MessageField::Data => 1,
            MessageField::Cmd => 2,
            MessageField::Mark => 3,
            MessageField::Status => 4,
            MessageField::Error => 5,
            MessageField::Ip => 6,
            MessageField::Port => 7,
            MessageField::Random1 => 0,
            MessageField::Random2 => 39,
        }
    }

    /// The field a tag value stands for, or an error for an unassigned tag.
    pub fn try_from(value: i32) -> (r: Result<MessageField, NeoError>)
        ensures
            match r {
                Ok(f) => f.tag_spec() == value,
                Err(e) => e is Other && !(value == 0 || 1 <= value <= 7 || value == 39),
            },
    {
        if value == 1 {
            Ok(MessageField::Data)
        } else if value == 2 {
            Ok(MessageField::Cmd)
        } else if value == 3 {
            Ok(MessageField::Mark)
        } else if value == 4 {
            Ok(MessageField::Status)
        } else if value == 5 {
            Ok(MessageField::Error)
        } else if value == 6 {
            Ok(MessageField::Ip)
        } else if value == 7 {
            Ok(MessageField::Port)
        } else if value == 0 {
            Ok(MessageField::Random1)
        } else if value == 39 {
            Ok(MessageField::Random2)
        } else {
            let mut msg: Vec<u8> = Vec::new();
            // "Invalid message field value"
            msg.push(73);
            msg.push(110);
            msg.push(118);
            msg.push(97);
            msg.push(108);
            msg.push(105);
            msg.push(100);
            msg.push(32);
            msg.push(109);
            msg.push(101);
            msg.push(115);
            msg.push(115);
            msg.push(97);
            msg.push(103);
            msg.push(101);
            msg.push(32);
            msg.push(102);
            msg.push(105);
            msg.push(101);
            msg.push(108);
            msg.push(100);
            msg.push(32);
            msg.push(118);
            msg.push(97);
            msg.push(108);
            msg.push(117);
            msg.push(101);
            Err(NeoError::Other(msg))
        }
    }
}

/// The substitution applied on encode: standard character to custom.
pub open spec fn en_map_spec() -> Map<u8, u8> {
    Map::new(|c: u8| char_sextet(c) >= 0, |c: u8| custom_char(char_sextet(c) as u8))
}

/// The substitution applied on decode: custom character to standard.
pub open spec fn de_map_spec() -> Map<u8, u8> {
    Map::new(|c: u8| custom_inv(c) >= 0, |c: u8| sextet_char(custom_inv(c) as u8))
}

/// The full obfuscated encoding of a byte string.
pub open spec fn obf_encode_spec(s: Seq<u8>) -> Seq<u8> {
    b64_encode_spec(s).map_values(|b: u8| obf_char(b))
}

/// The de-obfuscating substitution applied to a whole payload.
pub open spec fn deobf_spec(s: Seq<u8>) -> Seq<u8> {
    s.map_values(|b: u8| deobf_char(b))
}

/// The obfuscated-base64 codec.
#[derive(Clone)]
pub struct Codec {
    en_map: ByteMap,
    de_map: ByteMap,
}

impl Codec {
    /// The two substitution tables hold exactly the fixed permutation.
    pub closed spec fn wf(&self) -> bool {
        &&& self.en_map.wf()
        &&& self.de_map.wf()
        &&& self.en_map@ == en_map_spec()
        &&& self.de_map@ == de_map_spec()
    }

    /// Builds the two substitution tables: standard-to-custom and its
    /// inverse, one entry per alphabet index.
    pub fn build_maps() -> (r: (ByteMap, ByteMap))
        ensures
            r.0.wf(),
            r.1.wf(),
            r.0@ == en_map_spec(),
            r.1@ == de_map_spec(),
            r.0.spec_len() == 64,
            r.1.spec_len() == 64,
    {
        proof {
            lemma_std_alphabet();
            lemma_custom_alphabet();
        }
        let mut en_map = ByteMap::new();
        let mut de_map = ByteMap::new();
        let mut i: u8 = 0;
        while i < 64
            invariant
                en_map.wf(),
                de_map.wf(),
                i <= 64,
                en_map.spec_len() == i,
                de_map.spec_len() == i,
                en_map@ == Map::new(
                    |c: u8| 0 <= char_sextet(c) < i,
                    |c: u8| custom_char(char_sextet(c) as u8),
                ),
                de_map@ == Map::new(
                    |c: u8| 0 <= custom_inv(c) < i,
                    |c: u8| sextet_char(custom_inv(c) as u8),
                ),
            decreases 64 - i,
        {
            let ghost en_before = en_map@;
            let ghost de_before = de_map@;
            let std_c = sextet_char_exec(i);
            let cus_c = custom_char_exec(i);
            en_map.insert(std_c, cus_c);
            de_map.insert(cus_c, std_c);
            proof {
                lemma_std_alphabet();
                lemma_custom_alphabet();
                assert(char_sextet(std_c) == i);
                assert(custom_inv(cus_c) == i);
                assert(!en_before.contains_key(std_c));
                assert(!de_before.contains_key(cus_c));
                assert(en_map@ =~= Map::new(
                    |c: u8| 0 <= char_sextet(c) < i + 1,
                    |c: u8| custom_char(char_sextet(c) as u8),
                ));
                assert(de_map@ =~= Map::new(
                    |c: u8| 0 <= custom_inv(c) < i + 1,
                    |c: u8| sextet_char(custom_inv(c) as u8),
                ));
            }
            i = i + 1;
        }
        proof {
            lemma_std_alphabet();
            lemma_custom_alphabet();
            assert(en_map@ =~= en_map_spec());
            assert(de_map@ =~= de_map_spec());
        }
        (en_map, de_map)
    }

    /// A codec holding the fixed substitution tables.
    pub fn new() -> (r: Codec)
        ensures
            r.wf(),
    {
        let (en_map, de_map) = Self::build_maps();
        Codec { en_map, de_map }
    }

    /// Standard base64, then the obfuscating substitution, character by
    /// character.
    pub fn base64_encode(&self, rawdata: &[u8]) -> (r: Vec<u8>)
        requires
            self.wf(),
            rawdata@.len() <= B64_MAX_INPUT,
        ensures
            r@ == obf_encode_spec(rawdata@),
    {
        let encoded = b64_std_encode(rawdata);
        let n = encoded.len();
        let mut out: Vec<u8> = Vec::new();
        let mut i: usize = 0;
        while i < n
            invariant
                self.wf(),
                n == encoded@.len(),
                i <= n,
                encoded@ == b64_encode_spec(rawdata@),
                out@ == b64_encode_spec(rawdata@).map_values(|b: u8| obf_char(b)).take(i as int),
            decreases n - i,
        {
            let mapped = self.en_map.map_byte(encoded[i]);
            proof {
                assert(en_map_spec().contains_key(encoded@[i as int]) <==> char_sextet(
                    encoded@[i as int],
                ) >= 0);
                assert(mapped == obf_char(encoded@[i as int]));
            }
            out.push(mapped);
            i = i + 1;
            proof {
                assert(out@ =~= b64_encode_spec(rawdata@).map_values(|b: u8| obf_char(b)).take(
                    i as int,
                ));
            }
        }
        proof {
            assert(out@ =~= obf_encode_spec(rawdata@));
        }
        out
    }

    /// The de-obfuscating substitution, then standard base64 decoding.
    ///
    /// Exactly the outputs of [`Codec::base64_encode`] (and any other
    /// canonical obfuscated encoding) decode; everything else is a
    /// `Base64Decode` error.
    pub fn base64_decode(&self, data: &[u8]) -> (r: Result<Vec<u8>, NeoError>)
        requires
            self.wf(),
        ensures
            match r {
                Ok(v) => b64_encode_spec(v@) == deobf_spec(data@),
                Err(e) => e is Base64Decode && forall|x: Seq<u8>|
                    b64_encode_spec(x) != deobf_spec(data@),
            },
            forall|x: Seq<u8>| data@ == obf_encode_spec(x) ==> r is Ok && r->Ok_0@ == x,
    {
        let n = data.len();
        let mut mapped: Vec<u8> = Vec::new();
        let mut i: usize = 0;
        while i < n
            invariant
                self.wf(),
                n == data@.len(),
                i <= n,
                mapped@ == deobf_spec(data@.take(i as int)),
            decreases n - i,
        {
            let m = self.de_map.map_byte(data[i]);
            proof {
                assert(de_map_spec().contains_key(data@[i as int]) <==> custom_inv(
                    data@[i as int],
                ) >= 0);
                assert(m == deobf_char(data@[i as int]));
            }
            mapped.push(m);
            i = i + 1;
            proof {
                assert(mapped@ =~= deobf_spec(data@.take(i as int)));
            }
        }
        proof {
            assert(data@.take(n as int) =~= data@);
            assert(mapped@ =~= deobf_spec(data@));
        }
        let r = match b64_std_decode(mapped.as_slice()) {
            Some(v) => Ok(v),
            None => Err(NeoError::Base64Decode),
        };
        proof {
            assert forall|x: Seq<u8>| data@ == obf_encode_spec(x) implies r is Ok && r->Ok_0@
                == x by {
                lemma_deobf_of_obf_encode(x);
                assert(deobf_spec(data@) == b64_encode_spec(x));
                match r {
                    Ok(v) => {
                        lemma_encode_injective(v@, x);
                    },
                    Err(_) => {
                        assert(b64_encode_spec(x) == deobf_spec(data@));
                        assert(false);
                    },
                }
            }
        }
        r
    }
}

/// Appends one record to `out`: the tag byte, the biased length
/// big-endian, the value.
fn emit_record(out: &mut Vec<u8>, tag: i32, v: &Vec<u8>)
    requires
        v@.len() <= MAX_VALUE_LEN,
    ensures
        final(out)@ == old(out)@ + record_spec(tag, v@),
{
    proof {
        assert(0 <= tag & 0xff < 256) by (bit_vector);
    }
    out.push((tag & 0xff) as u8);
    let n: u32 = (v.len() as u32) + 1966546385u32;
    let ghost nspec = ((v@.len() + BLV_OFFSET) as u32);
    proof {
        assert(n == nspec);
        assert((n >> 24) < 256 && ((n >> 16) & 0xff) < 256 && ((n >> 8) & 0xff) < 256 && (n
            & 0xff) < 256) by (bit_vector);
    }
    out.push((n >> 24) as u8);
    out.push(((n >> 16) & 0xff) as u8);
    out.push(((n >> 8) & 0xff) as u8);
    out.push((n & 0xff) as u8);
    proof {
        assert(out@ =~= old(out)@ + seq![tag_byte(tag)] + be32_bytes(nspec));
    }
    let ghost header = old(out)@ + seq![tag_byte(tag)] + be32_bytes(nspec);
    let m = v.len();
    let mut j: usize = 0;
    while j < m
        invariant
            m == v@.len(),
            j <= m,
            out@ == header + v@.take(j as int),
        decreases m - j,
    {
        out.push(v[j]);
        j = j + 1;
        proof {
            assert(out@ =~= header + v@.take(j as int));
        }
    }
    proof {
        assert(v@.take(m as int) =~= v@);
        assert(out@ =~= old(out)@ + record_spec(tag, v@));
    }
}

impl Codec {
    /// Relies on the rand crate's thread-local generator `rand::rng()`:
    /// `RngExt::random_range(5..20)` draws a length uniformly in
    /// [5, 20), and `Rng::fill_bytes` fills the buffer with random
    /// bytes.
    #[verifier::external_body]
    pub fn rand_byte() -> (r: Vec<u8>)
        ensures
            5 <= r@.len() < 20,
    {
        let mut rng = rand::rng();
        let length = rng.random_range(5..20);
        let mut data = vec![0u8; length];
        rng.fill_bytes(&mut data);
        data
    }

    /// Encodes a frame: fresh random padding is bound under tags 0 and
    /// 39 (overwriting either if the caller bound it), and every entry
    /// is written as a record, in the frame's own order.
    pub fn blv_encode(&self, info: &BlvMap) -> (r: Vec<u8>)
        requires
            info.wf(),
            values_fit(info.entries_view()),
        ensures
            exists|p0: Seq<u8>, p39: Seq<u8>|
                {
                    &&& 5 <= p0.len() < 20
                    &&& 5 <= p39.len() < 20
                    &&& r@ == tlv_encode_entries(
                        insert_entry(insert_entry(info.entries_view(), 0, p0), 39, p39),
                    )
                },
    {
        let pad0 = Self::rand_byte();
        let pad39 = Self::rand_byte();
        let ghost es0 = info.entries_view();
        let ghost es1 = insert_entry(es0, 0, pad0@);
        let ghost es2 = insert_entry(es1, 39, pad39@);
        proof {
            info.lemma_view();
            lemma_insert_entry(es0, 0, pad0@);
            lemma_insert_entry(es1, 39, pad39@);
            lemma_entry_map_keys(es0);
        }
        let has0 = info.contains_key(&0);
        let has39 = info.contains_key(&39);
        // membership of tag 39 carries over from the frame to `es1`:
        // rebinding tag 0 never touches a tag-39 entry
        proof {
            if seq_has_key(es0, 39) {
                let i = choose|i: int| 0 <= i < es0.len() && (#[trigger] es0[i]).0 == 39;
                if seq_has_key(es0, 0) {
                    assert(es1[i].0 == 39);
                } else {
                    assert(es1[i] == es0[i]);
                }
                assert(seq_has_key(es1, 39));
            }
            if !seq_has_key(es0, 39) && seq_has_key(es1, 39) {
                let i = choose|i: int| 0 <= i < es1.len() && (#[trigger] es1[i]).0 == 39;
                if seq_has_key(es0, 0) {
                    assert(es1[i] == (if es0[i].0 == 0 {
                        (0int as i32, pad0@)
                    } else {
                        es0[i]
                    }));
                    assert(false);
                } else {
                    if i < es0.len() {
                        assert(es1[i] == es0[i]);
                        assert(false);
                    } else {
                        assert(es1[i] == (0int as i32, pad0@));
                        assert(false);
                    }
                }
            }
            assert(seq_has_key(es1, 39) <==> seq_has_key(es0, 39));
        }
        let n = info.len();
        proof {
            info.lemma_view();
        }
        let mut out: Vec<u8> = Vec::new();
        let ghost mut emitted = Seq::<(i32, Seq<u8>)>::empty();
        let mut i: usize = 0;
        while i < n
            invariant
                info.wf(),
                values_fit(info.entries_view()),
                5 <= pad0@.len() < 20,
                5 <= pad39@.len() < 20,
                n == info.spec_len(),
                n == info.entries_view().len(),
                i <= n,
                emitted.len() == i,
                forall|j: int|
                    0 <= j < i ==> #[trigger] emitted[j] == (if info.entries_view()[j].0 == 0 {
                        (0int as i32, pad0@)
                    } else if info.entries_view()[j].0 == 39 {
                        (39int as i32, pad39@)
                    } else {
                        info.entries_view()[j]
                    }),
                out@ == tlv_encode_entries(emitted),
            decreases n - i,
        {
            let (t, v) = info.entry_at(i);
            if t == 0 {
                emit_record(&mut out, 0, &pad0);
                proof {
                    lemma_encode_entries_snoc(emitted, (0int as i32, pad0@));
                    emitted = emitted.push((0int as i32, pad0@));
                }
            } else if t == 39 {
                emit_record(&mut out, 39, &pad39);
                proof {
                    lemma_encode_entries_snoc(emitted, (39int as i32, pad39@));
                    emitted = emitted.push((39int as i32, pad39@));
                }
            } else {
                proof {
                    info.lemma_view();
                    assert(info.entries_view()[i as int].1.len() <= MAX_VALUE_LEN);
                }
                emit_record(&mut out, t, v);
                proof {
                    lemma_encode_entries_snoc(emitted, (t, v@));
                    emitted = emitted.push((t, v@));
                }
            }
            i = i + 1;
        }
        if !has0 {
            emit_record(&mut out, 0, &pad0);
            proof {
                lemma_encode_entries_snoc(emitted, (0int as i32, pad0@));
                emitted = emitted.push((0int as i32, pad0@));
            }
        }
        if !has39 {
            emit_record(&mut out, 39, &pad39);
            proof {
                lemma_encode_entries_snoc(emitted, (39int as i32, pad39@));
                emitted = emitted.push((39int as i32, pad39@));
            }
        }
        proof {
            info.lemma_view();
            lemma_entry_map_keys(es0);
            lemma_insert_entry(es0, 0, pad0@);
            lemma_insert_entry(es1, 39, pad39@);
            assert(seq_has_key(es0, 0) <==> has0);
            assert(seq_has_key(es0, 39) <==> has39);
            assert forall|j: int| 0 <= j < emitted.len() implies #[trigger] emitted[j]
                == es2[j] by {
                if j < es0.len() {
                    if has0 {
                        assert(es1[j] == (if es0[j].0 == 0 {
                            (0int as i32, pad0@)
                        } else {
                            es0[j]
                        }));
                    } else {
                        assert(es1[j] == es0[j]);
                    }
                    if has39 {
                        assert(es2[j] == (if es1[j].0 == 39 {
                            (39int as i32, pad39@)
                        } else {
                            es1[j]
                        }));
                    } else {
                        assert(es2[j] == es1[j]);
                    }
                } else if j == es0.len() {
                    if !has0 {
                        assert(es1 == es0.push((0int as i32, pad0@)));
                        assert(es1[j] == (0int as i32, pad0@));
                        if has39 {
                            assert(es2[j] == (if es1[j].0 == 39 {
                                (39int as i32, pad39@)
                            } else {
                                es1[j]
                            }));
                        } else {
                            assert(es2 == es1.push((39int as i32, pad39@)));
                            assert(es2[j] == es1[j]);
                        }
                        assert(es2[j] == (0int as i32, pad0@));
                    } else {
                        // with tag 0 rebound in place, an entry at this
                        // index can only be the appended tag-39 padding
                        assert(es1.len() == es0.len());
                        assert(!has39);
                        assert(es2 == es1.push((39int as i32, pad39@)));
                        assert(es2[j] == (39int as i32, pad39@));
                    }
                } else {
                    assert(!has0 && !has39);
                    assert(es2 == es1.push((39int as i32, pad39@)));
                    assert(es2[j] == (39int as i32, pad39@));
                }
            }
            assert(emitted.len() == es2.len());
            assert(emitted =~= es2);
            assert(out@ == tlv_encode_entries(es2));
        }
        out
    }

    /// Decodes a frame into a map, reading records from the front and
    /// stopping quietly at the first truncated or implausible one.
    pub fn blv_decode(&self, data: &[u8]) -> (r: BlvMap)
        ensures
            r.wf(),
            r@ == tlv_decode_spec(data@),
    {
        let mut info = BlvMap::new();
        let mut cursor: usize = 0;
        let mut stop = false;
        proof {
            assert(Map::<i32, Seq<u8>>::empty().union_prefer_right(tlv_decode_spec(data@))
                =~= tlv_decode_spec(data@));
            assert(data@.skip(0) =~= data@);
        }
        while !stop && cursor < data.len()
            invariant
                info.wf(),
                cursor <= data@.len(),
                !stop ==> tlv_decode_spec(data@) == info@.union_prefer_right(
                    tlv_decode_spec(data@.skip(cursor as int)),
                ),
                stop ==> tlv_decode_spec(data@) == info@,
            decreases data@.len() - cursor, (if stop {
                0int
            } else {
                1int
            }),
        {
            let ghost c0 = cursor as int;
            let ghost rem = data@.skip(c0);
            proof {
                assert(rem.len() == data@.len() - c0);
                assert forall|k: int| 0 <= k < rem.len() implies #[trigger] rem[k] == data@[c0
                    + k] by {}
            }
            let b = data[cursor] as i32;
            cursor = cursor + 1;
            match read_and_decode_length(data, &mut cursor) {
                Ok(l) => {
                    if l > data.len() - cursor {
                        proof {
                            assert(rem.len() >= 5);
                            assert(rem[0] as i32 == b);
                            assert(biased_len_at(data@, c0 + 1) == i32_of_u32(
                                be32_val(rem[1], rem[2], rem[3], rem[4]),
                            ) - BLV_OFFSET);
                            assert(5 + (l as int) > rem.len());
                            assert(tlv_decode_spec(rem) =~= Map::<i32, Seq<u8>>::empty());
                            assert(info@.union_prefer_right(Map::<i32, Seq<u8>>::empty())
                                =~= info@);
                        }
                        stop = true;
                    } else {
                        let ghost lspec = l as int;
                        let start = cursor;
                        let dlen = data.len();
                        let mut v: Vec<u8> = Vec::new();
                        let mut j: usize = 0;
                        while j < l
                            invariant
                                dlen == data@.len(),
                                start + l <= dlen,
                                j <= l,
                                v@ == data@.subrange(start as int, start as int + j as int),
                            decreases l - j,
                        {
                            v.push(data[start + j]);
                            j = j + 1;
                            proof {
                                assert(v@ =~= data@.subrange(
                                    start as int,
                                    start as int + j as int,
                                ));
                            }
                        }
                        cursor = cursor + l;
                        let ghost before = info@;
                        info.insert(b, v);
                        proof {
                            assert(rem.len() >= 5);
                            assert(rem[0] as i32 == b);
                            let ghost lrem = i32_of_u32(be32_val(rem[1], rem[2], rem[3], rem[4]))
                                - BLV_OFFSET;
                            assert(lrem == biased_len_at(data@, c0 + 1));
                            assert(lrem == lspec);
                            assert(5 + lspec <= rem.len());
                            assert(tlv_decode_spec(rem) == map![b => rem.subrange(
                                5,
                                5 + lspec,
                            )].union_prefer_right(tlv_decode_spec(rem.skip(5 + lspec))));
                            assert(v@ =~= rem.subrange(5, 5 + lspec));
                            assert(data@.skip(cursor as int) =~= rem.skip(5 + lspec));
                            assert(before.union_prefer_right(
                                map![b => v@].union_prefer_right(
                                    tlv_decode_spec(data@.skip(cursor as int)),
                                ),
                            ) =~= before.insert(b, v@).union_prefer_right(
                                tlv_decode_spec(data@.skip(cursor as int)),
                            ));
                        }
                    }
                },
                Err(_) => {
                    proof {
                        if c0 + 1 + 4 > data@.len() {
                            assert(rem.len() < 5);
                            assert(tlv_decode_spec(rem) =~= Map::<i32, Seq<u8>>::empty());
                        } else {
                            assert(rem.len() >= 5);
                            assert(biased_len_at(data@, c0 + 1) < 0);
                            assert(i32_of_u32(be32_val(rem[1], rem[2], rem[3], rem[4]))
                                - BLV_OFFSET < 0);
                            assert(tlv_decode_spec(rem) =~= Map::<i32, Seq<u8>>::empty());
                        }
                        assert(info@.union_prefer_right(Map::<i32, Seq<u8>>::empty()) =~= info@);
                    }
                    stop = true;
                },
            }
        }
        proof {
            if !stop {
                assert(data@.skip(cursor as int).len() < 5);
                assert(tlv_decode_spec(data@.skip(cursor as int)) =~= Map::<i32, Seq<u8>>::empty());
                assert(info@.union_prefer_right(Map::<i32, Seq<u8>>::empty()) =~= info@);
            }
        }
        info
    }
}

/// De-obfuscating an obfuscated encoding gives back the standard base64
/// text, byte for byte.
pub proof fn lemma_deobf_of_obf_encode(x: Seq<u8>)
    ensures
        deobf_spec(obf_encode_spec(x)) == b64_encode_spec(x),
{
    lemma_encode_chars(x);
    let enc = b64_encode_spec(x);
    assert forall|i: int| 0 <= i < enc.len() implies deobf_char(obf_char(#[trigger] enc[i]))
        == enc[i] by {
        lemma_obf_char_round(enc[i]);
    }
    assert(deobf_spec(obf_encode_spec(x)) =~= b64_encode_spec(x));
}

/// The codec round trip: decoding inverts encoding on every byte string.
/// De-obfuscation recovers the standard base64 text, and two byte strings
/// with the same obfuscated encoding are equal.
pub proof fn lemma_base64_round_trip(x: Seq<u8>, y: Seq<u8>)
    ensures
        deobf_spec(obf_encode_spec(x)) == b64_encode_spec(x),
        obf_encode_spec(x) == obf_encode_spec(y) ==> x == y,
{
    lemma_deobf_of_obf_encode(x);
    lemma_deobf_of_obf_encode(y);
    if obf_encode_spec(x) == obf_encode_spec(y) {
        assert(b64_encode_spec(x) == b64_encode_spec(y));
        lemma_encode_injective(x, y);
    }
}

} // verus!
