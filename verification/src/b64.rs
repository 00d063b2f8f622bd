//! Standard base64, specified from first principles.
//!
//! The outside base64 engine does the byte shuffling; this module pins its
//! behaviour down with a spec-level encoder, proves that encoder injective,
//! and wraps the two engine calls in trusted items whose contracts speak
//! only of the spec encoder.

use vstd::prelude::*;

use base64::Engine;

verus! {

/// The byte value of `'='`, the base64 padding character.
pub const PAD_BYTE: u8 = 61;

/// The largest input length the base64 engine can encode without its
/// output length overflowing `usize`.
pub const B64_MAX_INPUT: usize = 0xBFFF_FFFD;

/// The standard base64 alphabet: the character standing for sextet `i`.
pub open spec fn sextet_char(i: u8) -> u8
    recommends
        i < 64,
{
    if i < 26 {
        (65 + i) as u8  // 'A'..'Z'
    } else if i < 52 {
        (97 + (i - 26)) as u8  // 'a'..'z'
    } else if i < 62 {
        (48 + (i - 52)) as u8  // '0'..'9'
    } else if i == 62 {
        43u8  // '+'
    } else {
        47u8  // '/'
    }
}

/// The sextet a standard-alphabet character stands for, or -1 when the
/// byte is not in the alphabet.
pub open spec fn char_sextet(c: u8) -> int {
    if 65 <= c && c <= 90 {
        c - 65
    } else if 97 <= c && c <= 122 {
        26 + (c - 97)
    } else if 48 <= c && c <= 57 {
        52 + (c - 48)
    } else if c == 43 {
        62int
    } else if c == 47 {
        63int
    } else {
        -1int
    }
}

/// The executable form of `sextet_char`.
pub fn sextet_char_exec(i: u8) -> (r: u8)
    requires
        i < 64,
    ensures
        r == sextet_char(i),
{
    if i < 26 {
        65 + i
    } else if i < 52 {
        97 + (i - 26)
    } else if i < 62 {
        48 + (i - 52)
    } else if i == 62 {
        43
    } else {
        47
    }
}

/// The standard alphabet and its reading-back function invert each other,
/// and `'='` is not an alphabet character.
pub proof fn lemma_std_alphabet()
    ensures
        forall|i: u8| i < 64 ==> char_sextet(#[trigger] sextet_char(i)) == i,
        forall|c: u8| -1 <= #[trigger] char_sextet(c) < 64,
        forall|c: u8| #[trigger] char_sextet(c) >= 0 ==> sextet_char(char_sextet(c) as u8) == c,
        char_sextet(PAD_BYTE) == -1,
{
}

/// The four characters encoding one full three-byte group.
pub open spec fn enc_group3(b0: u8, b1: u8, b2: u8) -> Seq<u8> {
    seq![
        sextet_char(b0 >> 2),
        sextet_char(((b0 & 3) << 4) | (b1 >> 4)),
        sextet_char(((b1 & 15) << 2) | (b2 >> 6)),
        sextet_char(b2 & 63),
    ]
}

/// The four characters encoding a trailing two-byte group, `'='`-padded.
pub open spec fn enc_tail2(b0: u8, b1: u8) -> Seq<u8> {
    seq![
        sextet_char(b0 >> 2),
        sextet_char(((b0 & 3) << 4) | (b1 >> 4)),
        sextet_char((b1 & 15) << 2),
        PAD_BYTE,
    ]
}

/// The four characters encoding a trailing one-byte group, `'='`-padded.
pub open spec fn enc_tail1(b0: u8) -> Seq<u8> {
    seq![sextet_char(b0 >> 2), sextet_char((b0 & 3) << 4), PAD_BYTE, PAD_BYTE]
}

/// Canonical padded base64 of a byte string: what the standard engine
/// emits, group of three by group of three from the front.
pub open spec fn b64_encode_spec(s: Seq<u8>) -> Seq<u8>
    decreases s.len(),
{
    if s.len() == 0 {
        Seq::empty()
    } else if s.len() == 1 {
        enc_tail1(s[0])
    } else if s.len() == 2 {
        enc_tail2(s[0], s[1])
    } else {
        enc_group3(s[0], s[1], s[2]) + b64_encode_spec(s.skip(3))
    }
}

/// The encoding is four characters for every started group of three bytes.
pub proof fn lemma_encode_len(s: Seq<u8>)
    ensures
        b64_encode_spec(s).len() == 4 * ((s.len() + 2) / 3),
    decreases s.len(),
{
    if s.len() >= 3 {
        lemma_encode_len(s.skip(3));
    }
}

/// All the sextets fed to `sextet_char` by the three encoding shapes are
/// below 64.
proof fn lemma_sextet_bounds(b0: u8, b1: u8, b2: u8)
    ensures
        b0 >> 2 < 64,
        ((b0 & 3) << 4) | (b1 >> 4) < 64,
        ((b1 & 15) << 2) | (b2 >> 6) < 64,
        b2 & 63 < 64,
        (b0 & 3) << 4 < 64,
        (b1 & 15) << 2 < 64,
{
    assert(b0 >> 2 < 64 && ((b0 & 3) << 4) | (b1 >> 4) < 64 && ((b1 & 15) << 2) | (b2 >> 6) < 64
        && b2 & 63 < 64 && (b0 & 3) << 4 < 64 && (b1 & 15) << 2 < 64) by (bit_vector);
}

/// Every byte of an encoding is either an alphabet character or `'='`.
pub proof fn lemma_encode_chars(s: Seq<u8>)
    ensures
        forall|i: int|
            0 <= i < b64_encode_spec(s).len() ==> char_sextet(#[trigger] b64_encode_spec(s)[i])
                >= 0 || b64_encode_spec(s)[i] == PAD_BYTE,
    decreases s.len(),
{
    lemma_std_alphabet();
    if s.len() == 0 {
    } else if s.len() == 1 {
        lemma_sextet_bounds(s[0], 0, 0);
    } else if s.len() == 2 {
        lemma_sextet_bounds(s[0], s[1], 0);
    } else {
        lemma_sextet_bounds(s[0], s[1], s[2]);
        lemma_encode_chars(s.skip(3));
        assert forall|i: int| 0 <= i < b64_encode_spec(s).len() implies char_sextet(
            #[trigger] b64_encode_spec(s)[i],
        ) >= 0 || b64_encode_spec(s)[i] == PAD_BYTE by {
            if i >= 4 {
                assert(b64_encode_spec(s)[i] == b64_encode_spec(s.skip(3))[i - 4]);
            }
        }
    }
}

/// Two distinct sextets are written as two distinct characters.
proof fn lemma_sextet_char_injective(x: u8, y: u8)
    requires
        x < 64,
        y < 64,
        sextet_char(x) == sextet_char(y),
    ensures
        x == y,
{
    lemma_std_alphabet();
    assert(char_sextet(sextet_char(x)) == x);
}

/// An alphabet character is never the padding character.
proof fn lemma_sextet_char_not_pad(x: u8)
    requires
        x < 64,
    ensures
        sextet_char(x) != PAD_BYTE,
{
    lemma_std_alphabet();
    assert(char_sextet(sextet_char(x)) == x);
    assert(char_sextet(PAD_BYTE) == -1);
}

/// A full group is recovered from its four sextets.
proof fn lemma_group3_recover(a0: u8, a1: u8, a2: u8, b0: u8, b1: u8, b2: u8)
    requires
        a0 >> 2 == b0 >> 2,
        ((a0 & 3) << 4) | (a1 >> 4) == ((b0 & 3) << 4) | (b1 >> 4),
        ((a1 & 15) << 2) | (a2 >> 6) == ((b1 & 15) << 2) | (b2 >> 6),
        a2 & 63 == b2 & 63,
    ensures
        a0 == b0,
        a1 == b1,
        a2 == b2,
{
    assert(a0 == b0 && a1 == b1 && a2 == b2) by (bit_vector)
        requires
            a0 >> 2 == b0 >> 2,
            ((a0 & 3) << 4) | (a1 >> 4) == ((b0 & 3) << 4) | (b1 >> 4),
            ((a1 & 15) << 2) | (a2 >> 6) == ((b1 & 15) << 2) | (b2 >> 6),
            a2 & 63 == b2 & 63,
    ;
}

/// A two-byte tail is recovered from its three sextets.
proof fn lemma_tail2_recover(a0: u8, a1: u8, b0: u8, b1: u8)
    requires
        a0 >> 2 == b0 >> 2,
        ((a0 & 3) << 4) | (a1 >> 4) == ((b0 & 3) << 4) | (b1 >> 4),
        (a1 & 15) << 2 == (b1 & 15) << 2,
    ensures
        a0 == b0,
        a1 == b1,
{
    assert(a0 == b0 && a1 == b1) by (bit_vector)
        requires
            a0 >> 2 == b0 >> 2,
            ((a0 & 3) << 4) | (a1 >> 4) == ((b0 & 3) << 4) | (b1 >> 4),
            (a1 & 15) << 2 == (b1 & 15) << 2,
    ;
}

/// A one-byte tail is recovered from its two sextets.
proof fn lemma_tail1_recover(a0: u8, b0: u8)
    requires
        a0 >> 2 == b0 >> 2,
        (a0 & 3) << 4 == (b0 & 3) << 4,
    ensures
        a0 == b0,
{
    assert(a0 == b0) by (bit_vector)
        requires
            a0 >> 2 == b0 >> 2,
            (a0 & 3) << 4 == (b0 & 3) << 4,
    ;
}

/// Canonical base64 encoding is injective: equal encodings come from
/// equal byte strings.
pub proof fn lemma_encode_injective(a: Seq<u8>, b: Seq<u8>)
    requires
        b64_encode_spec(a) == b64_encode_spec(b),
    ensures
        a == b,
    decreases a.len(),
{
    lemma_encode_len(a);
    lemma_encode_len(b);
    if a.len() == 0 {
        assert(b.len() == 0);
        assert(a =~= b);
    } else if b.len() == 0 {
        assert(a.len() == 0);
        assert(a =~= b);
    } else {
        let ea = b64_encode_spec(a);
        let eb = b64_encode_spec(b);
        lemma_sextet_bounds(a[0], if a.len() >= 2 { a[1] } else { 0 }, if a.len() >= 3 { a[2] } else { 0 });
        lemma_sextet_bounds(b[0], if b.len() >= 2 { b[1] } else { 0 }, if b.len() >= 3 { b[2] } else { 0 });
        // The padding pattern in characters 2 and 3 separates the three
        // encoding shapes.
        if a.len() == 1 {
            if b.len() == 2 {
                lemma_sextet_char_not_pad((b[1] & 15) << 2);
                assert(ea[2] == eb[2]);
                assert(false);
            } else if b.len() >= 3 {
                lemma_sextet_char_not_pad(b[2] & 63);
                assert(ea[3] == eb[3]);
                assert(false);
            }
            assert(b.len() == 1);
            assert(ea[0] == eb[0] && ea[1] == eb[1]);
            lemma_sextet_char_injective(a[0] >> 2, b[0] >> 2);
            lemma_sextet_char_injective((a[0] & 3) << 4, (b[0] & 3) << 4);
            lemma_tail1_recover(a[0], b[0]);
            assert(a =~= b);
        } else if a.len() == 2 {
            if b.len() == 1 {
                lemma_sextet_char_not_pad((a[1] & 15) << 2);
                assert(ea[2] == eb[2]);
                assert(false);
            } else if b.len() >= 3 {
                lemma_sextet_char_not_pad(b[2] & 63);
                assert(ea[3] == eb[3]);
                assert(false);
            }
            assert(b.len() == 2);
            assert(ea[0] == eb[0] && ea[1] == eb[1] && ea[2] == eb[2]);
            lemma_sextet_char_injective(a[0] >> 2, b[0] >> 2);
            lemma_sextet_char_injective(((a[0] & 3) << 4) | (a[1] >> 4), ((b[0] & 3) << 4) | (b[1] >> 4));
            lemma_sextet_char_injective((a[1] & 15) << 2, (b[1] & 15) << 2);
            lemma_tail2_recover(a[0], a[1], b[0], b[1]);
            assert(a =~= b);
        } else {
            if b.len() == 1 {
                lemma_sextet_char_not_pad(a[2] & 63);
                assert(ea[3] == eb[3]);
                assert(false);
            } else if b.len() == 2 {
                lemma_sextet_char_not_pad(a[2] & 63);
                assert(ea[3] == eb[3]);
                assert(false);
            }
            assert(b.len() >= 3);
            assert(ea[0] == eb[0] && ea[1] == eb[1] && ea[2] == eb[2] && ea[3] == eb[3]);
            lemma_sextet_char_injective(a[0] >> 2, b[0] >> 2);
            lemma_sextet_char_injective(((a[0] & 3) << 4) | (a[1] >> 4), ((b[0] & 3) << 4) | (b[1] >> 4));
            lemma_sextet_char_injective(((a[1] & 15) << 2) | (a[2] >> 6), ((b[1] & 15) << 2) | (b[2] >> 6));
            lemma_sextet_char_injective(a[2] & 63, b[2] & 63);
            lemma_group3_recover(a[0], a[1], a[2], b[0], b[1], b[2]);
            assert(b64_encode_spec(a).skip(4) =~= b64_encode_spec(a.skip(3)));
            assert(b64_encode_spec(b).skip(4) =~= b64_encode_spec(b.skip(3)));
            assert(b64_encode_spec(a.skip(3)) =~= b64_encode_spec(b.skip(3)));
            lemma_encode_injective(a.skip(3), b.skip(3));
            assert(a =~= seq![a[0], a[1], a[2]] + a.skip(3));
            assert(b =~= seq![b[0], b[1], b[2]] + b.skip(3));
        }
    }
}

/// Relies on the base64 crate's `STANDARD` engine `encode`: standard
/// alphabet, canonical `'='` padding, groups taken from the front.
#[verifier::external_body]
pub(crate) fn b64_std_encode(data: &[u8]) -> (r: Vec<u8>)
    requires
        data@.len() <= B64_MAX_INPUT,
    ensures
        r@ == b64_encode_spec(data@),
{
    base64::engine::general_purpose::STANDARD.encode(data).into_bytes()
}

/// Relies on the base64 crate's `STANDARD` engine `decode`: it requires
/// canonical padding and zero trailing bits, so it accepts exactly the
/// canonical encodings and returns the bytes they encode.
#[verifier::external_body]
pub(crate) fn b64_std_decode(data: &[u8]) -> (r: Option<Vec<u8>>)
    ensures
        match r {
            Some(v) => b64_encode_spec(v@) == data@,
            None => forall|x: Seq<u8>| b64_encode_spec(x) != data@,
        },
{
    match base64::engine::general_purpose::STANDARD.decode(data) {
        Ok(v) => Some(v),
        Err(_) => None,
    }
}

} // verus!
