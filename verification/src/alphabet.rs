//! The permuted base64 alphabet and the per-byte obfuscation maps.
//!
//! Obfuscation replaces each standard-alphabet character of a base64 text
//! with the character at the same index of a fixed custom alphabet, and
//! leaves every other byte (notably `'='`) alone; de-obfuscation is the
//! reverse substitution.

use vstd::prelude::*;

use crate::b64::{char_sextet, sextet_char, PAD_BYTE};

verus! {

/// The permuted (custom) alphabet: the character standing for sextet `i`.
pub open spec fn custom_char(i: u8) -> u8
    recommends
        i < 64,
{
    if i == 0 {
        100u8
    } else if i == 1 {
        104u8
    } else if i == 2 {
        85u8
    } else if i == 3 {
        76u8
    } else if i == 4 {
        78u8
    } else if i == 5 {
        86u8
    } else if i == 6 {
        71u8
    } else if i == 7 {
        115u8
    } else if i == 8 {
        117u8
    } else if i == 9 {
        65u8
    } else if i == 10 {
        107u8
    } else if i == 11 {
        47u8
    } else if i == 12 {
        77u8
    } else if i == 13 {
        120u8
    } else if i == 14 {
        72u8
    } else if i == 15 {
        54u8
    } else if i == 16 {
        105u8
    } else if i == 17 {
        98u8
    } else if i == 18 {
        106u8
    } else if i == 19 {
        99u8
    } else if i == 20 {
        69u8
    } else if i == 21 {
        102u8
    } else if i == 22 {
        82u8
    } else if i == 23 {
        113u8
    } else if i == 24 {
        68u8
    } else if i == 25 {
        87u8
    } else if i == 26 {
        89u8
    } else if i == 27 {
        122u8
    } else if i == 28 {
        110u8
    } else if i == 29 {
        88u8
    } else if i == 30 {
        66u8
    } else if i == 31 {
        101u8
    } else if i == 32 {
        57u8
    } else if i == 33 {
        80u8
    } else if i == 34 {
        108u8
    } else if i == 35 {
        55u8
    } else if i == 36 {
        43u8
    } else if i == 37 {
        83u8
    } else if i == 38 {
        75u8
    } else if i == 39 {
        111u8
    } else if i == 40 {
        90u8
    } else if i == 41 {
        56u8
    } else if i == 42 {
        112u8
    } else if i == 43 {
        74u8
    } else if i == 44 {
        97u8
    } else if i == 45 {
        73u8
    } else if i == 46 {
        67u8
    } else if i == 47 {
        103u8
    } else if i == 48 {
        114u8
    } else if i == 49 {
        81u8
    } else if i == 50 {
        79u8
    } else if i == 51 {
        48u8
    } else if i == 52 {
        109u8
    } else if i == 53 {
        70u8
    } else if i == 54 {
        50u8
    } else if i == 55 {
        49u8
    } else if i == 56 {
        121u8
    } else if i == 57 {
        118u8
    } else if i == 58 {
        51u8
    } else if i == 59 {
        52u8
    } else if i == 60 {
        53u8
    } else if i == 61 {
        119u8
    } else if i == 62 {
        116u8
    } else {
        84u8
    }
}

/// The sextet a custom-alphabet character stands for, or -1 when the
/// byte is not in the custom alphabet.
pub open spec fn custom_inv(c: u8) -> int {
    if c == 100 {
        0int
    } else if c == 104 {
        1int
    } else if c == 85 {
        2int
    } else if c == 76 {
        3int
    } else if c == 78 {
        4int
    } else if c == 86 {
        5int
    } else if c == 71 {
        6int
    } else if c == 115 {
        7int
    } else if c == 117 {
        8int
    } else if c == 65 {
        9int
    } else if c == 107 {
        10int
    } else if c == 47 {
        11int
    } else if c == 77 {
        12int
    } else if c == 120 {
        13int
    } else if c == 72 {
        14int
    } else if c == 54 {
        15int
    } else if c == 105 {
        16int
    } else if c == 98 {
        17int
    } else if c == 106 {
        18int
    } else if c == 99 {
        19int
    } else if c == 69 {
        20int
    } else if c == 102 {
        21int
    } else if c == 82 {
        22int
    } else if c == 113 {
        23int
    } else if c == 68 {
        24int
    } else if c == 87 {
        25int
    } else if c == 89 {
        26int
    } else if c == 122 {
        27int
    } else if c == 110 {
        28int
    } else if c == 88 {
        29int
    } else if c == 66 {
        30int
    } else if c == 101 {
        31int
    } else if c == 57 {
        32int
    } else if c == 80 {
        33int
    } else if c == 108 {
        34int
    } else if c == 55 {
        35int
    } else if c == 43 {
        36int
    } else if c == 83 {
        37int
    } else if c == 75 {
        38int
    } else if c == 111 {
        39int
    } else if c == 90 {
        40int
    } else if c == 56 {
        41int
    } else if c == 112 {
        42int
    } else if c == 74 {
        43int
    } else if c == 97 {
        44int
    } else if c == 73 {
        45int
    } else if c == 67 {
        46int
    } else if c == 103 {
        47int
    } else if c == 114 {
        48int
    } else if c == 81 {
        49int
    } else if c == 79 {
        50int
    } else if c == 48 {
        51int
    } else if c == 109 {
        52int
    } else if c == 70 {
        53int
    } else if c == 50 {
        54int
    } else if c == 49 {
        55int
    } else if c == 121 {
        56int
    } else if c == 118 {
        57int
    } else if c == 51 {
        58int
    } else if c == 52 {
        59int
    } else if c == 53 {
        60int
    } else if c == 119 {
        61int
    } else if c == 116 {
        62int
    } else if c == 84 {
        63int
    } else {
        -1int
    }
}

/// The executable form of `custom_char`.
pub fn custom_char_exec(i: u8) -> (r: u8)
    requires
        i < 64,
    ensures
        r == custom_char(i),
{
    if i == 0 {
        100
    } else if i == 1 {
        104
    } else if i == 2 {
        85
    } else if i == 3 {
        76
    } else if i == 4 {
        78
    } else if i == 5 {
        86
    } else if i == 6 {
        71
    } else if i == 7 {
        115
    } else if i == 8 {
        117
    } else if i == 9 {
        65
    } else if i == 10 {
        107
    } else if i == 11 {
        47
    } else if i == 12 {
        77
    } else if i == 13 {
        120
    } else if i == 14 {
        72
    } else if i == 15 {
        54
    } else if i == 16 {
        105
    } else if i == 17 {
        98
    } else if i == 18 {
        106
    } else if i == 19 {
        99
    } else if i == 20 {
        69
    } else if i == 21 {
        102
    } else if i == 22 {
        82
    } else if i == 23 {
        113
    } else if i == 24 {
        68
    } else if i == 25 {
        87
    } else if i == 26 {
        89
    } else if i == 27 {
        122
    } else if i == 28 {
        110
    } else if i == 29 {
        88
    } else if i == 30 {
        66
    } else if i == 31 {
        101
    } else if i == 32 {
        57
    } else if i == 33 {
        80
    } else if i == 34 {
        108
    } else if i == 35 {
        55
    } else if i == 36 {
        43
    } else if i == 37 {
        83
    } else if i == 38 {
        75
    } else if i == 39 {
        111
    } else if i == 40 {
        90
    } else if i == 41 {
        56
    } else if i == 42 {
        112
    } else if i == 43 {
        74
    } else if i == 44 {
        97
    } else if i == 45 {
        73
    } else if i == 46 {
        67
    } else if i == 47 {
        103
    } else if i == 48 {
        114
    } else if i == 49 {
        81
    } else if i == 50 {
        79
    } else if i == 51 {
        48
    } else if i == 52 {
        109
    } else if i == 53 {
        70
    } else if i == 54 {
        50
    } else if i == 55 {
        49
    } else if i == 56 {
        121
    } else if i == 57 {
        118
    } else if i == 58 {
        51
    } else if i == 59 {
        52
    } else if i == 60 {
        53
    } else if i == 61 {
        119
    } else if i == 62 {
        116
    } else {
        84
    }
}

/// The custom alphabet and its reading-back function invert each other,
/// and `'='` is not a custom-alphabet character.
pub proof fn lemma_custom_alphabet()
    ensures
        forall|i: u8| i < 64 ==> custom_inv(#[trigger] custom_char(i)) == i,
        forall|c: u8| -1 <= #[trigger] custom_inv(c) < 64,
        forall|c: u8| #[trigger] custom_inv(c) >= 0 ==> custom_char(custom_inv(c) as u8) == c,
        custom_inv(PAD_BYTE) == -1,
{
}

/// The obfuscating substitution applied to one byte of base64 text.
pub open spec fn obf_char(c: u8) -> u8 {
    if char_sextet(c) >= 0 {
        custom_char(char_sextet(c) as u8)
    } else {
        c
    }
}

/// The de-obfuscating substitution applied to one byte of a payload.
pub open spec fn deobf_char(c: u8) -> u8 {
    if custom_inv(c) >= 0 {
        sextet_char(custom_inv(c) as u8)
    } else {
        c
    }
}

/// On the bytes base64 text is made of (alphabet characters and `'='`),
/// de-obfuscation undoes obfuscation.
pub proof fn lemma_obf_char_round(c: u8)
    requires
        char_sextet(c) >= 0 || c == PAD_BYTE,
    ensures
        deobf_char(obf_char(c)) == c,
{
    crate::b64::lemma_std_alphabet();
    lemma_custom_alphabet();
    if char_sextet(c) >= 0 {
        let s = char_sextet(c) as u8;
        assert(custom_inv(custom_char(s)) == s);
    } else {
        assert(custom_inv(PAD_BYTE) == -1);
    }
}

} // verus!
