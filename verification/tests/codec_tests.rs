use neorelay::blv::{read_and_decode_length, BlvMap};
use neorelay::codec::{Codec, MessageField};
use neorelay::errors::NeoError;

#[test]
fn codec_test_base64_roundtrip() {
    let codec = Codec::new();

    let test_data = b"Hello, world!";

    let encoded = codec.base64_encode(test_data);

    let decoded = codec.base64_decode(&encoded).expect("Decode failed");

    assert_eq!(test_data, decoded.as_slice());
}

#[test]
fn codec_test_blv_roundtrip() {
    let codec = Codec::new();

    let mut test_info = BlvMap::new();
    test_info.insert(1, b"data1".to_vec());
    test_info.insert(2, b"data2".to_vec());

    let encoded = codec.blv_encode(&test_info);

    let decoded = codec.blv_decode(&encoded);

    assert_eq!(decoded.get(&1), test_info.get(&1));
    assert_eq!(decoded.get(&2), test_info.get(&2));

    assert!(decoded.contains_key(&0));
    assert!(decoded.contains_key(&39));
}

#[test]
fn codec_test_rand_byte() {
    let data = Codec::rand_byte();

    assert!(data.len() >= 5 && data.len() <= 20);
}

#[test]
fn codec_test_build_maps() {
    let (en_map, de_map) = Codec::build_maps();

    assert_eq!(en_map.len(), 64);
    assert_eq!(de_map.len(), 64);

    for i in 0..64u8 {
        let en_char = neorelay::b64::sextet_char_exec(i);
        let de_char = neorelay::alphabet::custom_char_exec(i);

        assert_eq!(en_map.get(&en_char), Some(&de_char));
        assert_eq!(de_map.get(&de_char), Some(&en_char));
    }
}

#[test]
fn test_test_base64_roundtrip() {
    let codec = Codec::new();
    let test_data = b"Hello, world!";
    let encoded = codec.base64_encode(test_data);
    let decoded = codec.base64_decode(&encoded).expect("Decode failed");
    assert_eq!(test_data, decoded.as_slice());
}

#[test]
fn test_test_blv_roundtrip() {
    let codec = Codec::new();
    let mut test_info = BlvMap::new();
    test_info.insert(1, b"data1".to_vec());
    test_info.insert(2, b"data2".to_vec());
    let encoded = codec.blv_encode(&test_info);
    let decoded = codec.blv_decode(&encoded);
    assert_eq!(decoded.get(&1), test_info.get(&1));
    assert_eq!(decoded.get(&2), test_info.get(&2));
    assert!(decoded.contains_key(&0));
    assert!(decoded.contains_key(&39));
}

#[test]
fn test_test_rand_byte() {
    let data = Codec::rand_byte();
    assert!(data.len() >= 5 && data.len() <= 20);
}

#[test]
fn test_test_build_maps() {
    let (en_map, de_map) = Codec::build_maps();
    assert_eq!(en_map.len(), 64);
    assert_eq!(de_map.len(), 64);
    for i in 0..64u8 {
        let en_char = neorelay::b64::sextet_char_exec(i);
        let de_char = neorelay::alphabet::custom_char_exec(i);
        assert_eq!(en_map.get(&en_char), Some(&de_char));
        assert_eq!(de_map.get(&de_char), Some(&en_char));
    }
}

// The obfuscated form of a known string is bit-exact: standard base64
// with the fixed alphabet permutation applied.
#[test]
fn base64_encode_exact_bytes() {
    let codec = Codec::new();
    let encoded = codec.base64_encode(b"Hello, world!");
    assert_eq!(encoded.as_slice(), b"jGfazG5ausXgnKQ+ui==".as_slice());
}

#[test]
fn base64_encode_empty_is_empty() {
    let codec = Codec::new();
    assert!(codec.base64_encode(b"").is_empty());
    let decoded = codec.base64_decode(b"").expect("empty decodes");
    assert!(decoded.is_empty());
}

#[test]
fn base64_decode_rejects_malformed_input() {
    let codec = Codec::new();
    let r = codec.base64_decode(b"!!!not base64???");
    assert!(matches!(r, Err(NeoError::Base64Decode)));
    // a single stray alphabet character is structurally invalid too
    let r2 = codec.base64_decode(b"d");
    assert!(r2.is_err());
}

#[test]
fn blv_padding_fields_have_bounded_length() {
    let codec = Codec::new();
    let mut info = BlvMap::new();
    info.insert(4, b"OK".to_vec());
    let encoded = codec.blv_encode(&info);
    let decoded = codec.blv_decode(&encoded);
    let p0 = decoded.get(&0).expect("padding at tag 0");
    let p39 = decoded.get(&39).expect("padding at tag 39");
    assert!(p0.len() >= 5 && p0.len() < 20);
    assert!(p39.len() >= 5 && p39.len() < 20);
    assert_eq!(decoded.get(&4).map(|v| v.as_slice()), Some(b"OK".as_slice()));
}

// Truncating an encoding anywhere decodes to a subset of the full
// decoding, without an error.
#[test]
fn blv_decode_tolerates_truncation() {
    let codec = Codec::new();
    let mut info = BlvMap::new();
    info.insert(2, b"CONNECT".to_vec());
    info.insert(3, b"mark-1".to_vec());
    info.insert(6, b"127.0.0.1".to_vec());
    let encoded = codec.blv_encode(&info);
    let full = codec.blv_decode(&encoded);
    for k in 0..encoded.len() {
        let partial = codec.blv_decode(&encoded[..k]);
        for tag in [0i32, 2, 3, 6, 39] {
            if let Some(v) = partial.get(&tag) {
                assert_eq!(Some(v), full.get(&tag));
            }
        }
    }
}

// A caller-supplied value at a padding tag is overwritten by fresh
// padding on encode.
#[test]
fn blv_encode_overwrites_padding_tags() {
    let codec = Codec::new();
    let mut info = BlvMap::new();
    info.insert(0, vec![9u8; 30]);
    info.insert(1, b"payload".to_vec());
    let encoded = codec.blv_encode(&info);
    let decoded = codec.blv_decode(&encoded);
    let p0 = decoded.get(&0).expect("padding at tag 0");
    assert!(p0.len() >= 5 && p0.len() < 20);
    assert_eq!(decoded.get(&1).map(|v| v.as_slice()), Some(b"payload".as_slice()));
}

#[test]
fn read_and_decode_length_reads_biased_big_endian() {
    // 5 + 1966546385 = 1966546390 = 0x75371DD6
    let data: Vec<u8> = vec![0x75, 0x37, 0x1D, 0xD6, 0xAA];
    let mut cursor: usize = 0;
    let r = read_and_decode_length(&data, &mut cursor);
    assert_eq!(r.unwrap(), 5);
    assert_eq!(cursor, 4);
}

#[test]
fn read_and_decode_length_rejects_short_input() {
    let data: Vec<u8> = vec![1, 2, 3];
    let mut cursor: usize = 0;
    let r = read_and_decode_length(&data, &mut cursor);
    assert!(matches!(r, Err(NeoError::Other(_))));
    assert_eq!(cursor, 0);
}

#[test]
fn read_and_decode_length_rejects_negative_length() {
    // 4 < 1966546385, so the de-biased value is negative
    let data: Vec<u8> = vec![0, 0, 0, 4];
    let mut cursor: usize = 0;
    let r = read_and_decode_length(&data, &mut cursor);
    assert!(matches!(r, Err(NeoError::Other(_))));
    assert_eq!(cursor, 4);
}

#[test]
fn message_field_tags_match_the_wire() {
    assert_eq!(MessageField::Data.tag(), 1);
    assert_eq!(MessageField::Cmd.tag(), 2);
    assert_eq!(MessageField::Mark.tag(), 3);
    assert_eq!(MessageField::Status.tag(), 4);
    assert_eq!(MessageField::Error.tag(), 5);
    assert_eq!(MessageField::Ip.tag(), 6);
    assert_eq!(MessageField::Port.tag(), 7);
    assert_eq!(MessageField::Random1.tag(), 0);
    assert_eq!(MessageField::Random2.tag(), 39);
}

#[test]
fn message_field_try_from_roundtrip() {
    for tag in [0i32, 1, 2, 3, 4, 5, 6, 7, 39] {
        let f = MessageField::try_from(tag).expect("assigned tag");
        assert_eq!(f.tag(), tag);
    }
    assert!(matches!(MessageField::try_from(8), Err(NeoError::Other(_))));
    assert!(matches!(MessageField::try_from(-1), Err(NeoError::Other(_))));
}

#[test]
fn error_messages_are_exact() {
    assert_eq!(NeoError::SessionClosed.message(), b"Session is closed".to_vec());
    assert_eq!(NeoError::Base64Decode.message(), b"Base64 decode error".to_vec());
    assert_eq!(NeoError::Other(b"Send failed".to_vec()).message(), b"Error: Send failed".to_vec());
    assert_eq!(NeoError::Io(b"boom".to_vec()).message(), b"IO error: boom".to_vec());
}
