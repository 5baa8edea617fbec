//! Bencode codec behaviour: decoding scenarios, canonical encoding, and
//! the round trips the library proves in general.

use bittorrent::bencode::{decode_bencoded_value, encode_bencoded_value, BencodeValue, DecodeError};

fn decode_all(input: &[u8]) -> (BencodeValue, usize) {
    decode_bencoded_value(input).expect("input should decode")
}

#[test]
fn decode_byte_string_with_empty_remainder() {
    let (v, consumed) = decode_all(b"4:spam");
    assert_eq!(v, BencodeValue::ByteString(b"spam".to_vec()));
    assert_eq!(consumed, 6);
    assert!(b"4:spam"[consumed..].is_empty());
}

#[test]
fn decode_list_of_byte_strings() {
    let (v, consumed) = decode_all(b"l4:spam4:eggse");
    assert_eq!(
        v,
        BencodeValue::List(vec![
            BencodeValue::ByteString(b"spam".to_vec()),
            BencodeValue::ByteString(b"eggs".to_vec()),
        ])
    );
    assert_eq!(consumed, 14);
}

#[test]
fn decode_integers() {
    assert_eq!(decode_all(b"i42e").0, BencodeValue::Integer(42));
    assert_eq!(decode_all(b"i-42e").0, BencodeValue::Integer(-42));
    assert_eq!(decode_all(b"i0e").0, BencodeValue::Integer(0));
    assert_eq!(
        decode_all(b"i9223372036854775807e").0,
        BencodeValue::Integer(i64::MAX)
    );
    assert_eq!(
        decode_all(b"i-9223372036854775808e").0,
        BencodeValue::Integer(i64::MIN)
    );
}

#[test]
fn decode_leaves_remainder() {
    let (v, consumed) = decode_all(b"i7etrailing");
    assert_eq!(v, BencodeValue::Integer(7));
    assert_eq!(consumed, 3);
    assert_eq!(&b"i7etrailing"[consumed..], b"trailing");
}

#[test]
fn decode_empty_list_and_dictionary() {
    assert_eq!(decode_all(b"le").0, BencodeValue::List(vec![]));
    assert_eq!(decode_all(b"de").0, BencodeValue::Dictionary(vec![]));
}

#[test]
fn decode_dictionary_keeps_insertion_order() {
    let (v, _) = decode_all(b"d1:bi1e1:ai2ee");
    assert_eq!(
        v,
        BencodeValue::Dictionary(vec![
            (b"b".to_vec(), BencodeValue::Integer(1)),
            (b"a".to_vec(), BencodeValue::Integer(2)),
        ])
    );
}

#[test]
fn decode_dictionary_replaces_duplicate_key_in_place() {
    let (v, _) = decode_all(b"d1:ai1e1:bi2e1:ai3ee");
    assert_eq!(
        v,
        BencodeValue::Dictionary(vec![
            (b"a".to_vec(), BencodeValue::Integer(3)),
            (b"b".to_vec(), BencodeValue::Integer(2)),
        ])
    );
}

#[test]
fn decode_rejects_malformed_integers() {
    assert_eq!(decode_bencoded_value(b"ie"), Err(DecodeError::BadInteger));
    assert_eq!(decode_bencoded_value(b"i-0e"), Err(DecodeError::BadInteger));
    assert_eq!(decode_bencoded_value(b"i01e"), Err(DecodeError::BadInteger));
    assert_eq!(decode_bencoded_value(b"i+5e"), Err(DecodeError::BadInteger));
    assert_eq!(decode_bencoded_value(b"iabce"), Err(DecodeError::BadInteger));
    assert_eq!(
        decode_bencoded_value(b"i9223372036854775808e"),
        Err(DecodeError::BadInteger)
    );
    assert_eq!(decode_bencoded_value(b"i42"), Err(DecodeError::Truncated));
}

#[test]
fn decode_rejects_bad_length_prefixes() {
    assert_eq!(
        decode_bencoded_value(b"5:spam"),
        Err(DecodeError::BadLengthPrefix)
    );
    assert_eq!(
        decode_bencoded_value(b"04:spam"),
        Err(DecodeError::BadLengthPrefix)
    );
    assert_eq!(decode_bencoded_value(b"4spam"), Err(DecodeError::Truncated));
}

#[test]
fn decode_rejects_unterminated_collections() {
    assert_eq!(
        decode_bencoded_value(b"l4:spam"),
        Err(DecodeError::Unterminated)
    );
    assert_eq!(
        decode_bencoded_value(b"d4:spami1e"),
        Err(DecodeError::Unterminated)
    );
    // A key with no value runs out of input where the value should start.
    assert_eq!(
        decode_bencoded_value(b"d4:spam"),
        Err(DecodeError::Truncated)
    );
}

#[test]
fn decode_rejects_non_string_keys() {
    assert_eq!(
        decode_bencoded_value(b"di1ei2ee"),
        Err(DecodeError::NonStringKey)
    );
    assert_eq!(
        decode_bencoded_value(b"dlei2ee"),
        Err(DecodeError::NonStringKey)
    );
}

#[test]
fn decode_rejects_unhandled_leading_bytes() {
    assert_eq!(decode_bencoded_value(b""), Err(DecodeError::Truncated));
    assert_eq!(
        decode_bencoded_value(b"x123"),
        Err(DecodeError::UnhandledValue)
    );
}

#[test]
fn encode_emits_minimal_decimal_integers() {
    assert_eq!(encode_bencoded_value(&BencodeValue::Integer(0)), b"i0e");
    assert_eq!(encode_bencoded_value(&BencodeValue::Integer(42)), b"i42e");
    assert_eq!(encode_bencoded_value(&BencodeValue::Integer(-42)), b"i-42e");
    assert_eq!(
        encode_bencoded_value(&BencodeValue::Integer(i64::MIN)),
        b"i-9223372036854775808e"
    );
}

#[test]
fn encode_byte_strings_and_lists() {
    assert_eq!(
        encode_bencoded_value(&BencodeValue::ByteString(b"spam".to_vec())),
        b"4:spam"
    );
    assert_eq!(
        encode_bencoded_value(&BencodeValue::ByteString(Vec::new())),
        b"0:"
    );
    let v = BencodeValue::List(vec![
        BencodeValue::ByteString(b"spam".to_vec()),
        BencodeValue::ByteString(b"eggs".to_vec()),
    ]);
    assert_eq!(encode_bencoded_value(&v), b"l4:spam4:eggse");
}

#[test]
fn encode_sorts_dictionary_keys() {
    let v = BencodeValue::Dictionary(vec![
        (b"zoo".to_vec(), BencodeValue::Integer(1)),
        (b"bar".to_vec(), BencodeValue::Integer(2)),
        (b"foo".to_vec(), BencodeValue::Integer(3)),
    ]);
    assert_eq!(encode_bencoded_value(&v), b"d3:bari2e3:fooi3e3:zooi1ee");
}

#[test]
fn canonical_encoding_is_order_independent() {
    let one = BencodeValue::Dictionary(vec![
        (b"a".to_vec(), BencodeValue::Integer(1)),
        (b"b".to_vec(), BencodeValue::ByteString(b"x".to_vec())),
        (b"c".to_vec(), BencodeValue::List(vec![BencodeValue::Integer(9)])),
    ]);
    let other = BencodeValue::Dictionary(vec![
        (b"c".to_vec(), BencodeValue::List(vec![BencodeValue::Integer(9)])),
        (b"a".to_vec(), BencodeValue::Integer(1)),
        (b"b".to_vec(), BencodeValue::ByteString(b"x".to_vec())),
    ]);
    assert_eq!(encode_bencoded_value(&one), encode_bencoded_value(&other));
    assert_eq!(encode_bencoded_value(&one), b"d1:ai1e1:b1:x1:cli9eee");
}

#[test]
fn integer_round_trip() {
    for i in [0i64, 1, -1, 42, -42, 1000000, i64::MAX, i64::MIN] {
        let encoded = encode_bencoded_value(&BencodeValue::Integer(i));
        let (v, consumed) = decode_all(&encoded);
        assert_eq!(v, BencodeValue::Integer(i));
        assert_eq!(consumed, encoded.len());
    }
}

#[test]
fn byte_string_round_trip() {
    for s in [&b""[..], b"a", b"spam", &[0u8, 255, 13, 10]] {
        let encoded = encode_bencoded_value(&BencodeValue::ByteString(s.to_vec()));
        let (v, consumed) = decode_all(&encoded);
        assert_eq!(v, BencodeValue::ByteString(s.to_vec()));
        assert_eq!(consumed, encoded.len());
    }
}

#[test]
fn nested_value_round_trip() {
    let v = BencodeValue::Dictionary(vec![
        (
            b"files".to_vec(),
            BencodeValue::List(vec![
                BencodeValue::Dictionary(vec![
                    (b"len".to_vec(), BencodeValue::Integer(512)),
                    (b"path".to_vec(), BencodeValue::ByteString(b"a/b".to_vec())),
                ]),
                BencodeValue::Integer(-7),
            ]),
        ),
        (b"count".to_vec(), BencodeValue::Integer(2)),
    ]);
    let encoded = encode_bencoded_value(&v);
    let (decoded, consumed) = decode_all(&encoded);
    assert_eq!(consumed, encoded.len());
    // The decoded value is the canonical arrangement: same content, keys
    // sorted at every depth.
    let canonical = BencodeValue::Dictionary(vec![
        (b"count".to_vec(), BencodeValue::Integer(2)),
        (
            b"files".to_vec(),
            BencodeValue::List(vec![
                BencodeValue::Dictionary(vec![
                    (b"len".to_vec(), BencodeValue::Integer(512)),
                    (b"path".to_vec(), BencodeValue::ByteString(b"a/b".to_vec())),
                ]),
                BencodeValue::Integer(-7),
            ]),
        ),
    ]);
    assert_eq!(decoded, canonical);
    // Encoding again is a fixed point.
    assert_eq!(encode_bencoded_value(&decoded), encoded);
}
