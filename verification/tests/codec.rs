use bittorrent::bencode::{encode, BencodeValue};
use bittorrent::decoder::{decode, ParseErrorKind};

fn bytes(s: &str) -> Vec<u8> {
    s.as_bytes().to_vec()
}

#[test]
fn decode_integer() {
    assert_eq!(decode(&bytes("i52e")).unwrap(), BencodeValue::Integer(52));
}

#[test]
fn decode_negative_integer() {
    assert_eq!(decode(&bytes("i-52e")).unwrap(), BencodeValue::Integer(-52));
}

#[test]
fn decode_zero() {
    assert_eq!(decode(&bytes("i0e")).unwrap(), BencodeValue::Integer(0));
}

#[test]
fn decode_extreme_integers() {
    assert_eq!(
        decode(&bytes("i9223372036854775807e")).unwrap(),
        BencodeValue::Integer(i64::MAX)
    );
    assert_eq!(
        decode(&bytes("i-9223372036854775808e")).unwrap(),
        BencodeValue::Integer(i64::MIN)
    );
    assert_eq!(
        decode(&bytes("i9223372036854775808e")).unwrap_err().kind,
        ParseErrorKind::IntegerOverflow
    );
}

#[test]
fn decode_byte_string() {
    assert_eq!(
        decode(&bytes("4:spam")).unwrap(),
        BencodeValue::ByteString(bytes("spam"))
    );
}

#[test]
fn decode_empty_byte_string() {
    assert_eq!(
        decode(&bytes("0:")).unwrap(),
        BencodeValue::ByteString(Vec::new())
    );
}

#[test]
fn decode_list() {
    assert_eq!(
        decode(&bytes("l4:spam4:eggse")).unwrap(),
        BencodeValue::List(vec![
            BencodeValue::ByteString(bytes("spam")),
            BencodeValue::ByteString(bytes("eggs")),
        ])
    );
}

#[test]
fn decode_dictionary_preserves_key_order() {
    assert_eq!(
        decode(&bytes("d3:cow3:moo4:spam4:eggse")).unwrap(),
        BencodeValue::Dictionary(vec![
            (bytes("cow"), BencodeValue::ByteString(bytes("moo"))),
            (bytes("spam"), BencodeValue::ByteString(bytes("eggs"))),
        ])
    );
}

#[test]
fn decode_rejects_negative_zero() {
    let e = decode(&bytes("i-0e")).unwrap_err();
    assert_eq!(e.kind, ParseErrorKind::InvalidInteger);
}

#[test]
fn decode_rejects_leading_zero() {
    let e = decode(&bytes("i03e")).unwrap_err();
    assert_eq!(e.kind, ParseErrorKind::InvalidInteger);
    assert_eq!(e.offset, 1);
}

#[test]
fn decode_rejects_length_beyond_input() {
    let e = decode(&bytes("5:spam")).unwrap_err();
    assert_eq!(e.kind, ParseErrorKind::LengthExceedsInput);
}

#[test]
fn decode_rejects_bad_length_prefixes() {
    // leading zero in a length prefix
    assert_eq!(
        decode(&bytes("01:a")).unwrap_err().kind,
        ParseErrorKind::InvalidLength
    );
    // a stray byte where the colon should be
    assert_eq!(
        decode(&bytes("4spam")).unwrap_err().kind,
        ParseErrorKind::InvalidLength
    );
}

#[test]
fn decode_rejects_empty_input() {
    let e = decode(&Vec::new()).unwrap_err();
    assert_eq!(e.kind, ParseErrorKind::UnexpectedEnd);
    assert_eq!(e.offset, 0);
}

#[test]
fn decode_rejects_truncated_terms() {
    assert_eq!(
        decode(&bytes("i52")).unwrap_err().kind,
        ParseErrorKind::UnexpectedEnd
    );
    assert_eq!(
        decode(&bytes("l4:spam")).unwrap_err().kind,
        ParseErrorKind::UnexpectedEnd
    );
    assert_eq!(
        decode(&bytes("d3:cow3:moo")).unwrap_err().kind,
        ParseErrorKind::UnexpectedEnd
    );
}

#[test]
fn decode_rejects_stray_byte() {
    let e = decode(&bytes("x")).unwrap_err();
    assert_eq!(e.kind, ParseErrorKind::UnexpectedByte);
}

#[test]
fn decode_rejects_non_string_dictionary_key() {
    let e = decode(&bytes("di1ei2ee")).unwrap_err();
    assert_eq!(e.kind, ParseErrorKind::InvalidKey);
    assert_eq!(e.offset, 1);
}

#[test]
fn decode_rejects_trailing_data() {
    let e = decode(&bytes("i1ei2e")).unwrap_err();
    assert_eq!(e.kind, ParseErrorKind::TrailingData);
    assert_eq!(e.offset, 3);
}

#[test]
fn encode_literals() {
    assert_eq!(encode(&BencodeValue::Integer(0)), bytes("i0e"));
    assert_eq!(encode(&BencodeValue::Integer(-42)), bytes("i-42e"));
    assert_eq!(encode(&BencodeValue::Integer(i64::MIN)), bytes("i-9223372036854775808e"));
    assert_eq!(encode(&BencodeValue::ByteString(Vec::new())), bytes("0:"));
    assert_eq!(encode(&BencodeValue::List(Vec::new())), bytes("le"));
    assert_eq!(encode(&BencodeValue::Dictionary(Vec::new())), bytes("de"));
}

#[test]
fn round_trip_nested_value() {
    let v = BencodeValue::Dictionary(vec![
        (
            bytes("a"),
            BencodeValue::List(vec![
                BencodeValue::Integer(-7),
                BencodeValue::ByteString(vec![0, 255, 10]),
            ]),
        ),
        (
            bytes("b"),
            BencodeValue::Dictionary(vec![(bytes("x"), BencodeValue::Integer(0))]),
        ),
        (bytes("c"), BencodeValue::ByteString(Vec::new())),
    ]);
    let encoded_bytes = encode(&v);
    assert_eq!(decode(&encoded_bytes).unwrap(), v);
}

#[test]
fn byte_fidelity_on_compliant_input() {
    let original = bytes("d3:cow3:moo4:spam4:eggse");
    let v = decode(&original).unwrap();
    assert_eq!(encode(&v), original);

    let nested = bytes("d1:al3:abci-1ee1:bd2:xyi12eee");
    let v2 = decode(&nested).unwrap();
    assert_eq!(encode(&v2), nested);
}
