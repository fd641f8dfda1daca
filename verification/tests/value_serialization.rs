//! The three-tier value serialization contract: text, compact binary and
//! framed binary all round-trip, and the framed form is exactly an 8-byte
//! little-endian length prefix followed by the compact bytes.

use zkvm_core::bytes::{value_from_bytes, value_from_bytes_framed, value_to_bytes,
    value_to_bytes_framed};
use zkvm_core::text::{value_from_text, value_to_text};
use zkvm_core::value::{Literal, Plaintext, Value};

const PLAINTEXT_TEXT: &str = "{\n  owner: aleo1d5hg2z3ma00382pngntdp68e74zv54jdxy249qhaujhks9c72yrs33ddah,\n  token_amount: 100u64\n}";

const RECORD_TEXT: &str = "{\n  owner: aleo1d5hg2z3ma00382pngntdp68e74zv54jdxy249qhaujhks9c72yrs33ddah.private,\n  token_amount: 100u64.private,\n  _nonce: 6122363155094913586073041054293642159180066699840940609722305038224296461351group.public\n}";

#[test]
fn test_serde_json() {
    {
        // Construct a new plaintext value.
        let expected = value_from_text(PLAINTEXT_TEXT).unwrap();
        assert!(matches!(expected, Value::Plaintext(..)));

        // Serialize.
        let expected_string = value_to_text(&expected);
        assert_eq!(PLAINTEXT_TEXT, &expected_string);

        // Deserialize.
        assert_eq!(expected, value_from_text(&expected_string).unwrap());
    }
    {
        // Construct a new record value.
        let expected = value_from_text(RECORD_TEXT).unwrap();
        assert!(matches!(expected, Value::Record(..)));

        // Serialize.
        let expected_string = value_to_text(&expected);
        assert_eq!(RECORD_TEXT, &expected_string);

        // Deserialize.
        assert_eq!(expected, value_from_text(&expected_string).unwrap());
    }
}

#[test]
fn test_bincode() {
    {
        // Construct a new plaintext value.
        let expected = value_from_text(PLAINTEXT_TEXT).unwrap();
        assert!(matches!(expected, Value::Plaintext(..)));

        // Serialize.
        let expected_bytes = value_to_bytes(&expected);
        let expected_bytes_with_size_encoding = value_to_bytes_framed(&expected);
        assert_eq!(&expected_bytes[..], &expected_bytes_with_size_encoding[8..]);

        // Deserialize.
        assert_eq!(expected, value_from_bytes(&expected_bytes).unwrap());
        assert_eq!(
            expected,
            value_from_bytes_framed(&expected_bytes_with_size_encoding).unwrap()
        );
    }
    {
        // Construct a new record value.
        let expected = value_from_text(RECORD_TEXT).unwrap();
        assert!(matches!(expected, Value::Record(..)));

        // Serialize.
        let expected_bytes = value_to_bytes(&expected);
        let expected_bytes_with_size_encoding = value_to_bytes_framed(&expected);
        assert_eq!(&expected_bytes[..], &expected_bytes_with_size_encoding[8..]);

        // Deserialize.
        assert_eq!(expected, value_from_bytes(&expected_bytes).unwrap());
        assert_eq!(
            expected,
            value_from_bytes_framed(&expected_bytes_with_size_encoding).unwrap()
        );
    }
}

#[test]
fn test_framed_prefix_is_length() {
    // The framed form is exactly the 8-byte little-endian length prefix
    // concatenated with the direct binary encoding.
    let v = value_from_text(RECORD_TEXT).unwrap();
    let body = value_to_bytes(&v);
    let framed = value_to_bytes_framed(&v);
    assert_eq!(framed.len(), body.len() + 8);
    let mut len = body.len() as u64;
    for i in 0..8 {
        assert_eq!(framed[i], (len % 256) as u8);
        len /= 256;
    }
    assert_eq!(&framed[8..], &body[..]);
}

#[test]
fn test_nested_struct_round_trip() {
    // A nested struct round-trips through all three forms.
    let text = "{\n  a: {\n    b: 1u64,\n    c: true\n  },\n  d: 2scalar\n}";
    let v = value_from_text(text).unwrap();
    assert_eq!(value_to_text(&v), text);
    let body = value_to_bytes(&v);
    assert_eq!(v, value_from_bytes(&body).unwrap());
    let framed = value_to_bytes_framed(&v);
    assert_eq!(v, value_from_bytes_framed(&framed).unwrap());
}

#[test]
fn test_value_parse_fails_on_malformed_text() {
    assert!(value_from_text("").is_none());
    assert!(value_from_text("{").is_none());
    assert!(value_from_text("{\n  owner: \n}").is_none());
    assert!(value_from_text("12u6").is_none());
    // A value beyond the scalar field is rejected.
    assert!(value_from_text("9999999999999999999999scalar").is_none());
    assert!(zkvm_core::text::value_parse("").is_err());
}

#[test]
fn test_binary_decode_fails_on_corrupt_bytes() {
    let v = value_from_text(PLAINTEXT_TEXT).unwrap();
    let mut body = value_to_bytes(&v);
    // A wrong variant tag cannot decode.
    body[0] = 7;
    assert!(value_from_bytes(&body).is_none());
    // A framed form whose prefix disagrees with the body length is rejected.
    let mut framed = value_to_bytes_framed(&v);
    framed[0] = framed[0].wrapping_add(1);
    assert!(value_from_bytes_framed(&framed).is_none());
}

#[test]
fn test_binary_decode_of_hand_built_encoding() {
    // The compact encoding of the plaintext boolean `true`, written out by
    // hand: value tag 0, plaintext tag 0, literal tag 1, payload 1. Decoding
    // must succeed on every canonical encoding, not only on re-encoded ones.
    let bytes = vec![0u8, 0, 1, 1];
    let v = value_from_bytes(&bytes).unwrap();
    assert_eq!(v, Value::Plaintext(Plaintext::Literal(Literal::Boolean(true))));

    // The same bytes behind a hand-built 8-byte little-endian length prefix.
    let framed = vec![4u8, 0, 0, 0, 0, 0, 0, 0, 0, 0, 1, 1];
    let v2 = value_from_bytes_framed(&framed).unwrap();
    assert_eq!(v2, Value::Plaintext(Plaintext::Literal(Literal::Boolean(true))));
}

#[test]
fn test_binary_decode_of_hand_built_struct() {
    // A one-member struct { a: 5u64 }: value tag 0, plaintext tag 1,
    // member count 1, name length 1, name "a", nested literal plaintext.
    let mut bytes = vec![0u8, 1, 1, 1, b'a', 0, 5];
    bytes.extend_from_slice(&[5, 0, 0, 0, 0, 0, 0, 0]);
    let v = value_from_bytes(&bytes).unwrap();
    let expected = value_from_text("{\n  a: 5u64\n}").unwrap();
    assert_eq!(v, expected);
}

#[test]
fn test_text_round_trip_of_constructed_value() {
    // A value built by hand, not by parsing: printing and reparsing it must
    // succeed and give back an equal value.
    let ident = |s: &str| zkvm_core::ident::Identifier::from_text(s).unwrap();
    let v = Value::Record(vec![
        (
            ident("owner"),
            zkvm_core::value::Entry {
                vis: zkvm_core::mode::Mode::Private,
                plaintext: Plaintext::Literal(Literal::Address(
                    "aleo1d5hg2z3ma00382pngntdp68e74zv54jdxy249qhaujhks9c72yrs33ddah".to_string(),
                )),
            },
        ),
        (
            ident("token_amount"),
            zkvm_core::value::Entry {
                vis: zkvm_core::mode::Mode::Public,
                plaintext: Plaintext::Literal(Literal::U64(7)),
            },
        ),
    ]);
    let text = value_to_text(&v);
    assert_eq!(value_from_text(&text).unwrap(), v);
    assert_eq!(zkvm_core::text::value_parse(&text).unwrap(), v);
}
