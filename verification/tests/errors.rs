use rlp_codec::de::{decode_string, from_bytes, text_of, texts_of, Deserializer, RlpValue};
use rlp_codec::error::Error;
use rlp_codec::rlp::ExpectedType;

#[test]
fn error_text_of_each_variant() {
    assert_eq!(Error::Message("boom".to_string()).as_str(), "boom");
    assert_eq!(
        Error::TrailingBytes.as_str(),
        "Trailing bytes found at the end of input"
    );
    assert_eq!(Error::EmptyBuffer.as_str(), "Empty buffer detected");
    assert_eq!(
        Error::ListPrefixTooSmall.as_str(),
        "List prefix is bigger than the data"
    );
    assert_eq!(
        Error::StringPrefixTooSmall.as_str(),
        "String prefix is bigger than the data"
    );
    assert_eq!(Error::ExpectedList.as_str(), "Expected list data");
    assert_eq!(Error::ExpectedString.as_str(), "Expected string");
    assert_eq!(Error::InvalidString.as_str(), "Unable to decode valid string");
    assert_eq!(Error::WrongPrefix.as_str(), "Wrong prefix");
}

#[test]
fn string_prefix_too_small() {
    // Claims five payload bytes, holds one.
    assert_eq!(
        decode_string(&[0x85, 0x61]).unwrap_err(),
        Error::StringPrefixTooSmall
    );
}

#[test]
fn long_string_prefix_too_small() {
    // 0xb9 announces a two-byte length field declaring 0x0400 bytes.
    assert_eq!(
        decode_string(&[0xb9, 0x04, 0x00, 0x61]).unwrap_err(),
        Error::StringPrefixTooSmall
    );
}

#[test]
fn list_prefix_too_small() {
    // Claims four payload bytes, holds one.
    assert_eq!(from_bytes(&[0xc4, 0x83]).unwrap_err(), Error::ListPrefixTooSmall);
}

#[test]
fn long_list_prefix_exceeds_buffer() {
    // A 64-byte buffer whose outer prefix claims a 96-byte body.
    let mut data = vec![0xf8, 0x60];
    data.extend_from_slice(&[0u8; 62]);
    assert_eq!(from_bytes(&data).unwrap_err(), Error::ListPrefixTooSmall);
}

#[test]
fn expected_string_on_list_input() {
    assert_eq!(decode_string(&[0xc0]).unwrap_err(), Error::ExpectedString);
    assert_eq!(
        text_of(&RlpValue::List(vec![])).unwrap_err(),
        Error::ExpectedString
    );
}

#[test]
fn expected_list_on_string_value() {
    assert_eq!(
        texts_of(&RlpValue::Bytes(vec![0x61])).unwrap_err(),
        Error::ExpectedList
    );
}

#[test]
fn invalid_string_payload() {
    // 0xff alone is not valid UTF-8.
    assert_eq!(decode_string(&[0x81, 0xff]).unwrap_err(), Error::InvalidString);
}

#[test]
fn unsupported_kinds_fail_explicitly() {
    let mut de = Deserializer::from_bytes(&[0x61]);
    match de.parse_bool().unwrap_err() {
        Error::Message(m) => assert_eq!(m, "boolean values are not supported"),
        e => panic!("unexpected error {:?}", e),
    }
    match de.parse_unsigned().unwrap_err() {
        Error::Message(m) => assert_eq!(m, "unsigned values are not supported"),
        e => panic!("unexpected error {:?}", e),
    }
    match de.parse_signed().unwrap_err() {
        Error::Message(m) => assert_eq!(m, "signed values are not supported"),
        e => panic!("unexpected error {:?}", e),
    }
}

#[test]
fn cursor_protocol_walks_a_list() {
    // ["abc", "def"]: enter the list, pull both elements, and leave.
    let input = [0xc8, 0x83, 0x61, 0x62, 0x63, 0x83, 0x64, 0x65, 0x66];
    let mut de = Deserializer::from_bytes(&input);
    assert_eq!(de.view_len(), 9);
    assert_eq!(de.stack_depth(), 0);

    de.begin_seq().unwrap();
    assert_eq!(de.stack_depth(), 1);
    assert_eq!(de.view_len(), 8);

    let h = de.cursor_header().unwrap().unwrap();
    assert_eq!(h.offset, 1);
    assert_eq!(h.length, 3);
    assert_eq!(h.expected_type, ExpectedType::StringType);
    assert_eq!(de.parse_string().unwrap(), "abc");
    assert_eq!(de.last_offset(), 4);
    de.advance(h.offset + h.length);

    let h2 = de.cursor_header().unwrap().unwrap();
    assert_eq!(de.parse_string().unwrap(), "def");
    de.advance(h2.offset + h2.length);

    assert!(de.cursor_header().unwrap().is_none());
    de.pop_restore();
    assert_eq!(de.stack_depth(), 0);
    assert_eq!(de.view_len(), 9);
}

#[test]
fn mixed_depth_siblings_restore_position() {
    // [[ "ab" ], [], "c"]: a nested list followed by siblings shows the
    // saved view is restored before iteration continues.
    let input = [0xc6, 0xc3, 0x82, 0x61, 0x62, 0xc0, 0x63];
    let v = from_bytes(&input).unwrap();
    assert_eq!(
        v,
        RlpValue::List(vec![
            RlpValue::List(vec![RlpValue::Bytes(vec![0x61, 0x62])]),
            RlpValue::List(vec![]),
            RlpValue::Bytes(vec![0x63]),
        ])
    );
}
