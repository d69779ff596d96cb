use rlp_codec::rlp::{decode_length, encode_length, encode_number, to_integer, ExpectedType};

#[test]
fn test_encode_length_small() {
    assert_eq!(encode_length(55u64, 0xc0), vec![55 + 0xc0]);
}

#[test]
fn test_encode_length_big() {
    assert_eq!(
        encode_length(18446744073709551614u64, 0x80),
        vec![191, 255, 255, 255, 255, 255, 255, 255, 254]
    );
}

#[test]
fn test_encode_number() {
    assert_eq!(encode_number(0u64), Vec::<u8>::new());
    assert_eq!(encode_number(1u64), vec![1]);
    assert_eq!(encode_number(255u64), vec![0xff]);
    assert_eq!(encode_number(1024u64), vec![0x4, 0]);
    assert_eq!(encode_number(1024u64), vec![0x4, 0]);
    assert_eq!(encode_number(1024u64), vec![0x4, 0]);
}

#[test]
fn to_integer_with_empty_buffer() {
    assert!(to_integer(&[]).is_none());
}

#[test]
fn to_integer_with_single_byte() {
    assert_eq!(to_integer(&[0xffu8]).unwrap(), 255u64);
}

#[test]
fn to_integer_with_multiple_bytes() {
    assert_eq!(to_integer(&[0x04u8, 0x00u8]).unwrap(), 1024u64);
}

#[test]
fn decode_u32_max() {
    assert_eq!(to_integer(&[0xffu8; 4]).unwrap(), 4294967295u64);
}

#[test]
fn decode_u64_max() {
    assert_eq!(to_integer(&[0xffu8; 8]).unwrap(), 18446744073709551615u64);
}

#[test]
fn decode_empty_byte_slice() {
    assert!(decode_length(&[]).is_err());
}

#[test]
fn decode_single_byte() {
    // "a"
    let res = decode_length(&[0x61u8]).unwrap();
    assert_eq!(res.offset, 0);
    assert_eq!(res.length, 1);
    assert_eq!(res.expected_type, ExpectedType::StringType);
}

#[test]
fn decode_short_string() {
    // "abc"
    let input = vec![0x83, 0x61, 0x62, 0x63, 0xff];
    let res = decode_length(&input[..]).unwrap();
    assert_eq!(res.offset, 1);
    assert_eq!(res.length, 3);
    assert_eq!(res.expected_type, ExpectedType::StringType);
}

#[test]
fn decode_short_array() {
    let res = decode_length(&[0xc4, 0x83, 0x61, 0x62, 0x63]).unwrap();
    assert_eq!(res.offset, 1);
    assert_eq!(res.length, 4);
    assert_eq!(res.expected_type, ExpectedType::ListType);
}

#[test]
fn round_trip_short_string_header() {
    // A 3-byte string header followed by its payload decodes back.
    let mut buf = encode_length(3u64, 0x80);
    buf.extend_from_slice(&[0x61, 0x62, 0x63]);
    assert_eq!(buf, vec![0x83, 0x61, 0x62, 0x63]);
    let res = decode_length(&buf).unwrap();
    assert_eq!(res.offset, 1);
    assert_eq!(res.length, 3);
    assert_eq!(res.expected_type, ExpectedType::StringType);
}

#[test]
fn round_trip_zero_length_header() {
    let buf = encode_length(0u64, 0x80);
    assert_eq!(buf, vec![0x80]);
    let res = decode_length(&buf).unwrap();
    assert_eq!(res.offset, 1);
    assert_eq!(res.length, 0);
    assert_eq!(res.expected_type, ExpectedType::StringType);
}

#[test]
fn round_trip_long_list_header() {
    // 1000 > 55, so the header is a marker byte plus a two-byte length.
    let mut buf = encode_length(1000u64, 0xc0);
    assert_eq!(buf, vec![0xf9, 0x03, 0xe8]);
    buf.extend_from_slice(&vec![0u8; 1000]);
    let res = decode_length(&buf).unwrap();
    assert_eq!(res.offset, 3);
    assert_eq!(res.length, 1000);
    assert_eq!(res.expected_type, ExpectedType::ListType);
}

#[test]
fn round_trip_number() {
    assert_eq!(to_integer(&encode_number(1024u64)).unwrap(), 1024u64);
    assert_eq!(to_integer(&encode_number(56u64)).unwrap(), 56u64);
}
