use rlp_codec::de::{decode_string, from_bytes, texts_of, RlpValue};
use rlp_codec::error::Error;

fn as_list(v: RlpValue) -> Vec<RlpValue> {
    match v {
        RlpValue::List(items) => items,
        RlpValue::Bytes(_) => panic!("expected a list"),
    }
}

#[test]
fn deserialize_short_string() {
    let foo: String = decode_string(&[0x61u8]).unwrap();
    assert_eq!(foo, "a");
}

#[test]
fn deserialize_longer_string() {
    let foo: String = decode_string(&[0x83, 0x61, 0x62, 0x63]).unwrap();
    assert_eq!(foo, "abc");
}

#[test]
fn deserialize_short_array() {
    let v = from_bytes(&[0xc8, 0x83, 0x61, 0x62, 0x63, 0x83, 0x64, 0x65, 0x66]).unwrap();
    let foo: Vec<String> = texts_of(&v).unwrap();
    assert_eq!(foo, vec!["abc", "def"]);
}

#[test]
fn deserialize_nested_sequence_of_string_seq() {
    let v = from_bytes(&[0xc9, 0xc8, 0x83, 0x61, 0x62, 0x63, 0x83, 0x64, 0x65, 0x66]).unwrap();
    let mut foo: Vec<Vec<String>> = Vec::new();
    for item in as_list(v) {
        foo.push(texts_of(&item).unwrap());
    }
    assert_eq!(foo, vec![vec!["abc", "def"]]);
}

#[test]
fn deserialize_set_representation_of_three() {
    let foo = from_bytes(&[0xc7, 0xc0, 0xc1, 0xc0, 0xc3, 0xc0, 0xc1, 0xc0]);
    assert_eq!(
        foo,
        Ok(RlpValue::List(vec![
            RlpValue::List(vec![]),
            RlpValue::List(vec![RlpValue::List(vec![])]),
            RlpValue::List(vec![
                RlpValue::List(vec![]),
                RlpValue::List(vec![RlpValue::List(vec![])]),
            ]),
        ]))
    );
}

#[test]
fn deserialize_three_levels() {
    let v = from_bytes(&[0xca, 0xc9, 0xc8, 0x83, 0x61, 0x62, 0x63, 0x83, 0x64, 0x65, 0x66])
        .unwrap();
    let mut foo: Vec<Vec<Vec<String>>> = Vec::new();
    for middle in as_list(v) {
        let mut m: Vec<Vec<String>> = Vec::new();
        for inner in as_list(middle) {
            m.push(texts_of(&inner).unwrap());
        }
        foo.push(m);
    }
    assert_eq!(foo, [[["abc", "def"]]]);
}

#[test]
#[should_panic]
fn simple_invalid() {
    let _foo: String = decode_string(&[0x83, 0x61, 0x62, 0x63, /* excess */ 0xff]).unwrap();
}

#[test]
fn invalid_complex() {
    let data : Vec<_> = "f86103018207d094b94f5374fce5edbc8e2a8697c15331677e6ebf0b0a8255441ca098ff921201554726367d2be8c00804a7ff89ccf285ebc57dff8ae4c44b9c19ac4aa08887321be575c8095f789dd4c743dfe42c1820f9231f98a962b210e3ac2452a3"
        .as_bytes()
        .chunks(2)
        .map(|ch| {
            std::str::from_utf8(ch)
                .ok()
                .and_then(|res| u8::from_str_radix(res, 16).ok())
        })
        .collect::<Option<_>>()
        .unwrap();
    // The outer list declares a 97-byte body, but that body cuts the
    // final 32-byte string element short, so the string's own header
    // overruns the data.
    assert_eq!(from_bytes(&data).unwrap_err(), Error::StringPrefixTooSmall);
}

#[test]
fn trailing_bytes_after_string() {
    assert_eq!(
        decode_string(&[0x83, 0x61, 0x62, 0x63, 0xff]).unwrap_err(),
        Error::TrailingBytes
    );
}

#[test]
fn empty_input_is_empty_buffer_not_trailing() {
    assert_eq!(decode_string(&[]).unwrap_err(), Error::EmptyBuffer);
    assert_eq!(from_bytes(&[]).unwrap_err(), Error::EmptyBuffer);
}
