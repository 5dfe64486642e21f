use my_bittorrent::bencoding::{Bencoding, DecodeError};

#[test]
fn legacy_decodes_a_string() {
    let value = Bencoding::decode("5:hello").unwrap().unwrap();
    assert_eq!(value.to_display_string(), "\"hello\"");
}

#[test]
fn legacy_decodes_an_integer() {
    let value = Bencoding::decode("i-52e").unwrap().unwrap();
    assert_eq!(value.to_display_string(), "-52");
}

#[test]
fn legacy_end_marker_is_no_value() {
    assert!(Bencoding::decode("e").unwrap().is_none());
}

#[test]
fn legacy_empty_input_cannot_decode() {
    assert!(matches!(Bencoding::decode(""), Err(DecodeError::CannotDecode)));
}

#[test]
fn legacy_integer_without_end() {
    assert!(matches!(Bencoding::decode("i12"), Err(DecodeError::MissingDelimiter)));
}

#[test]
fn legacy_invalid_integer() {
    assert!(matches!(Bencoding::decode("iabce"), Err(DecodeError::InvalidInteger)));
}

#[test]
fn legacy_short_string() {
    assert!(matches!(Bencoding::decode("5:abc"), Err(DecodeError::ShortString)));
}

#[test]
fn legacy_dictionary_keeps_each_key_once() {
    let value = Bencoding::decode("d1:ai1e1:bi5e1:ai2ee").unwrap().unwrap();
    assert_eq!(value.to_display_string(), "{a: 2 b: 5}");
}

#[test]
fn legacy_list_reads_its_length_first() {
    let value = Bencoding::decode("l2:i1e3:abce").unwrap().unwrap();
    assert_eq!(value.to_display_string(), "[1 \"abc\"]");
}

#[test]
fn legacy_list_length_must_be_a_number() {
    assert!(matches!(Bencoding::decode("lx:"), Err(DecodeError::InvalidLength)));
}

#[test]
fn legacy_list_ended_early() {
    assert!(matches!(Bencoding::decode("l3:i1ee"), Err(DecodeError::ShortList)));
}

#[test]
fn legacy_key_must_be_a_string() {
    assert!(matches!(Bencoding::decode("di1ei2ee"), Err(DecodeError::KeyNotString)));
}

#[test]
fn legacy_key_needs_a_value() {
    assert!(matches!(Bencoding::decode("d1:ae"), Err(DecodeError::MissingValue)));
}

#[test]
fn legacy_decode_prefix_says_where_the_value_ends() {
    let (v, end) = Bencoding::decode_prefix("11:hello world").unwrap();
    assert_eq!(v.unwrap().to_display_string(), "\"hello world\"");
    assert_eq!(end, 14);
    let (v, end) = Bencoding::decode_prefix("i-42e").unwrap();
    assert_eq!(v.unwrap().to_display_string(), "-42");
    assert_eq!(end, 5);
    let (v, end) = Bencoding::decode_prefix("e").unwrap();
    assert!(v.is_none());
    assert_eq!(end, 1);
    let (v, end) = Bencoding::decode_prefix("d3:fooi1ee").unwrap();
    assert_eq!(v.unwrap().to_display_string(), "{foo: 1}");
    assert_eq!(end, 10);
    let (v, end) = Bencoding::decode_prefix("l2:i1e1:a").unwrap();
    assert_eq!(v.unwrap().to_display_string(), "[1 \"a\"]");
    assert_eq!(end, 9);
}

#[test]
fn legacy_decode_prefix_reads_one_value() {
    let input = "i1ei2e";
    let (v, end) = Bencoding::decode_prefix(input).unwrap();
    assert_eq!(v.unwrap().to_display_string(), "1");
    assert_eq!(&input[end..], "i2e");
}

#[test]
fn legacy_decode_command_shows_the_value() {
    assert_eq!(Bencoding::decode_command("5:hello").unwrap(), Some(String::from("\"hello\"")));
    assert_eq!(Bencoding::decode_command("e").unwrap(), None);
    assert!(matches!(Bencoding::decode_command(""), Err(DecodeError::CannotDecode)));
}
