use my_bittorrent::bittorent::decode_command;
use my_bittorrent::bittorent::encoding::{Bencoding, DecodeError, Dict};

fn sample_dictionary() -> Bencoding {
    Bencoding::Dictionary(Dict::from_entries(vec![
        (
            String::from("string"),
            Bencoding::Raw(b"hello world".to_vec()),
        ),
        (String::from("integer"), Bencoding::Integer(12345678)),
        (
            String::from("list"),
            Bencoding::List(vec![Bencoding::Raw(b"inside nested list".to_vec())]),
        ),
        (
            String::from("dictionary"),
            Bencoding::Dictionary(Dict::from_entries(vec![(
                String::from("wololo"),
                Bencoding::Raw(b"inside nested dictionary".to_vec()),
            )])),
        ),
    ]))
}

#[test]
fn test_string() -> Result<(), DecodeError> {
    let bvalue = Bencoding::Raw(b"Hello world".to_vec());
    let encoded = bvalue.encode();
    assert_eq!(encoded, b"11:Hello world");

    let encoded = b"15:bencoded string".to_vec();
    let decoded = Bencoding::decode(encoded)?;
    assert_eq!(decoded, Bencoding::Raw(b"bencoded string".to_vec()));

    Ok(())
}

#[test]
fn test_integer() -> Result<(), DecodeError> {
    let bvalue = Bencoding::Integer(-123);
    let encoded = bvalue.encode();
    assert_eq!(encoded, b"i-123e");

    let encoded = b"i12345678e".to_vec();
    let decoded = Bencoding::decode(encoded)?;
    assert_eq!(decoded, Bencoding::Integer(12345678));

    Ok(())
}

#[test]
fn test_list() {
    let bvalue = Bencoding::List(vec![
        Bencoding::Raw(b"hello world".to_vec()),
        Bencoding::Integer(123456),
        Bencoding::List(vec![Bencoding::Raw(b"inside nested list".to_vec())]),
        Bencoding::Dictionary(Dict::from_entries(vec![(
            String::from("wololo"),
            Bencoding::Raw(b"inside nested dictionary".to_vec()),
        )])),
    ]);

    assert_eq!(
        bvalue.encode(),
        b"l11:hello worldi123456el18:inside nested listed6:wololo24:inside nested dictionaryee"
    );
}

#[test]
fn test_dictionary() {
    let bvalue = sample_dictionary();

    assert_eq!(
        bvalue.encode(),
        b"d10:dictionaryd6:wololo24:inside nested dictionarye7:integeri12345678e4:listl18:inside nested liste6:string11:hello worlde"
    );
}

#[test]
fn test_display() {
    let bvalue = sample_dictionary();

    let display_output = bvalue.to_display_string();

    let expected = r#"{"dictionary":{"wololo":"inside nested dictionary"},"integer":12345678,"list":["inside nested list"],"string":"hello world"}"#;

    assert_eq!(display_output.as_bytes(), expected.as_bytes());
}

#[test]
fn decoding_an_encoding_gives_the_value_back() {
    let value = sample_dictionary();
    let decoded = Bencoding::decode(value.encode()).unwrap();
    assert_eq!(decoded, value);

    let value = Bencoding::List(vec![
        Bencoding::Integer(0),
        Bencoding::Integer(i64::MIN),
        Bencoding::Integer(i64::MAX),
        Bencoding::Raw(Vec::new()),
        Bencoding::Raw(vec![0xff, 0x00, 0x3a]),
    ]);
    let decoded = Bencoding::decode(value.encode()).unwrap();
    assert_eq!(decoded, value);
}

#[test]
fn an_unterminated_integer_loses_its_last_digit() {
    assert_eq!(Bencoding::decode(b"i12".to_vec()), Ok(Bencoding::Integer(1)));
}

#[test]
fn decoding_ignores_what_follows_the_value() {
    let decoded = Bencoding::decode(b"i42etrailing".to_vec()).unwrap();
    assert_eq!(decoded, Bencoding::Integer(42));
}

#[test]
fn decode_errors() {
    assert_eq!(Bencoding::decode(Vec::new()), Err(DecodeError::UnexpectedEnd));
    assert_eq!(Bencoding::decode(b"i".to_vec()), Err(DecodeError::InvalidInteger));
    assert_eq!(Bencoding::decode(b"5:abc".to_vec()), Err(DecodeError::UnexpectedEnd));
    assert_eq!(Bencoding::decode(b"l".to_vec()), Err(DecodeError::UnexpectedEnd));
    assert_eq!(Bencoding::decode(b"iabce".to_vec()), Err(DecodeError::InvalidInteger));
    assert_eq!(Bencoding::decode(b"x:".to_vec()), Err(DecodeError::InvalidLength));
    assert_eq!(Bencoding::decode(b"di1ei2ee".to_vec()), Err(DecodeError::KeyNotString));
    assert_eq!(Bencoding::decode(b"d1:\xffi1ee".to_vec()), Err(DecodeError::InvalidKey));
}

#[test]
fn dictionary_keys_are_sorted_and_replaced() {
    let mut d = Dict::new();
    d.insert(String::from("b"), Bencoding::Integer(1));
    d.insert(String::from("a"), Bencoding::Integer(2));
    d.insert(String::from("b"), Bencoding::Integer(3));
    assert_eq!(d.len(), 2);
    assert_eq!(d.get("b"), Some(&Bencoding::Integer(3)));
    assert_eq!(d.get("c"), None);
    assert_eq!(Bencoding::Dictionary(d).encode(), b"d1:ai2e1:bi3ee");

    let mut d = Dict::from_entries(vec![
        (String::from("x"), Bencoding::Integer(1)),
        (String::from("x"), Bencoding::Integer(2)),
    ]);
    assert_eq!(d.len(), 1);
    assert_eq!(d.remove("x"), Some(Bencoding::Integer(2)));
    assert_eq!(d.remove("x"), None);
    assert_eq!(d.len(), 0);
}

#[test]
fn display_shows_bytes_that_are_not_utf8_in_hex() {
    let value = Bencoding::List(vec![Bencoding::Raw(vec![0xff, 0x01]), Bencoding::Integer(-5)]);
    assert_eq!(value.to_display_string(), "[\"ff01\",-5]");
}

#[test]
fn decoded_dictionaries_come_sorted() {
    let decoded = Bencoding::decode(b"d1:bi1e1:ai2e1:bi3ee".to_vec()).unwrap();
    assert_eq!(decoded.encode(), b"d1:ai2e1:bi3ee".to_vec());
}

#[test]
fn decode_from_cursor_reads_exactly_one_value() {
    let value = sample_dictionary();
    let mut data = b"xyz".to_vec();
    data.extend(value.encode());
    data.extend(b"i7e");
    let (decoded, end) = Bencoding::decode_from_cursor(&data, 3).unwrap();
    assert_eq!(decoded, value);
    assert_eq!(&data[end..], b"i7e");
}

#[test]
fn decode_command_prints_the_display() {
    assert_eq!(decode_command(String::from("li1e3:abce")).unwrap(), "[1,\"abc\"]");
    assert_eq!(decode_command(String::from("x")), Err(DecodeError::InvalidLength));
}
