use resp_codec::de;
use resp_codec::ser;
use resp_codec::{Error, RESPType};

#[test]
fn decode_simple_string() {
    assert_eq!(
        Ok(RESPType::SimpleString("OK".to_owned())),
        de::from_str("+OK\r\n")
    );
}

#[test]
fn decode_integer() {
    assert_eq!(Ok(RESPType::Integer(1000)), de::from_str(":1000\r\n"));
}

#[test]
fn decode_bulk_string() {
    assert_eq!(
        Ok(RESPType::BulkString(Some(b"foobar".to_vec()))),
        de::from_str("$6\r\nfoobar\r\n")
    );
    assert_eq!(
        Ok(RESPType::BulkString(Some(vec![]))),
        de::from_str("$0\r\n\r\n")
    );
    assert_eq!(Ok(RESPType::BulkString(None)), de::from_str("$-1\r\n"));
}

#[test]
fn decode_null_array() {
    assert_eq!(Ok(RESPType::Array(None)), de::from_str("*-1\r\n"));
}

#[test]
fn decode_mixed_array() {
    let expected = RESPType::Array(Some(vec![
        RESPType::Integer(1),
        RESPType::BulkString(Some(b"foobar".to_vec())),
    ]));
    assert_eq!(Ok(expected), de::from_str("*2\r\n:1\r\n$6\r\nfoobar\r\n"));
}

#[test]
fn decode_nested_array() {
    let expected = RESPType::Array(Some(vec![
        RESPType::Array(Some(vec![
            RESPType::Integer(1),
            RESPType::Integer(2),
            RESPType::Integer(3),
        ])),
        RESPType::BulkString(None),
        RESPType::Array(Some(vec![
            RESPType::SimpleString("Foo".to_owned()),
            RESPType::Error("Bar".to_owned()),
        ])),
    ]));
    assert_eq!(
        Ok(expected),
        de::from_str("*3\r\n*3\r\n:1\r\n:2\r\n:3\r\n$-1\r\n*2\r\n+Foo\r\n-Bar\r\n")
    );
}

#[test]
fn decode_error_string() {
    assert_eq!(
        Ok(RESPType::Error("ERR unknown command 'foobar'".to_owned())),
        de::from_str("-ERR unknown command 'foobar'\r\n")
    );
}

#[test]
fn truncated_payload_is_eof() {
    assert_eq!(Err::<RESPType, _>(Error::Eof), de::from_str("$6\r\nfoo"));
}

#[test]
fn unknown_tag_is_syntax() {
    assert_eq!(Err::<RESPType, _>(Error::Syntax), de::from_str("@\r\n"));
}

#[test]
fn trailing_data_is_rejected() {
    assert_eq!(
        Err::<RESPType, _>(Error::TrailingDataError),
        de::from_str("+OK\r\nextra")
    );
}

#[test]
fn empty_input_is_eof() {
    assert_eq!(Err::<RESPType, _>(Error::Eof), de::from_str(""));
}

#[test]
fn unterminated_line_is_eof() {
    assert_eq!(Err::<RESPType, _>(Error::Eof), de::from_str("+OK"));
    assert_eq!(Err::<RESPType, _>(Error::Eof), de::from_str(":12"));
}

#[test]
fn bulk_payload_without_terminator() {
    // payload present, terminator bytes missing entirely
    assert_eq!(Err::<RESPType, _>(Error::Eof), de::from_str("$3\r\nabc"));
    // payload present, the two bytes after it are not the terminator
    assert_eq!(Err::<RESPType, _>(Error::Syntax), de::from_str("$3\r\nabcXY"));
}

#[test]
fn malformed_numbers_are_syntax() {
    assert_eq!(Err::<RESPType, _>(Error::Syntax), de::from_str(":\r\n"));
    assert_eq!(Err::<RESPType, _>(Error::Syntax), de::from_str(":abc\r\n"));
    assert_eq!(Err::<RESPType, _>(Error::Syntax), de::from_str(": 5\r\n"));
    assert_eq!(Err::<RESPType, _>(Error::Syntax), de::from_str(":-\r\n"));
    // out of the signed 64-bit range
    assert_eq!(
        Err::<RESPType, _>(Error::Syntax),
        de::from_str(":99999999999999999999\r\n")
    );
    assert_eq!(
        Err::<RESPType, _>(Error::Syntax),
        de::from_str(":-99999999999999999999\r\n")
    );
    assert_eq!(Err::<RESPType, _>(Error::Syntax), de::from_str("$x\r\n"));
}

#[test]
fn signed_and_padded_numbers_parse() {
    assert_eq!(Ok(RESPType::Integer(5)), de::from_str(":+5\r\n"));
    assert_eq!(Ok(RESPType::Integer(7)), de::from_str(":007\r\n"));
    assert_eq!(Ok(RESPType::Integer(-12)), de::from_str(":-12\r\n"));
    assert_eq!(
        Ok(RESPType::Integer(i64::MIN)),
        de::from_str(":-9223372036854775808\r\n")
    );
    assert_eq!(
        Ok(RESPType::Integer(i64::MAX)),
        de::from_str(":9223372036854775807\r\n")
    );
}

#[test]
fn invalid_utf8_text_is_rejected() {
    assert_eq!(
        Err::<RESPType, _>(Error::TextEncodingError),
        de::from_bytes(b"+\xff\xff\r\n")
    );
    // the same bytes are fine as a bulk payload
    assert_eq!(
        Ok(RESPType::BulkString(Some(vec![0xff, 0xff]))),
        de::from_bytes(b"$2\r\n\xff\xff\r\n")
    );
}

#[test]
fn decode_value_reports_consumed() {
    let input = b"+OK\r\nextra";
    let (v, consumed) = de::decode_value(input, 0).unwrap();
    assert_eq!(RESPType::SimpleString("OK".to_owned()), v);
    assert_eq!(5, consumed);
}

#[test]
fn deserializer_reads_a_stream_of_values() {
    let mut d = de::Deserializer::from_buf_reader(b"+a\r\n:5\r\n$-1\r\n".to_vec());
    assert!(!d.finished());
    assert_eq!(
        Ok(RESPType::SimpleString("a".to_owned())),
        d.deserialize_any()
    );
    assert_eq!(Ok(RESPType::Integer(5)), d.deserialize_any());
    assert_eq!(Ok(RESPType::BulkString(None)), d.deserialize_any());
    assert!(d.finished());
    assert_eq!(Err::<RESPType, _>(Error::Eof), d.deserialize_any());
}

#[test]
fn read_isize_reads_length_lines() {
    let mut d = de::Deserializer::from_buf_reader(b"123\r\n-1\r\n".to_vec());
    assert_eq!(Ok(123isize), d.read_isize());
    assert_eq!(Ok(-1isize), d.read_isize());
    assert_eq!(Err::<isize, _>(Error::Eof), d.read_isize());

    let mut d = de::Deserializer::from_buf_reader(b"abc\r\n".to_vec());
    assert_eq!(Err::<isize, _>(Error::Syntax), d.read_isize());
}

#[test]
fn round_trip_returns_the_value() {
    let values = vec![
        RESPType::SimpleString("".to_owned()),
        RESPType::SimpleString("hello world".to_owned()),
        RESPType::Error("ERR oops".to_owned()),
        RESPType::Integer(0),
        RESPType::Integer(-1),
        RESPType::Integer(i64::MAX),
        RESPType::Integer(i64::MIN),
        RESPType::BulkString(None),
        RESPType::BulkString(Some(vec![])),
        RESPType::BulkString(Some(b"binary \x00\x01\xff payload".to_vec())),
        RESPType::BulkString(Some(b"with\r\nterminator inside".to_vec())),
        RESPType::Array(None),
        RESPType::Array(Some(vec![])),
        RESPType::Array(Some(vec![
            RESPType::Array(Some(vec![RESPType::Integer(1), RESPType::BulkString(None)])),
            RESPType::SimpleString("deep".to_owned()),
            RESPType::Array(Some(vec![RESPType::Array(Some(vec![]))])),
        ])),
    ];
    for v in values {
        let mut bytes: Vec<u8> = Vec::new();
        ser::to_writer(&v, &mut bytes).unwrap();
        assert_eq!(Ok(&v), de::from_bytes(&bytes).as_ref());
    }
}

#[test]
fn round_trip_of_text_values() {
    let v = RESPType::Array(Some(vec![
        RESPType::SimpleString("unicode: ä ↑ 😀".to_owned()),
        RESPType::Error("mixed ü".to_owned()),
    ]));
    let text = ser::to_string(&v).unwrap();
    assert_eq!(Ok(v), de::from_str(&text));
}
