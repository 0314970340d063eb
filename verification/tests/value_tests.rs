use resp_codec::{de, ser, Error, RESPType};

#[test]
fn error_messages() {
    assert_eq!("unexpected end of input", Error::Eof.message());
    assert_eq!("syntax error", Error::Syntax.message());
    assert_eq!(
        "integer out of the signed 64-bit range",
        Error::IntegerOutOfBound.message()
    );
    assert_eq!("unsupported type", Error::UnsupportedType.message());
    assert_eq!("invalid text encoding", Error::TextEncodingError.message());
    assert_eq!("an IO error occurred", Error::TransportError.message());
    assert_eq!(
        "trailing data after a complete value",
        Error::TrailingDataError.message()
    );
}

#[test]
fn well_formedness_of_text() {
    assert!(RESPType::SimpleString("OK".to_owned()).is_well_formed());
    assert!(RESPType::SimpleString("".to_owned()).is_well_formed());
    // a lone carriage return or line feed is not the terminator sequence
    assert!(RESPType::SimpleString("a\rb".to_owned()).is_well_formed());
    assert!(RESPType::Error("a\nb".to_owned()).is_well_formed());
    // the two-byte terminator inside line content breaks the framing
    assert!(!RESPType::SimpleString("a\r\nb".to_owned()).is_well_formed());
    assert!(!RESPType::Error("oops\r\n".to_owned()).is_well_formed());
}

#[test]
fn well_formedness_of_structures() {
    assert!(RESPType::Integer(i64::MIN).is_well_formed());
    assert!(RESPType::BulkString(None).is_well_formed());
    // a bulk payload may contain the terminator: it is length-framed
    assert!(RESPType::BulkString(Some(b"a\r\nb".to_vec())).is_well_formed());
    assert!(RESPType::Array(None).is_well_formed());
    assert!(RESPType::Array(Some(vec![])).is_well_formed());
    let good = RESPType::Array(Some(vec![
        RESPType::SimpleString("fine".to_owned()),
        RESPType::Array(Some(vec![RESPType::Integer(3)])),
    ]));
    assert!(good.is_well_formed());
    let bad_inside = RESPType::Array(Some(vec![
        RESPType::Integer(1),
        RESPType::Array(Some(vec![RESPType::SimpleString("a\r\nb".to_owned())])),
    ]));
    assert!(!bad_inside.is_well_formed());
}

#[test]
fn clone_is_deep_and_equal() {
    let v = RESPType::Array(Some(vec![
        RESPType::SimpleString("abc".to_owned()),
        RESPType::BulkString(Some(vec![1, 2, 3])),
        RESPType::Array(Some(vec![RESPType::Integer(-4), RESPType::Array(None)])),
    ]));
    let w = v.clone();
    assert_eq!(v, w);
    // the clone encodes to the same bytes
    assert_eq!(ser::to_string(&v).unwrap(), ser::to_string(&w).unwrap());
}

#[test]
fn decoded_values_are_well_formed() {
    let v = de::from_str("*2\r\n+first\r\n$2\r\nok\r\n").unwrap();
    assert!(v.is_well_formed());
    let v = de::from_str(":007\r\n").unwrap();
    assert!(v.is_well_formed());
}

#[test]
fn well_formed_values_round_trip() {
    let v = RESPType::Array(Some(vec![
        RESPType::SimpleString("a\rb".to_owned()),
        RESPType::BulkString(Some(b"x\r\ny".to_vec())),
    ]));
    assert!(v.is_well_formed());
    let mut bytes: Vec<u8> = Vec::new();
    ser::to_writer(&v, &mut bytes).unwrap();
    assert_eq!(Ok(v), de::from_bytes(&bytes));
}
