use resp_codec::ser;
use resp_codec::{Error, RESPType};

#[test]
fn serialize_simple_string() {
    let obj = RESPType::SimpleString("OK".to_owned());
    let serialized = ser::to_string(&obj).unwrap();
    assert_eq!("+OK\r\n".to_owned(), serialized);
}

#[test]
fn serialize_error() {
    let obj = RESPType::Error("ERR unknown command 'foobar'".to_owned());
    let serialized = ser::to_string(&obj).unwrap();
    assert_eq!("-ERR unknown command 'foobar'\r\n".to_owned(), serialized);
    let obj = RESPType::Error(
        "WRONGTYPE Operation against a key holding the wrong kind of value".to_owned(),
    );
    let serialized = ser::to_string(&obj).unwrap();
    assert_eq!(
        "-WRONGTYPE Operation against a key holding the wrong kind of value\r\n".to_owned(),
        serialized
    );
}

#[test]
fn serialize_integer() {
    let obj = RESPType::Integer(1000);
    let serialized = ser::to_string(&obj).unwrap();
    assert_eq!(":1000\r\n".to_owned(), serialized);
}

#[test]
fn serialize_bulk_string() {
    // Regular Example
    let obj = RESPType::BulkString(Some(b"foobar".to_vec()));
    let serialized = ser::to_string(&obj).unwrap();
    assert_eq!("$6\r\nfoobar\r\n".to_owned(), serialized);

    // Empty
    let obj = RESPType::BulkString(Some(b"".to_vec()));
    let serialized = ser::to_string(&obj).unwrap();
    assert_eq!("$0\r\n\r\n".to_owned(), serialized);

    // Null
    let obj = RESPType::BulkString(None);
    let serialized = ser::to_string(&obj).unwrap();
    assert_eq!("$-1\r\n".to_owned(), serialized);
}

#[test]
fn serialize_array() {
    let obj = RESPType::Array(Some(vec![]));
    let serialized = ser::to_string(&obj).unwrap();
    assert_eq!("*0\r\n".to_owned(), serialized);

    // Regular Example
    let obj = RESPType::Array(Some(vec![
        RESPType::BulkString(Some(b"foo".to_vec())),
        RESPType::BulkString(Some(b"bar".to_vec())),
    ]));
    let serialized = ser::to_string(&obj).unwrap();
    assert_eq!("*2\r\n$3\r\nfoo\r\n$3\r\nbar\r\n".to_owned(), serialized);

    // Another Regular Example
    let obj = RESPType::Array(Some(vec![
        RESPType::Integer(1),
        RESPType::Integer(2),
        RESPType::Integer(3),
    ]));
    let serialized = ser::to_string(&obj).unwrap();
    assert_eq!("*3\r\n:1\r\n:2\r\n:3\r\n".to_owned(), serialized);

    // Mixed Type
    let obj = RESPType::Array(Some(vec![
        RESPType::Integer(1),
        RESPType::Integer(2),
        RESPType::Integer(3),
        RESPType::Integer(4),
        RESPType::BulkString(Some(b"foobar".to_vec())),
    ]));
    let serialized = ser::to_string(&obj).unwrap();
    assert_eq!(
        "*5\r\n:1\r\n:2\r\n:3\r\n:4\r\n$6\r\nfoobar\r\n".to_owned(),
        serialized
    );

    // Null Array
    let obj = RESPType::Array(None);
    let serialized = ser::to_string(&obj).unwrap();
    assert_eq!("*-1\r\n".to_owned(), serialized);

    // Arrays of Arrays
    let subarr1 = vec![
        RESPType::Integer(1),
        RESPType::Integer(2),
        RESPType::Integer(3),
    ];
    let subarr2 = vec![
        RESPType::SimpleString("Foo".to_owned()),
        RESPType::Error("Bar".to_owned()),
    ];
    let arr = vec![
        RESPType::Array(Some(subarr1)),
        RESPType::Array(Some(subarr2)),
    ];
    let obj = RESPType::Array(Some(arr));
    let serialized = ser::to_string(&obj).unwrap();
    assert_eq!(
        "*2\r\n*3\r\n:1\r\n:2\r\n:3\r\n*2\r\n+Foo\r\n-Bar\r\n".to_owned(),
        serialized
    );

    // Null elements in Arrays
    let arr = vec![
        RESPType::BulkString(Some(b"foo".to_vec())),
        RESPType::BulkString(None),
        RESPType::BulkString(Some(b"bar".to_vec())),
    ];
    let obj = RESPType::Array(Some(arr));
    let serialized = ser::to_string(&obj).unwrap();
    assert_eq!(
        "*3\r\n$3\r\nfoo\r\n$-1\r\n$3\r\nbar\r\n".to_owned(),
        serialized
    );
}

#[test]
fn integer_boundary() {
    // the maximum signed 64-bit value encodes
    let mut s = ser::Serializer::new();
    assert_eq!(Ok(()), s.serialize_u64(9223372036854775807u64));
    assert_eq!(b":9223372036854775807\r\n".to_vec(), s.into_bytes());

    // one more than the maximum is rejected before any byte is written
    let mut s = ser::Serializer::new();
    assert_eq!(Err(Error::IntegerOutOfBound), s.serialize_u64(9223372036854775808u64));
    assert_eq!(b"".to_vec(), s.into_bytes());
}

#[test]
fn integer_minimum() {
    let obj = RESPType::Integer(i64::MIN);
    let serialized = ser::to_string(&obj).unwrap();
    assert_eq!(":-9223372036854775808\r\n".to_owned(), serialized);
}

#[test]
fn serialize_widths() {
    let mut s = ser::Serializer::new();
    assert_eq!(Ok(()), s.serialize_i8(-7));
    assert_eq!(Ok(()), s.serialize_i16(-300));
    assert_eq!(Ok(()), s.serialize_i32(70000));
    assert_eq!(Ok(()), s.serialize_u8(255));
    assert_eq!(Ok(()), s.serialize_u16(65535));
    assert_eq!(Ok(()), s.serialize_u32(4294967295));
    assert_eq!(Err(Error::UnsupportedType), s.serialize_bool(true));
    assert_eq!(
        b":-7\r\n:-300\r\n:70000\r\n:255\r\n:65535\r\n:4294967295\r\n".to_vec(),
        s.into_bytes()
    );
}

#[test]
fn bulk_null_vs_empty() {
    assert_eq!(
        "$-1\r\n",
        ser::to_string(&RESPType::BulkString(None)).unwrap()
    );
    assert_eq!(
        "$0\r\n\r\n",
        ser::to_string(&RESPType::BulkString(Some(vec![]))).unwrap()
    );
}

#[test]
fn array_null_vs_empty() {
    assert_eq!("*-1\r\n", ser::to_string(&RESPType::Array(None)).unwrap());
    assert_eq!(
        "*0\r\n",
        ser::to_string(&RESPType::Array(Some(vec![]))).unwrap()
    );
}

#[test]
fn to_string_rejects_binary_payload() {
    // a bulk payload that is not valid UTF-8 cannot become text
    let obj = RESPType::BulkString(Some(vec![0xff, 0xfe]));
    assert_eq!(Err(Error::TextEncodingError), ser::to_string(&obj));
    // the byte form takes it without complaint
    let mut out: Vec<u8> = Vec::new();
    assert_eq!(Ok(()), ser::to_writer(&obj, &mut out));
    assert_eq!(b"$2\r\n\xff\xfe\r\n".to_vec(), out);
}

#[test]
fn to_writer_appends() {
    let mut out: Vec<u8> = b"ahead:".to_vec();
    assert_eq!(
        Ok(()),
        ser::to_writer(&RESPType::SimpleString("x".to_owned()), &mut out)
    );
    assert_eq!(b"ahead:+x\r\n".to_vec(), out);
}
