use resp_codec::ser;
use resp_codec::RESPType;

#[test]
fn basic_test() {
    let obj = RESPType::SimpleString("magic".to_owned());
    let serialized = ser::to_string(&obj).unwrap();
    assert_eq!("+magic\r\n".to_owned(), serialized);
}
