use bytes::BytesMut;
use simple_redis::resp::decode::extract_end_string;
use simple_redis::resp::frame::{
    BulkString, NullBulkString, RespArray, RespBoolean, RespDouble, RespFrame, RespInteger,
    RespNull, RespNullArray, RespSet, SimpleError, SimpleString,
};
use simple_redis::resp::map::RespMap;
use simple_redis::resp::{RespDecode, RespEncode, RespError};

fn double(text: &str) -> RespDouble {
    RespDouble::from_text(text.to_string()).unwrap()
}

#[test]
fn test_array_encode() {
    let array = RespArray::from_vec(vec![
        RespFrame::SimpleString(SimpleString::new("a".to_string())),
        RespFrame::SimpleString(SimpleString::new("b".to_string())),
    ]);
    let encoded = array.encode();
    assert_eq!(encoded, b"*2\r\n+a\r\n+b\r\n");
}

#[test]
fn test_null_array_encode() {
    let array = RespArray::null();
    let encoded = array.encode();
    assert_eq!(encoded, b"*-1\r\n");
}

#[test]
fn test_array_decode() {
    let mut buf = BytesMut::from("*2\r\n+a\r\n+b\r\n");
    let array = RespArray::decode(&mut buf).unwrap();
    assert_eq!(
        array,
        RespArray::from_vec(vec![
            RespFrame::SimpleString(SimpleString::new("a".to_string())),
            RespFrame::SimpleString(SimpleString::new("b".to_string())),
        ])
    );
}

#[test]
fn test_null_array_decode() {
    let mut buf = BytesMut::from("*-1\r\n");
    let array = RespNullArray::decode(&mut buf).unwrap();
    assert_eq!(array, RespNullArray);
}

#[test]
fn test_boolean_encode() {
    let true_boolean = RespBoolean::new(true);
    let frame: RespFrame = true_boolean.into();
    let encoded = frame.encode();
    assert_eq!(encoded, b"#t\r\n");

    let false_boolean = RespBoolean::new(false);
    let frame: RespFrame = false_boolean.into();
    let encoded = frame.encode();
    assert_eq!(encoded, b"#f\r\n");
}

#[test]
fn test_boolean_decode() {
    let true_boolean = RespBoolean::new(true);
    let frame: RespFrame = true_boolean.into();
    let encoded = frame.encode();
    let mut encoded = BytesMut::from(encoded.as_slice());
    let decoded = RespBoolean::decode(&mut encoded).unwrap();
    assert_eq!(decoded, RespBoolean::new(true));

    let false_boolean = RespBoolean::new(false);
    let frame: RespFrame = false_boolean.into();
    let encoded = frame.encode();
    let mut encoded = BytesMut::from(encoded.as_slice());
    let decoded = RespBoolean::decode(&mut encoded).unwrap();
    assert_eq!(decoded, RespBoolean::new(false));
}

#[test]
fn test_bulk_string_encode() {
    let bulk_string = BulkString::from_string(b"hello");
    let frame: RespFrame = bulk_string.into();
    let encoded = frame.encode();
    assert_eq!(encoded, b"$5\r\nhello\r\n");

    let null_bulk_string = BulkString::null();
    let frame: RespFrame = null_bulk_string.into();
    let encoded = frame.encode();
    assert_eq!(encoded, b"$-1\r\n");
}

#[test]
fn test_bulk_string_decode() {
    let mut buf = BytesMut::new();
    buf.extend_from_slice(b"$5\r\nhello\r\n".as_ref());
    let bulk_string = BulkString::decode(&mut buf).unwrap();
    assert_eq!(bulk_string, BulkString::from_string(b"hello"));
}

#[test]
fn test_null_bulk_string_decode() {
    let mut buf = BytesMut::new();
    buf.extend_from_slice(b"$-1\r\n".as_ref());
    let null_bulk_string = NullBulkString::decode(&mut buf).unwrap();
    assert_eq!(null_bulk_string, NullBulkString);
}

#[test]
fn test_null_bulk_string_encode() {
    let null_bulk_string = NullBulkString;
    let frame: RespFrame = null_bulk_string.into();
    let encoded = frame.encode();
    assert_eq!(encoded, b"$-1\r\n");
}

#[test]
fn test_extract_end_string() {
    let mut buf = BytesMut::from("+OK\r\n");
    let end = extract_end_string(&mut buf, "+", "SimpleString");
    assert_eq!(end, Ok("OK".to_string()));
    let mut buf = BytesMut::from("+334\r\n");
    let end = extract_end_string(&mut buf, "-", "RespInteger");
    assert_eq!(
        end,
        Err(RespError::InvalidFrameType(format!(
            "RespInteger expect: - , but got {:?}",
            buf.as_ref()
        )))
    );
    let mut buf = BytesMut::from("+OK\r");
    let end = extract_end_string(&mut buf, "+", "SimpleString");
    assert_eq!(end, Err(RespError::NotComplete));
}

#[test]
fn test_double_decode() {
    let mut bytes = BytesMut::from(",+3.1415928e+8\r\n");
    let frame = RespDouble::decode(&mut bytes).unwrap();
    assert_eq!(frame.text().parse::<f64>().unwrap(), 3.1415928e8);
}

#[test]
fn test_error_encode() {
    let error = SimpleError::new("Error message".to_string());
    let frame: RespFrame = error.into();
    let encoded = frame.encode();
    assert_eq!(encoded, b"-Error message\r\n");
}

#[test]
fn test_simple_error_decode() {
    let mut buf = BytesMut::from("-334\r\n");
    let simple_error = SimpleError::decode(&mut buf).unwrap();
    assert_eq!(simple_error, SimpleError::new("334".to_string()));

    buf.extend_from_slice(b"-334\r");
    let simple_error: Result<SimpleError, RespError> = SimpleError::decode(&mut buf);
    assert_eq!(simple_error, Err(RespError::NotComplete));

    buf.extend_from_slice(b"\n");
    let simple_error: Result<SimpleError, RespError> = SimpleError::decode(&mut buf);
    assert_eq!(simple_error, Ok(SimpleError::new("334".to_string())));

    buf.extend_from_slice(b"+OK");
    let simple_error = SimpleError::decode(&mut buf);
    assert_eq!(
        simple_error,
        Err(RespError::InvalidFrameType(format!(
            "SimpleError expect: - , but got {:?}",
            buf.as_ref()
        )))
    );
}

#[test]
fn test_integer_encode() {
    let integer = RespInteger::new(123);
    let frame: RespFrame = integer.into();
    let encoded = frame.encode();
    assert_eq!(encoded, b":123\r\n");

    let negative_integer = RespInteger::new(-456);
    let frame: RespFrame = negative_integer.into();
    let encoded = frame.encode();
    assert_eq!(encoded, b":-456\r\n");
}

#[test]
fn test_integer_decode() {
    let mut buf = BytesMut::from(":123\r\n");
    let integer = RespInteger::decode(&mut buf).unwrap();
    assert_eq!(integer, RespInteger::new(123));

    buf.extend_from_slice(b":+123\r");
    let integer: Result<RespInteger, RespError> = RespInteger::decode(&mut buf);
    assert_eq!(integer, Err(RespError::NotComplete));

    buf.extend_from_slice(b"\n");
    let integer: Result<RespInteger, RespError> = RespInteger::decode(&mut buf);
    assert_eq!(integer, Ok(RespInteger::new(123)));

    buf.extend_from_slice(b":-123\r\n");
    let integer = RespInteger::decode(&mut buf);
    assert_eq!(integer, Ok(RespInteger::new(-123)));

    buf.extend_from_slice(b"+OK");
    let integer = RespInteger::decode(&mut buf);
    assert_eq!(
        integer,
        Err(RespError::InvalidFrameType(format!(
            "RespInteger expect: : , but got {:?}",
            buf.as_ref()
        )))
    );
}

#[test]
fn test_map_encode() {
    let mut map = RespMap::new();
    map.insert("first".to_string(), RespInteger::new(123).into());
    map.insert(
        "second".to_string(),
        RespFrame::SimpleString(SimpleString::new("hello".to_string())),
    );
    map.insert("third".to_string(), RespFrame::Double(double("+4.14")));
    map.insert(
        "fourth".to_string(),
        RespFrame::Boolean(RespBoolean::new(true)),
    );
    let frame: RespFrame = map.into();
    let encoded = frame.encode();
    let encoded_str = String::from_utf8(encoded).unwrap();
    assert_eq!(
        encoded_str,
        "%4\r\n+first\r\n:123\r\n+fourth\r\n#t\r\n+second\r\n+hello\r\n+third\r\n,+4.14\r\n"
    );
}

#[test]
fn test_map_decode() {
    let encoded =
        b"%4\r\n+first\r\n:123\r\n+fourth\r\n#t\r\n+second\r\n+hello\r\n+third\r\n,+4.14\r\n";
    let mut buf = BytesMut::from(encoded.as_ref());
    let map = RespMap::decode(&mut buf).unwrap();
    assert_eq!(map.len(), 4);
    assert_eq!(
        map.get("first").unwrap(),
        &RespFrame::Integer(RespInteger::new(123))
    );
    assert_eq!(
        map.get("second").unwrap(),
        &RespFrame::SimpleString(SimpleString::new("hello".to_string()))
    );
    match map.get("third").unwrap() {
        RespFrame::Double(d) => assert_eq!(d.text().parse::<f64>().unwrap(), 4.14),
        other => panic!("expected a double, got {:?}", other),
    }
    assert_eq!(
        map.get("fourth").unwrap(),
        &RespFrame::Boolean(RespBoolean::new(true))
    );
}

#[test]
fn test_null_encode() {
    let null = RespNull;
    let frame: RespFrame = null.into();
    let encoded = frame.encode();
    assert_eq!(encoded, b"_\r\n");
}

#[test]
fn test_set_encode() {
    let set = vec![
        RespFrame::SimpleString(SimpleString::new("value1".to_string())),
        RespFrame::Integer(RespInteger::new(123)),
        RespFrame::Double(double("+4.14")),
        RespFrame::Boolean(RespBoolean::new(false)),
        RespFrame::Array(RespArray::new(Some(vec![
            RespFrame::SimpleString(SimpleString::new("nested1".to_string())),
            RespFrame::Integer(RespInteger::new(456)),
        ]))),
    ];
    let set_struct = RespSet::new(set);
    let frame: RespFrame = set_struct.into();
    let encoded = frame.encode();
    let encoded_str = String::from_utf8(encoded).unwrap();
    assert_eq!(
        encoded_str,
        "~5\r\n+value1\r\n:123\r\n,+4.14\r\n#f\r\n*2\r\n+nested1\r\n:456\r\n"
    );
}

#[test]
fn test_set_decode() {
    let mut buf = BytesMut::new();
    buf.extend(b"~5\r\n+value1\r\n:123\r\n,+3.14\r\n#f\r\n*2\r\n+nested1\r\n:456\r\n".as_ref());
    let set = RespSet::decode(&mut buf).unwrap();
    assert_eq!(set.elements.len(), 5);
}

#[test]
fn test_simple_string_decode() {
    let mut buf = BytesMut::from("+OK\r\n");
    let simple_string = SimpleString::decode(&mut buf).unwrap();
    assert_eq!(simple_string, SimpleString::new("OK".to_string()));

    buf.extend_from_slice(b"+OK\r");
    let simple_string: Result<SimpleString, RespError> = SimpleString::decode(&mut buf);
    assert_eq!(simple_string, Err(RespError::NotComplete));

    buf.extend_from_slice(b"\n");
    let simple_string: Result<SimpleString, RespError> = SimpleString::decode(&mut buf);
    assert_eq!(simple_string, Ok(SimpleString::new("OK".to_string())));

    buf.extend_from_slice(b"-334");
    let simple_string = SimpleString::decode(&mut buf);
    assert_eq!(
        simple_string,
        Err(RespError::InvalidFrameType(format!(
            "SimpleString expect: + , but got {:?}",
            buf.as_ref()
        )))
    );
}
