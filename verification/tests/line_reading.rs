use bytes::BytesMut;
use simple_redis::resp::decode::{
    calc_total_length, check_len, compute_end, compute_end_with_crlf, consume_byte_mut,
    extract_byte_slice, extract_end_vec, extract_fix, extract_len, split_vec, starts_with,
};
use simple_redis::resp::RespError;

#[test]
fn test_line_positions() {
    assert_eq!(compute_end(b"+OK\r\nrest", "+", "SimpleString"), Ok(3));
    assert_eq!(compute_end_with_crlf(b"+OK\r\nrest", "+", "SimpleString"), Ok(5));
    assert_eq!(
        extract_byte_slice(b"+OK\r\nrest", "+", "SimpleString"),
        Ok((3, &b"+OK\r\n"[..]))
    );
    assert_eq!(compute_end(b"+OK", "+", "SimpleString"), Err(RespError::NotComplete));
    assert_eq!(starts_with(b"+OK", "+", "SimpleString"), Ok(()));
    assert_eq!(
        starts_with(b"-OK", "+", "SimpleString"),
        Err(RespError::InvalidFrameType(
            "SimpleString expect: + , but got [45, 79, 75]".to_string()
        ))
    );
}

#[test]
fn test_length_lines() {
    assert_eq!(extract_len(b"*12\r\n", "*", "RespArray"), Ok((3, 12)));
    assert_eq!(
        extract_len(b"*-1\r\n", "*", "RespArray"),
        Err(RespError::ParseIntError)
    );
    let buf = b"*2\r\n+a\r\n:1\r\n";
    assert_eq!(calc_total_length(buf, 2, 2, "*"), Ok(12));
    assert_eq!(calc_total_length(b"$3\r\nabc\r\n", 2, 3, "$"), Ok(5));
    let mut b = BytesMut::from(&buf[..]);
    assert_eq!(check_len(&mut b, "*", "RespArray"), Ok(2));
    assert_eq!(b.as_ref(), b"+a\r\n:1\r\n");
    let mut b = BytesMut::from("*3\r\n+a\r\n");
    assert_eq!(check_len(&mut b, "*", "RespArray"), Err(RespError::NotComplete));
    assert_eq!(b.as_ref(), b"*3\r\n+a\r\n");
}

#[test]
fn test_consuming_readers() {
    let mut b = BytesMut::from("#t\r\n+x");
    assert_eq!(consume_byte_mut(&mut b, "#", "RespBoolean"), Ok(b"t".to_vec()));
    assert_eq!(b.as_ref(), b"+x");
    let mut b = BytesMut::from(&b"+\xff\r\n"[..]);
    assert_eq!(extract_end_vec(&mut b, "+", "SimpleString"), Err(RespError::Utf8Error));
    assert!(b.is_empty());
    let mut b = BytesMut::from("_\r\n:1");
    assert_eq!(extract_fix(&mut b, "_\r\n", "RespNull"), Ok(()));
    assert_eq!(b.as_ref(), b":1");
    let mut b = BytesMut::from("hello\r\nmore");
    assert_eq!(split_vec(&mut b, 5), Ok(b"hello".to_vec()));
    assert_eq!(b.as_ref(), b"more");
}
