use bytes::BytesMut;
use simple_redis::backend::Backend;
use simple_redis::cmd::{resp_ok, run, CommandError};
use simple_redis::network::RespFrameCodec;
use simple_redis::resp::decode::{check_len, try_check_len, try_split_vec};
use simple_redis::resp::frame::{BulkString, RespArray, RespFrame, RespNull, SimpleString};
use simple_redis::resp::{RespError, Stop};

fn bulk(s: &str) -> RespFrame {
    RespFrame::BulkString(BulkString::from_string(s.as_bytes()))
}

fn request(words: &[&str]) -> RespArray {
    let items: Vec<RespFrame> = words.iter().map(|w| bulk(w)).collect();
    items.into()
}

#[test]
fn test_run_set_then_get() {
    let mut backend = Backend::new();
    let reply = run(request(&["set", "hello", "world"]), &mut backend);
    assert_eq!(reply, Ok(resp_ok()));
    let reply = run(request(&["get", "hello"]), &mut backend);
    assert_eq!(reply, Ok(bulk("world")));
    let reply = run(request(&["get", "missing"]), &mut backend);
    assert_eq!(reply, Ok(RespFrame::RespNull(RespNull)));
}

#[test]
fn test_run_hash_commands() {
    let mut backend = Backend::new();
    let reply = run(request(&["hset", "map", "hello", "world"]), &mut backend);
    assert_eq!(reply, Ok(resp_ok()));
    let reply = run(request(&["hget", "map", "hello"]), &mut backend);
    assert_eq!(reply, Ok(bulk("world")));
    let reply = run(request(&["hgetall", "map"]), &mut backend);
    let expected: RespArray = vec![bulk("hello"), bulk("world")].into();
    assert_eq!(reply, Ok(RespFrame::Array(expected)));
}

#[test]
fn test_run_unknown_command_leaves_store() {
    let mut backend = Backend::new();
    let array = request(&["ping"]);
    let reply = run(array.clone(), &mut backend);
    match reply {
        Err(CommandError::InvalidCommand(text)) => {
            assert_eq!(text, format!("{:?}", RespFrame::Array(array)));
        }
        other => panic!("unexpected reply {:?}", other),
    }
    assert_eq!(backend.get("ping"), None);
    let reply = run(request(&["get"]), &mut backend);
    assert!(matches!(reply, Err(CommandError::InvalidCommand(_))));
}

#[test]
fn test_try_split_vec_past_the_end() {
    let mut b = BytesMut::from("ab");
    assert!(matches!(try_split_vec(&mut b, 5), Err(Stop::Abort)));
    assert_eq!(b.as_ref(), b"ab");
    let mut b = BytesMut::from("hello\r\nmore");
    assert!(matches!(try_split_vec(&mut b, 5), Ok(v) if v == b"hello".to_vec()));
    assert_eq!(b.as_ref(), b"more");
}

#[test]
fn test_try_check_len_incomplete_item() {
    let mut b = BytesMut::from("*1\r\n$5\r\nhe");
    assert!(matches!(
        try_check_len(&mut b, "*", "RespArray"),
        Err(Stop::Fail(RespError::NotComplete))
    ));
    assert_eq!(b.as_ref(), b"*1\r\n$5\r\nhe");
    let mut b = BytesMut::from("*1\r\n$5\r\nhe");
    assert_eq!(check_len(&mut b, "*", "RespArray"), Err(RespError::NotComplete));
    assert_eq!(b.as_ref(), b"*1\r\n$5\r\nhe");
    let mut b = BytesMut::from("*2\r\n+a\r\n:1\r\n");
    assert!(matches!(try_check_len(&mut b, "*", "RespArray"), Ok(2)));
    assert_eq!(b.as_ref(), b"+a\r\n:1\r\n");
}

#[test]
fn test_codec_decode_in_turn() {
    let mut codec = RespFrameCodec;
    let mut b = BytesMut::from("+OK\r\n$1\r\na\r\n+pa");
    let first = codec.decode(&mut b);
    assert!(matches!(
        first,
        Ok(Some(RespFrame::SimpleString(ref s))) if *s == SimpleString::new("OK".to_string())
    ));
    let second = codec.decode(&mut b);
    assert!(matches!(second, Ok(Some(ref f)) if *f == bulk("a")));
    let third = codec.decode(&mut b);
    assert!(matches!(third, Ok(None)));
    assert_eq!(b.as_ref(), b"+pa");
}

#[test]
fn test_frames_from_text_and_bytes() {
    let from_text: RespFrame = "hello".into();
    assert_eq!(from_text, bulk("hello"));
    let from_slice: RespFrame = (&b"hi"[..]).into();
    assert_eq!(from_slice, bulk("hi"));
    let from_array: RespFrame = b"abc".into();
    assert_eq!(from_array, bulk("abc"));
    let simple: SimpleString = "OK".into();
    assert_eq!(simple, SimpleString::new("OK".to_string()));
}
