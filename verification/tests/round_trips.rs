use bytes::BytesMut;
use simple_redis::backend::Backend;
use simple_redis::cmd::{
    resp_ok, valid_command, CommandError, CommandExecutor, CommandGet, CommandHGet,
    CommandHGetAll, CommandHSet, CommandSet,
};
use simple_redis::network::RespFrameCodec;
use simple_redis::resp::frame::{
    BulkString, NullBulkString, RespArray, RespBoolean, RespDouble, RespFrame, RespInteger,
    RespNull, RespNullArray, RespSet, SimpleError, SimpleString,
};
use simple_redis::resp::map::RespMap;
use simple_redis::resp::{RespDecode, RespEncode, RespError};

fn bulk(s: &str) -> RespFrame {
    RespFrame::BulkString(BulkString::from_string(s.as_bytes()))
}

fn text(s: &str) -> RespFrame {
    RespFrame::SimpleString(SimpleString::new(s.to_string()))
}

fn nested_frames() -> Vec<RespFrame> {
    vec![
        text("OK"),
        RespFrame::SimpleError(SimpleError::new("ERR bad".to_string())),
        RespFrame::Integer(RespInteger::new(-42)),
        RespFrame::Integer(RespInteger::new(i64::MIN)),
        bulk("hello"),
        RespFrame::Boolean(RespBoolean::new(true)),
        RespFrame::Double(RespDouble::from_text("-1.5e-3".to_string()).unwrap()),
        RespFrame::Double(RespDouble::from_text("inf".to_string()).unwrap()),
        RespFrame::RespNull(RespNull),
        RespFrame::Array(RespArray::from_vec(vec![text("a"), bulk("bc")])),
        RespFrame::RespSet(RespSet::new(vec![
            RespFrame::Integer(RespInteger::new(1)),
            RespFrame::Array(RespArray::from_vec(vec![text("x")])),
        ])),
        RespFrame::RespSet(RespSet::new(vec![])),
    ]
}

#[test]
fn test_frames_read_back_as_written() {
    let mut map = RespMap::new();
    map.insert("b".to_string(), RespFrame::Integer(RespInteger::new(2)));
    map.insert("a".to_string(), bulk("one"));
    let mut frames = nested_frames();
    frames.push(RespFrame::RespMap(map));
    frames.push(RespFrame::NullBulkString(NullBulkString));
    frames.push(RespFrame::RespNullArray(RespNullArray));
    for frame in frames {
        let mut bytes = frame.encode();
        let len = bytes.len();
        bytes.extend_from_slice(b"+rest\r\n");
        let mut buf = BytesMut::from(bytes.as_slice());
        let decoded = RespFrame::decode(&mut buf).unwrap();
        assert_eq!(decoded, frame);
        assert_eq!(buf.as_ref(), &bytes[len..]);
    }
}

#[test]
fn test_frames_measure_their_bytes() {
    for frame in nested_frames() {
        let mut bytes = frame.encode();
        let len = bytes.len();
        bytes.extend_from_slice(b":7\r\n");
        assert_eq!(RespFrame::expect_length(&bytes), Ok(len));
    }
}

#[test]
fn test_map_keys_in_order_and_replaced() {
    let mut map = RespMap::new();
    assert_eq!(map.insert("b".to_string(), bulk("1")), None);
    assert_eq!(map.insert("a".to_string(), bulk("2")), None);
    assert_eq!(map.insert("b".to_string(), bulk("3")), Some(bulk("1")));
    assert_eq!(map.len(), 2);
    assert_eq!(map.get("b"), Some(&bulk("3")));
    assert_eq!(map.get("c"), None);
    let frame: RespFrame = map.into();
    assert_eq!(
        frame.encode(),
        b"%2\r\n+a\r\n$1\r\n2\r\n+b\r\n$1\r\n3\r\n".to_vec()
    );
}

#[test]
fn test_empty_array_reads_as_empty_array() {
    let mut buf = BytesMut::from("*0\r\n");
    assert_eq!(RespArray::decode(&mut buf), Ok(RespArray::empty()));
    assert!(buf.is_empty());
    assert_eq!(RespArray::empty().encode(), b"*0\r\n".to_vec());
}

#[test]
fn test_unknown_prefix_is_refused() {
    let mut buf = BytesMut::from("?x\r\n");
    let expected = format!(
        "RespFrame expect: +, -, :, $, *, #, ,, %, ~, _, but got {:?}",
        BytesMut::from("?x\r\n")
    );
    assert_eq!(
        RespFrame::decode(&mut buf),
        Err(RespError::InvalidFrameType(expected))
    );
    assert_eq!(buf.as_ref(), b"?x\r\n");
}

#[test]
fn test_boolean_other_content_is_refused() {
    let mut buf = BytesMut::from("#x\"\r\n");
    let expected = format!(
        "RespBoolean expect: #t or #f, but got {:?}",
        bytes::Bytes::from_static(b"x\"")
    );
    assert_eq!(
        RespBoolean::decode(&mut buf),
        Err(RespError::InvalidFrameType(expected))
    );
}

#[test]
fn test_bulk_length_mismatch_is_refused() {
    let mut buf = BytesMut::from("$3\r\nhello\r\n");
    assert_eq!(
        BulkString::decode(&mut buf),
        Err(RespError::InvalidFrameLength(" expect: 3 , but got 5".to_string()))
    );
}

#[test]
fn test_bad_text_and_numbers_are_refused() {
    let mut buf = BytesMut::from(&b"+\xff\r\n"[..]);
    assert_eq!(SimpleString::decode(&mut buf), Err(RespError::Utf8Error));
    let mut buf = BytesMut::from("$x\r\nab\r\n");
    assert_eq!(RespFrame::decode(&mut buf), Err(RespError::ParseIntError));
    let mut buf = BytesMut::from(",abc\r\n");
    assert_eq!(RespFrame::decode(&mut buf), Err(RespError::ParseFloatError));
    let mut buf = BytesMut::from("*2\r\n+a\r\n");
    assert_eq!(RespFrame::decode(&mut buf), Err(RespError::NotComplete));
    assert_eq!(buf.as_ref(), b"*2\r\n+a\r\n");
}

#[test]
fn test_double_text_checked() {
    assert!(RespDouble::from_text("1e10".to_string()).is_some());
    assert!(RespDouble::from_text("-Infinity".to_string()).is_some());
    assert!(RespDouble::from_text(".5".to_string()).is_some());
    assert!(RespDouble::from_text("1e".to_string()).is_none());
    assert!(RespDouble::from_text(".".to_string()).is_none());
    assert!(RespDouble::from_text("".to_string()).is_none());
}

#[test]
fn test_codec_waits_for_whole_frame() {
    let mut codec = RespFrameCodec;
    let mut buf = BytesMut::from("+OK\r");
    assert_eq!(codec.decode(&mut buf), Ok(None));
    buf.extend_from_slice(b"\n");
    assert_eq!(codec.decode(&mut buf), Ok(Some(text("OK"))));
    assert!(buf.is_empty());
    let mut out = BytesMut::new();
    codec.encode(RespFrame::Integer(RespInteger::new(5)), &mut out);
    assert_eq!(out.as_ref(), b":5\r\n");
}

#[test]
fn test_backend_reads_what_was_written() {
    let mut backend = Backend::new();
    assert_eq!(backend.get("k"), None);
    backend.set("k".to_string(), bulk("v1"));
    backend.set("other".to_string(), bulk("x"));
    backend.set("k".to_string(), bulk("v2"));
    assert_eq!(backend.get("k"), Some(bulk("v2")));
    assert_eq!(backend.get("other"), Some(bulk("x")));
    assert_eq!(backend.hget("h", "f"), None);
    backend.hset("h".to_string(), "f".to_string(), bulk("a"));
    backend.hset("h".to_string(), "g".to_string(), bulk("b"));
    backend.hset("h".to_string(), "f".to_string(), bulk("c"));
    assert_eq!(backend.hget("h", "f"), Some(bulk("c")));
    assert_eq!(backend.hget("h", "g"), Some(bulk("b")));
    assert_eq!(backend.get("h"), None);
    let table = backend.hgetall("h").unwrap();
    assert_eq!(table.len(), 2);
    assert!(backend.hgetall("k").is_none());
}

#[test]
fn test_commands_reply_null_when_missing() {
    let mut backend = Backend::new();
    let reply = CommandGet { key: "nope".to_string() }.execute(&mut backend);
    assert_eq!(reply, RespFrame::RespNull(RespNull));
    let reply = CommandHGet { key: "h".to_string(), field: "f".to_string() }.execute(&mut backend);
    assert_eq!(reply, RespFrame::RespNull(RespNull));
    let reply = CommandHGetAll { key: "h".to_string() }.execute(&mut backend);
    assert_eq!(reply, RespFrame::RespNull(RespNull));
}

#[test]
fn test_hgetall_sorts_fields() {
    let mut backend = Backend::new();
    for (f, v) in [("zeta", "1"), ("alpha", "2"), ("mid", "3"), ("Beta", "4")] {
        let reply = CommandHSet { key: "h".to_string(), field: f.to_string(), value: bulk(v) }
            .execute(&mut backend);
        assert_eq!(reply, resp_ok());
    }
    let reply = CommandHGetAll { key: "h".to_string() }.execute(&mut backend);
    let expected: RespArray = vec![
        bulk("Beta"), bulk("4"), bulk("alpha"), bulk("2"), bulk("mid"), bulk("3"), bulk("zeta"),
        bulk("1"),
    ]
    .into();
    assert_eq!(reply, RespFrame::Array(expected));
}

#[test]
fn test_set_then_get_through_commands() {
    let mut backend = Backend::new();
    let reply = CommandSet { key: "k".to_string(), value: bulk("v") }.execute(&mut backend);
    assert_eq!(reply, text("OK"));
    let reply = CommandGet { key: "k".to_string() }.execute(&mut backend);
    assert_eq!(reply, bulk("v"));
}

#[test]
fn test_command_shape_errors() {
    let arr: RespArray = vec![bulk("GET")].into();
    assert_eq!(
        CommandGet::try_from(arr).err(),
        Some(CommandError::InvalidNumberOfArguments(
            "GET command expects 1 arguments, got 1".to_string()
        ))
    );
    let arr: RespArray = vec![bulk("SET"), bulk("k")].into();
    assert_eq!(
        CommandGet::try_from(arr).err(),
        Some(CommandError::InvalidArguments(
            "GET command must have the 0 argument: expect \"GET\", but got [83, 69, 84]"
                .to_string()
        ))
    );
    let arr: RespArray = vec![RespFrame::Integer(RespInteger::new(1)), bulk("k")].into();
    let frame_text = format!("{:?}", RespFrame::Integer(RespInteger::new(1)));
    assert_eq!(
        CommandGet::try_from(arr).err(),
        Some(CommandError::InvalidArguments(format!(
            "GET command must have a bulk string as the 0 argument: expect \"GET\" find, but got {}",
            frame_text
        )))
    );
    assert_eq!(
        CommandGet::try_from(RespArray::null()).err(),
        Some(CommandError::InvalidArguments(
            "GET command expects 1 arguments, got 0".to_string()
        ))
    );
    let arr: RespArray = vec![bulk("get"), text("k")].into();
    assert_eq!(
        CommandGet::try_from(arr).err(),
        Some(CommandError::InvalidArguments(
            "GET command expect bulk string".to_string()
        ))
    );
    let arr: RespArray = vec![
        bulk("hset"),
        bulk("k"),
        RespFrame::Integer(RespInteger::new(3)),
        bulk("v"),
    ]
    .into();
    assert_eq!(
        CommandHSet::try_from(arr).err(),
        Some(CommandError::InvalidArguments(
            "HSET command expect bulk string".to_string()
        ))
    );
}

#[test]
fn test_command_names_ignore_case_and_keys_must_be_text() {
    let arr: RespArray = vec![bulk("gEt"), bulk("k")].into();
    assert_eq!(CommandGet::try_from(arr).unwrap().key, "k");
    let arr: RespArray = vec![
        bulk("HGET"),
        RespFrame::BulkString(BulkString::new(vec![0xff])),
        bulk("f"),
    ]
    .into();
    assert_eq!(
        CommandHGet::try_from(arr).err(),
        Some(CommandError::InvalidUtf8(vec![0xff]))
    );
}

#[test]
fn test_valid_command_hands_back_the_arguments() {
    let arr: RespArray = vec![bulk("HGET"), bulk("k"), bulk("f")].into();
    let args = valid_command(&arr, &["HGET"], 2).unwrap();
    assert_eq!(args, vec![&bulk("k"), &bulk("f")]);
}

#[test]
fn test_resp_error_converts_into_command_error() {
    let mut buf = BytesMut::from("*2\r\n");
    let err: CommandError = RespArray::decode(&mut buf).unwrap_err().into();
    assert_eq!(err, CommandError::RespErr(RespError::NotComplete));
}

#[test]
fn test_frame_debug_matches_derived_debug() {
    let frames = vec![
        text("OK"),
        RespFrame::SimpleError(SimpleError::new("ERR bad".to_string())),
        RespFrame::Integer(RespInteger::new(-42)),
        RespFrame::Integer(RespInteger::new(i64::MIN)),
        bulk("hello"),
        RespFrame::Boolean(RespBoolean::new(true)),
        RespFrame::RespNull(RespNull),
        RespFrame::Array(RespArray::from_vec(vec![text("a"), bulk("bc")])),
        RespFrame::NullBulkString(NullBulkString),
        RespFrame::RespNullArray(RespNullArray),
        RespFrame::BulkString(BulkString::null()),
        RespFrame::Boolean(RespBoolean::new(false)),
        text("tab\there é"),
    ];
    for frame in frames {
        assert_eq!(
            simple_redis::resp::debug::frame_debug(&frame),
            format!("{:?}", frame)
        );
    }
}

#[test]
fn test_map_and_set_debug_use_frame_variant_names() {
    let mut map = RespMap::new();
    map.insert("k\"ey".to_string(), RespFrame::Array(RespArray::null()));
    map.insert("a".to_string(), RespFrame::RespSet(RespSet::new(vec![])));
    assert_eq!(
        simple_redis::resp::debug::frame_debug(&RespFrame::RespMap(map)),
        "Map(RespMap { pairs: {\"a\": Set(RespSet { elements: [] }), \"k\\\"ey\": Array(RespArray { elements: None })} })"
    );
    assert_eq!(
        simple_redis::resp::debug::frame_debug(&RespFrame::RespMap(RespMap::new())),
        "Map(RespMap { pairs: {} })"
    );
    let set = RespFrame::RespSet(RespSet::new(vec![
        RespFrame::Integer(RespInteger::new(1)),
        text("x"),
    ]));
    assert_eq!(
        simple_redis::resp::debug::frame_debug(&set),
        "Set(RespSet { elements: [Integer(RespInteger { value: 1 }), SimpleString(SimpleString { content: \"x\" })] })"
    );
}

#[test]
fn test_incomplete_frames_stay_in_buffer() {
    for input in [
        &b"+OK"[..],
        b"$5\r\nhel",
        b"*2\r\n+a\r\n",
        b"~1\r\n",
        b"%1\r\n+k\r\n",
        b":12",
        b"",
    ] {
        let mut buf = BytesMut::from(input);
        assert_eq!(RespFrame::decode(&mut buf), Err(RespError::NotComplete));
        assert_eq!(buf.as_ref(), input);
    }
}

#[test]
fn test_short_bulk_strings_end_the_buffer() {
    let mut buf = BytesMut::from("*1\r\n$1\r\na\r\n");
    assert_eq!(
        RespFrame::decode(&mut buf),
        Ok(RespFrame::Array(RespArray::from_vec(vec![bulk("a")])))
    );
    assert!(buf.is_empty());
    let mut buf = BytesMut::from("$1\r\na\r\n");
    assert_eq!(BulkString::decode(&mut buf), Ok(BulkString::new(b"a".to_vec())));
    assert!(buf.is_empty());
}

#[test]
fn test_map_measure_and_incomplete_items() {
    assert_eq!(RespMap::expect_length(b"%1\r\n+a\r\n:1\r\n"), Ok(12));
    assert_eq!(
        simple_redis::resp::decode::calc_total_length(b"*1\r\n#t", 2, 1, "*"),
        Err(RespError::NotComplete)
    );
    let mut buf = BytesMut::from("*1\r\n$5\r\nhe");
    assert_eq!(
        simple_redis::resp::decode::check_len(&mut buf, "*", "RespArray"),
        Err(RespError::NotComplete)
    );
    assert_eq!(buf.as_ref(), b"*1\r\n$5\r\nhe");
    let mut buf = BytesMut::from(":12x\r\n");
    assert_eq!(RespFrame::decode(&mut buf), Err(RespError::ParseIntError));
}

#[test]
fn test_short_bulk_and_two_entry_map_inside_array() {
    let mut map = RespMap::new();
    map.insert("x".to_string(), RespFrame::Integer(RespInteger::new(1)));
    map.insert("y".to_string(), bulk("z"));
    let frame = RespFrame::Array(RespArray::from_vec(vec![
        RespFrame::RespMap(map),
        bulk("q"),
    ]));
    let mut bytes = frame.encode();
    let len = bytes.len();
    assert_eq!(RespFrame::expect_length(&bytes), Ok(len));
    bytes.extend_from_slice(b"_\r\n");
    let mut buf = BytesMut::from(bytes.as_slice());
    assert_eq!(RespFrame::decode(&mut buf), Ok(frame));
    assert_eq!(buf.as_ref(), b"_\r\n");
}

#[test]
fn test_measure_of_empty_array_and_bulk_with_line_end() {
    let empty = RespArray::empty().encode();
    assert_eq!(RespFrame::expect_length(&empty), Ok(empty.len()));
    let data = RespFrame::BulkString(BulkString::from_string(b"a\r\nb"));
    let bytes = data.encode();
    assert_eq!(RespFrame::expect_length(&bytes), Ok(bytes.len()));
}

#[test]
fn test_odd_bytes_get_an_answer() {
    let mut buf = BytesMut::from("$0\r\n\r\n");
    assert_eq!(RespFrame::decode(&mut buf), Err(RespError::NotComplete));
    assert_eq!(buf.as_ref(), b"$0\r\n\r\n");
    let mut buf = BytesMut::from("*\r\n");
    assert_eq!(RespFrame::decode(&mut buf), Err(RespError::ParseIntError));
    let mut buf = BytesMut::from("*1\r\n#tx\r");
    assert_eq!(RespFrame::decode(&mut buf), Err(RespError::NotComplete));
    assert_eq!(buf.as_ref(), b"#tx\r");
    let mut codec = RespFrameCodec;
    let mut buf = BytesMut::from("%1\r\n+k\r\n");
    assert_eq!(codec.decode(&mut buf), Ok(None));
    assert_eq!(buf.as_ref(), b"%1\r\n+k\r\n");
}
