use bytes::BytesMut;
use simple_redis::backend::Backend;
use simple_redis::cmd::{
    resp_ok, CommandError, CommandExecutor, CommandGet, CommandHGet, CommandHGetAll, CommandHSet,
    CommandSet,
};
use simple_redis::resp::frame::{BulkString, RespArray, RespFrame};
use simple_redis::resp::RespDecode;

fn bulk(s: &str) -> RespFrame {
    RespFrame::BulkString(BulkString::from_string(s.as_bytes()))
}

#[test]
fn test_hget_command() {
    let cmd: RespArray = vec![bulk("HGET"), bulk("key"), bulk("field")].into();
    let cmd = CommandHGet::try_from(cmd).unwrap();
    assert_eq!(cmd.key, "key");
    assert_eq!(cmd.field, "field");
}

#[test]
fn test_hgetall_command() {
    let cmd: RespArray = vec![bulk("HGETALL"), bulk("key")].into();
    let cmd = CommandHGetAll::try_from(cmd).unwrap();
    assert_eq!(cmd.key, "key".to_string());
}

#[test]
fn test_command_hget_try_from() -> Result<(), CommandError> {
    let mut byte_get = BytesMut::from("*3\r\n$4\r\nhget\r\n$3\r\nmap\r\n$5\r\nhello\r\n");
    let array = RespArray::decode(&mut byte_get)?;
    let cmd = CommandHGet::try_from(array)?;
    assert_eq!(cmd.key, "map".to_string());
    assert_eq!(cmd.field, "hello".to_string());
    Ok(())
}

#[test]
fn test_command_hgetall_try_from() -> Result<(), CommandError> {
    let mut byte_get = BytesMut::from("*2\r\n$7\r\nhgetall\r\n$3\r\nmap\r\n");
    let array = RespArray::decode(&mut byte_get)?;
    let cmd = CommandHGetAll::try_from(array)?;
    assert_eq!(cmd.key, "map".to_string());
    Ok(())
}

#[test]
fn test_command_hset_try_from() -> Result<(), CommandError> {
    let mut byte_get =
        BytesMut::from("*4\r\n$4\r\nhset\r\n$3\r\nmap\r\n$5\r\nhello\r\n$5\r\nworld\r\n");
    let array = RespArray::decode(&mut byte_get)?;
    let cmd = CommandHSet::try_from(array)?;
    assert_eq!(cmd.key, "map".to_string());
    assert_eq!(cmd.field, "hello".to_string());
    assert_eq!(
        cmd.value,
        RespFrame::BulkString(BulkString {
            content: Some(b"world".to_vec())
        })
    );
    Ok(())
}

#[test]
fn test_command_hset_try_from_array() -> Result<(), CommandError> {
    let mut byte_get =
        BytesMut::from("*4\r\n$4\r\nhset\r\n$3\r\nmap\r\n$5\r\nhello\r\n*1\r\n$5\r\nworld\r\n");
    let array = RespArray::decode(&mut byte_get)?;
    let cmd = CommandHSet::try_from(array)?;
    assert_eq!(cmd.key, "map".to_string());
    assert_eq!(cmd.field, "hello".to_string());
    assert_eq!(
        cmd.value,
        RespFrame::Array(RespArray::from(vec![bulk("world")]))
    );
    Ok(())
}

#[test]
fn test_hset_hget_hgetall_commands() -> Result<(), CommandError> {
    let mut backend = Backend::new();
    let cmd = CommandHSet {
        key: "map".to_string(),
        field: "hello".to_string(),
        value: bulk("world"),
    };
    let result = cmd.execute(&mut backend);
    assert_eq!(result, resp_ok());

    let cmd = CommandHSet {
        key: "map".to_string(),
        field: "hello1".to_string(),
        value: bulk("world1"),
    };
    cmd.execute(&mut backend);

    let cmd = CommandHGet {
        key: "map".to_string(),
        field: "hello".to_string(),
    };
    let result = cmd.execute(&mut backend);
    assert_eq!(result, bulk("world"));

    let cmd = CommandHGetAll {
        key: "map".to_string(),
    };
    let result: RespFrame = cmd.execute(&mut backend);

    let expected: RespArray = vec![
        bulk("hello"),
        bulk("world"),
        bulk("hello1"),
        bulk("world1"),
    ]
    .into();
    assert_eq!(result, expected.into());
    Ok(())
}

#[test]
fn test_command_get_try_from() -> Result<(), CommandError> {
    let mut byte_get = BytesMut::from("*2\r\n$3\r\nget\r\n$5\r\nhello\r\n");
    let array = RespArray::decode(&mut byte_get)?;
    let cmd = CommandGet::try_from(array)?;
    assert_eq!(cmd.key, "hello".to_string());
    Ok(())
}

#[test]
fn test_command_set_try_from() -> Result<(), CommandError> {
    let mut byte_set = BytesMut::from("*3\r\n$3\r\nset\r\n$5\r\nhello\r\n$5\r\nworld\r\n");
    let array = RespArray::decode(&mut byte_set)?;
    let cmd = CommandSet::try_from(array)?;
    assert_eq!(cmd.key, "hello".to_string());
    assert_eq!(cmd.value, bulk("world"));
    Ok(())
}

#[test]
fn test_set_get_command() -> Result<(), CommandError> {
    let mut backend = Backend::new();
    let cmd_set = CommandSet::try_from(RespArray::decode(&mut BytesMut::from(
        "*3\r\n$3\r\nset\r\n$5\r\nhello\r\n$5\r\nworld\r\n",
    ))?)?;
    let resp_set = cmd_set.execute(&mut backend);
    assert_eq!(resp_set, resp_ok());
    let cmd_get = CommandGet::try_from(RespArray::decode(&mut BytesMut::from(
        "*2\r\n$3\r\nget\r\n$5\r\nhello\r\n",
    ))?)?;
    let resp_get = cmd_get.execute(&mut backend);
    assert_eq!(resp_get, bulk("world"));
    Ok(())
}
