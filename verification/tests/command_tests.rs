use bytes::BytesMut;

use simple_redis::cmd::{dispatch, CommandError, Echo, SAdd, SIsMember};
use simple_redis::{Backend, RespArray, RespFrame};

fn decode_array(wire: &[u8]) -> RespArray {
    let mut buf = BytesMut::new();
    buf.extend_from_slice(wire);
    RespArray::decode(&mut buf).unwrap()
}

#[test]
fn test_echo() {
    let mut buf = BytesMut::new();
    buf.extend_from_slice(b"*2\r\n$4\r\necho\r\n$5\r\nhello\r\n");
    let frame = RespArray::decode(&mut buf).unwrap();
    let echo = Echo::try_from(frame).unwrap();
    assert_eq!(echo.msg, "hello");
}

#[test]
fn test_echo_scenario() {
    let frame = decode_array(b"*2\r\n$4\r\necho\r\n$5\r\nhello\r\n");
    let echo = Echo::try_from(frame).unwrap();
    let backend = Backend::new();
    let response = echo.execute(&backend);
    assert_eq!(response.encode(), b"$5\r\nhello\r\n".to_vec());
}

#[test]
fn test_echo_rejects_invalid_text() {
    // the payload is not valid UTF-8, so parsing must fail closed
    let frame = decode_array(b"*2\r\n$4\r\necho\r\n$2\r\n\xff\xfe\r\n");
    let ret = Echo::try_from(frame);
    assert!(matches!(ret, Err(CommandError::InvalidArgument(_))));
}

#[test]
fn test_sadd_from_resp_array() {
    let mut buf = BytesMut::new();
    buf.extend_from_slice(b"*4\r\n$4\r\nsadd\r\n$3\r\nkey\r\n$7\r\nmember1\r\n$7\r\nmember2\r\n");
    let frame = RespArray::decode(&mut buf).unwrap();
    let result = SAdd::try_from(frame).unwrap();
    assert_eq!(result.key, "key");
    assert_eq!(result.members, vec!["member1".to_string(), "member2".to_string()]);
}

#[test]
fn test_sismember_from_resp_array() {
    let mut buf = BytesMut::new();
    buf.extend_from_slice(b"*3\r\n$9\r\nsismember\r\n$3\r\nkey\r\n$7\r\nmember1\r\n");
    let frame = RespArray::decode(&mut buf).unwrap();
    let result = SIsMember::try_from(frame).unwrap();
    assert_eq!(result.key, "key");
    assert_eq!(result.member, "member1");
}

#[test]
fn test_sadd() {
    let mut backend = Backend::new();
    let cmd = SAdd {
        key: "key".to_string(),
        members: vec!["member1".to_string(), "member2".to_string()],
    };
    let frame = cmd.execute(&mut backend);
    assert_eq!(frame, RespFrame::Integer(2));

    let cmd = SIsMember { key: "key".to_string(), member: "member".to_string() };
    let frame = cmd.execute(&backend);
    assert_eq!(frame, RespFrame::Integer(0));

    let cmd = SIsMember { key: "key".to_string(), member: "member1".to_string() };
    let frame = cmd.execute(&backend);
    assert_eq!(frame, RespFrame::Integer(1));
}

#[test]
fn test_sadd_arity() {
    // the name and a key alone are not enough
    let frame = decode_array(b"*2\r\n$4\r\nsadd\r\n$3\r\nkey\r\n");
    assert!(SAdd::try_from(frame).is_err());
    // one member is
    let frame = decode_array(b"*3\r\n$4\r\nsadd\r\n$3\r\nkey\r\n$1\r\nm\r\n");
    let cmd = SAdd::try_from(frame).unwrap();
    assert_eq!(cmd.members, vec!["m".to_string()]);
    // and so are several
    let frame = decode_array(b"*4\r\n$4\r\nsadd\r\n$3\r\nkey\r\n$1\r\na\r\n$1\r\nb\r\n");
    assert!(SAdd::try_from(frame).is_ok());
}

#[test]
fn test_sadd_scenario() {
    // SADD key member1 member2 on an empty store answers :2
    let mut backend = Backend::new();
    let frame = decode_array(b"*4\r\n$4\r\nsadd\r\n$3\r\nkey\r\n$7\r\nmember1\r\n$7\r\nmember2\r\n");
    let cmd = SAdd::try_from(frame).unwrap();
    let response = cmd.execute(&mut backend);
    assert_eq!(response.encode(), b":2\r\n".to_vec());

    let frame = decode_array(b"*3\r\n$9\r\nsismember\r\n$3\r\nkey\r\n$7\r\nmember1\r\n");
    let cmd = SIsMember::try_from(frame).unwrap();
    assert_eq!(cmd.execute(&backend).encode(), b":1\r\n".to_vec());

    let frame = decode_array(b"*3\r\n$9\r\nsismember\r\n$3\r\nkey\r\n$7\r\nmember3\r\n");
    let cmd = SIsMember::try_from(frame).unwrap();
    assert_eq!(cmd.execute(&backend).encode(), b":0\r\n".to_vec());

    let frame = decode_array(b"*3\r\n$9\r\nsismember\r\n$10\r\nmissingkey\r\n$7\r\nmember1\r\n");
    let cmd = SIsMember::try_from(frame).unwrap();
    assert_eq!(cmd.execute(&backend).encode(), b":0\r\n".to_vec());
}

#[test]
fn test_sadd_idempotent() {
    let mut backend = Backend::new();
    // a fresh member counts once
    assert_eq!(backend.sadd("key".to_string(), vec!["m".to_string()]), 1);
    // the same member again counts zero
    assert_eq!(backend.sadd("key".to_string(), vec!["m".to_string()]), 0);
    // a duplicate within one call counts once, not twice
    assert_eq!(backend.sadd("other".to_string(), vec!["m".to_string(), "m".to_string()]), 1);
}

#[test]
fn test_independent_namespaces() {
    let mut backend = Backend::new();
    backend.set("key".to_string(), RespFrame::Integer(7));
    // a key living in the string space is invisible to the hash space
    assert!(backend.hget("key", "field").is_none());
    assert!(backend.hgetall("key").is_none());
    // and to the set space
    assert!(backend.sismember("key", "field").is_none());
    // writing the hash space does not disturb the string value
    backend.hset("key".to_string(), "field".to_string(), RespFrame::Integer(8));
    assert_eq!(backend.get("key"), Some(RespFrame::Integer(7)));
    assert_eq!(backend.hget("key", "field"), Some(RespFrame::Integer(8)));
}

#[test]
fn test_string_space() {
    let mut backend = Backend::new();
    assert!(backend.get("missing").is_none());
    backend.set("k".to_string(), RespFrame::SimpleString(b"v".to_vec()));
    assert_eq!(backend.get("k"), Some(RespFrame::SimpleString(b"v".to_vec())));
    backend.set("k".to_string(), RespFrame::Integer(1));
    assert_eq!(backend.get("k"), Some(RespFrame::Integer(1)));
    assert_eq!(backend.echo("ping"), "ping".to_string());
}

#[test]
fn test_hgetall() {
    let mut backend = Backend::new();
    assert!(backend.hgetall("h").is_none());
    backend.hset("h".to_string(), "f1".to_string(), RespFrame::Integer(1));
    backend.hset("h".to_string(), "f2".to_string(), RespFrame::Integer(2));
    let snapshot = backend.hgetall("h").unwrap();
    assert_eq!(snapshot.get("f1"), Some(RespFrame::Integer(1)));
    assert_eq!(snapshot.get("f2"), Some(RespFrame::Integer(2)));
    assert_eq!(snapshot.get("f3"), None);
}

#[test]
fn test_hmget_omits_absent_fields() {
    let mut backend = Backend::new();
    assert!(backend.hmget("h", &["f1".to_string()]).is_none());
    backend.hset("h".to_string(), "f1".to_string(), RespFrame::Integer(1));
    backend.hset("h".to_string(), "f3".to_string(), RespFrame::Integer(3));
    let found = backend
        .hmget("h", &["f1".to_string(), "f2".to_string(), "f3".to_string()])
        .unwrap();
    // the absent field is silently omitted, not answered with a placeholder
    assert_eq!(found, vec![RespFrame::Integer(1), RespFrame::Integer(3)]);
}

#[test]
fn test_sadd_rejects_non_bulk_member() {
    // an integer where a member is expected fails parsing
    let frame = decode_array(b"*3\r\n$4\r\nsadd\r\n$3\r\nkey\r\n:5\r\n");
    assert!(SAdd::try_from(frame).is_err());
}

#[test]
fn test_dispatch() {
    let mut backend = Backend::new();
    // the whole request/response path: decode, dispatch, encode
    let frame = decode_array(b"*4\r\n$4\r\nsadd\r\n$3\r\nkey\r\n$7\r\nmember1\r\n$7\r\nmember2\r\n");
    assert_eq!(dispatch(frame, &mut backend).encode(), b":2\r\n".to_vec());
    let frame = decode_array(b"*3\r\n$9\r\nsismember\r\n$3\r\nkey\r\n$7\r\nmember1\r\n");
    assert_eq!(dispatch(frame, &mut backend).encode(), b":1\r\n".to_vec());
    let frame = decode_array(b"*2\r\n$4\r\necho\r\n$5\r\nhello\r\n");
    assert_eq!(dispatch(frame, &mut backend).encode(), b"$5\r\nhello\r\n".to_vec());
    // an unknown command is answered with an error frame, store untouched
    let frame = decode_array(b"*2\r\n$4\r\nnope\r\n$3\r\nkey\r\n");
    let reply = dispatch(frame, &mut backend);
    assert!(matches!(reply, RespFrame::SimpleError(_)));
    // and so is a malformed one (set-add without members)
    let frame = decode_array(b"*2\r\n$4\r\nsadd\r\n$3\r\nkey\r\n");
    let reply = dispatch(frame, &mut backend);
    assert!(matches!(reply, RespFrame::SimpleError(_)));
    assert_eq!(backend.get("key"), None);
}

#[test]
fn test_wrong_command_name() {
    let frame = decode_array(b"*2\r\n$4\r\nECHO\r\n$5\r\nhello\r\n");
    // names match the canonical lowercase spelling only
    assert!(Echo::try_from(frame).is_err());
    let frame = decode_array(b"*3\r\n$4\r\nsadd\r\n$3\r\nkey\r\n$1\r\nm\r\n");
    assert!(SIsMember::try_from(frame).is_err());
}
