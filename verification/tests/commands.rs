//! Command construction, execution against the backend, and the
//! connection-loop step.

use rredis::Backend;
use rredis::BulkString;
use rredis::Command;
use rredis::Echo;
use rredis::Get;
use rredis::HGet;
use rredis::HGetAll;
use rredis::HSet;
use rredis::RespArray;
use rredis::RespEncode;
use rredis::RespFrame;
use rredis::SAdd;
use rredis::SetCmd;
use rredis::SimpleString;
use rredis::StepOutcome;
use rredis::conn_step;
use rredis::find_crlf;
use rredis::frame_eq;
use rredis::validate_command;

fn bulk(s: &[u8]) -> RespFrame {
    RespFrame::BulkString(BulkString(Some(s.to_vec())))
}

fn arr(els: Vec<RespFrame>) -> RespArray {
    RespArray::new(els)
}

#[test]
fn mod_test_find_crlf() {
    let buf = b"+\r\n";
    assert_eq!(find_crlf(buf, 0), None);
    assert_eq!(find_crlf(buf, 1), Some(1));
    assert_eq!(find_crlf(buf, 2), None);

    let buf = b"\r\nxxxx\r\naaa\r\n";
    assert_eq!(find_crlf(buf, 0), None);
    assert_eq!(find_crlf(buf, 1), Some(0));
    assert_eq!(find_crlf(buf, 2), Some(6));
    assert_eq!(find_crlf(buf, 3), Some(11));
}

#[test]
fn test_validate_command() {
    let value = arr(vec![bulk(b"get"), bulk(b"key")]);
    assert!(validate_command(&value, &b"get".to_vec(), 1).is_ok());

    let value = arr(vec![bulk(b"get"), bulk(b"key"), bulk(b"key")]);
    let res = validate_command(&value, &b"get".to_vec(), 1);
    assert!(res.is_err());
    assert_eq!(
        String::from_utf8(res.unwrap_err().message()).unwrap(),
        "Invalid argument: length of get command arguments must be 1".to_string()
    );
}

#[test]
fn test_get_from_resp_array() {
    let resp_array = arr(vec![bulk(b"get"), bulk(b"key")]);
    let get = Get::try_from(resp_array).unwrap();
    assert_eq!(get.key, b"key".to_vec());

    let mut buf = b"*2\r\n$3\r\nget\r\n$3\r\nkey\r\n".to_vec();
    let resp_array = RespArray::decode(&mut buf).unwrap();
    let get = Get::try_from(resp_array).unwrap();
    assert_eq!(get.key, b"key".to_vec());

    let mut buf = b"*2\r\n$4\r\nxget\r\n$3\r\nkey\r\n".to_vec();
    let resp_array = RespArray::decode(&mut buf).unwrap();
    let result = Get::try_from(resp_array);
    assert!(result.is_err());
    assert_eq!(
        String::from_utf8(result.unwrap_err().message()).unwrap(),
        "Invalid argument: Invalid command: expected: get, got: xget",
    );

    let mut buf = b"*3\r\n$3\r\nget\r\n$3\r\nkey\r\n$4\r\nkey2\r\n".to_vec();
    let resp_array = RespArray::decode(&mut buf).unwrap();
    let result = Get::try_from(resp_array);
    assert!(result.is_err());
    assert_eq!(
        String::from_utf8(result.unwrap_err().message()).unwrap(),
        "Invalid argument: length of get command arguments must be 1",
    );
}

#[test]
fn test_set_from_resp_array() {
    let resp_array = arr(vec![bulk(b"set"), bulk(b"key"), bulk(b"value")]);
    let result = SetCmd::try_from(resp_array).unwrap();
    assert_eq!(result.key, b"key".to_vec());
    assert!(frame_eq(&result.value, &bulk(b"value")));

    let resp_array = arr(vec![bulk(b"setx"), bulk(b"key"), bulk(b"value")]);
    let result = SetCmd::try_from(resp_array);
    assert!(result.is_err());
    assert_eq!(
        String::from_utf8(result.unwrap_err().message()).unwrap(),
        "Invalid argument: Invalid command: expected: set, got: setx"
    );

    let resp_array = arr(vec![
        bulk(b"set"),
        bulk(b"key"),
        bulk(b"value"),
        bulk(b"value2"),
    ]);
    let result = SetCmd::try_from(resp_array);
    assert!(result.is_err());
    assert_eq!(
        String::from_utf8(result.unwrap_err().message()).unwrap(),
        "Invalid argument: length of set command arguments must be 2".to_string()
    );
}

#[test]
fn test_execute_get() {
}

#[test]
fn test_hget_from_resp_array() {
    let resp_array = arr(vec![bulk(b"hget"), bulk(b"key"), bulk(b"field")]);
    let hget = HGet::try_from(resp_array).unwrap();
    assert_eq!(hget.key, b"key".to_vec());
    assert_eq!(hget.field, b"field".to_vec());
}

#[test]
fn test_hset_from_resp_array() {
    let resp_array = arr(vec![
        bulk(b"hset"),
        bulk(b"key"),
        bulk(b"field"),
        bulk(b"value"),
    ]);
    let hset = HSet::try_from(resp_array).unwrap();
    assert_eq!(hset.key, b"key".to_vec());
    assert_eq!(hset.field, b"field".to_vec());
    assert!(frame_eq(&hset.value, &bulk(b"value")));
}

#[test]
fn test_hgetall_from_resp_array() {
    let resp_array = arr(vec![bulk(b"hgetall"), bulk(b"key")]);
    let hget = HGetAll::try_from(resp_array).unwrap();
    assert_eq!(hget.key, b"key".to_vec());
}

#[test]
fn get_miss_returns_null() {
    let mut backend = Backend::new();
    let get = Get { key: b"absent".to_vec() };
    let reply = get.execute(&mut backend);
    assert!(matches!(reply, RespFrame::Null(_)));
}

#[test]
fn set_then_get_returns_value() {
    let mut backend = Backend::new();
    let set = SetCmd { key: b"hello".to_vec(), value: bulk(b"world") };
    let reply = set.execute(&mut backend);
    assert!(frame_eq(
        &reply,
        &RespFrame::SimpleString(SimpleString(b"OK".to_vec()))
    ));
    let get = Get { key: b"hello".to_vec() };
    let reply = get.execute(&mut backend);
    assert!(frame_eq(&reply, &bulk(b"world")));
}

#[test]
fn hset_then_hget_returns_value() {
    // the field just written reads back; other fields are untouched
    let mut backend = Backend::new();
    let hset = HSet {
        key: b"h".to_vec(),
        field: b"f".to_vec(),
        value: bulk(b"v"),
    };
    hset.execute(&mut backend);
    let hget = HGet { key: b"h".to_vec(), field: b"f".to_vec() };
    let reply = hget.execute(&mut backend);
    assert!(frame_eq(&reply, &bulk(b"v")));
    let hget = HGet { key: b"h".to_vec(), field: b"g".to_vec() };
    let reply = hget.execute(&mut backend);
    assert!(matches!(reply, RespFrame::Null(_)));
}

#[test]
fn hgetall_has_every_field_set_and_no_others() {
    let mut backend = Backend::new();
    for (f, v) in [(b"a".to_vec(), 1i64), (b"b".to_vec(), 2), (b"a".to_vec(), 3)] {
        let hset = HSet {
            key: b"h".to_vec(),
            field: f,
            value: RespFrame::Integer(v),
        };
        hset.execute(&mut backend);
    }
    let all = HGetAll { key: b"h".to_vec() };
    let reply = all.execute(&mut backend);
    match reply {
        RespFrame::Dict(m) => {
            assert_eq!(m.0.len(), 2);
            assert_eq!(m.0[0].0, b"a".to_vec());
            assert!(frame_eq(&m.0[0].1, &RespFrame::Integer(3)));
            assert_eq!(m.0[1].0, b"b".to_vec());
            assert!(frame_eq(&m.0[1].1, &RespFrame::Integer(2)));
        },
        _ => panic!("expected a map reply"),
    }
}

#[test]
fn hgetall_miss_is_empty_map() {
    let mut backend = Backend::new();
    let all = HGetAll { key: b"absent".to_vec() };
    let reply = all.execute(&mut backend);
    match reply {
        RespFrame::Dict(m) => assert_eq!(m.0.len(), 0),
        _ => panic!("expected a map reply"),
    }
}

#[test]
fn hmget_omits_missing_fields() {
    let mut backend = Backend::new();
    let hset = HSet {
        key: b"h".to_vec(),
        field: b"f1".to_vec(),
        value: bulk(b"v1"),
    };
    hset.execute(&mut backend);
    let cmd = Command::try_from(RespFrame::Array(arr(vec![
        bulk(b"hmget"),
        bulk(b"h"),
        bulk(b"f1"),
        bulk(b"nope"),
    ])))
    .unwrap();
    let reply = cmd.execute(&mut backend);
    match reply {
        RespFrame::Dict(m) => {
            assert_eq!(m.0.len(), 1);
            assert_eq!(m.0[0].0, b"f1".to_vec());
            assert!(frame_eq(&m.0[0].1, &bulk(b"v1")));
        },
        _ => panic!("expected a map reply"),
    }
}

#[test]
fn sadd_counts_only_new_members() {
    // SADD returns exactly how many members were not already present
    let mut backend = Backend::new();
    let sadd = SAdd {
        key: b"s".to_vec(),
        members: vec![b"one".to_vec(), b"two".to_vec(), b"one".to_vec()],
    };
    let reply = sadd.execute(&mut backend);
    assert!(matches!(reply, RespFrame::Integer(2)));
    let sadd = SAdd {
        key: b"s".to_vec(),
        members: vec![b"one".to_vec(), b"three".to_vec()],
    };
    let reply = sadd.execute(&mut backend);
    assert!(matches!(reply, RespFrame::Integer(1)));
}

#[test]
fn sismember_reports_membership() {
    let mut backend = Backend::new();
    let sadd = SAdd { key: b"s".to_vec(), members: vec![b"m".to_vec()] };
    sadd.execute(&mut backend);
    let cmd = Command::try_from(RespFrame::Array(arr(vec![
        bulk(b"sismember"),
        bulk(b"s"),
        bulk(b"m"),
    ])))
    .unwrap();
    let mut b2 = backend;
    let reply = cmd.execute(&mut b2);
    assert!(matches!(reply, RespFrame::Integer(1)));
    let cmd = Command::try_from(RespFrame::Array(arr(vec![
        bulk(b"sismember"),
        bulk(b"s"),
        bulk(b"absent"),
    ])))
    .unwrap();
    let reply = cmd.execute(&mut b2);
    assert!(matches!(reply, RespFrame::Integer(0)));
}

#[test]
fn echo_returns_message() {
    let resp_array = arr(vec![bulk(b"echo"), bulk(b"hello world")]);
    let echo = Echo::try_from(resp_array).unwrap();
    let mut backend = Backend::new();
    let reply = echo.execute(&mut backend);
    assert!(frame_eq(
        &reply,
        &RespFrame::SimpleString(SimpleString(b"hello world".to_vec()))
    ));
}

#[test]
fn verbs_are_case_insensitive() {
    let resp_array = arr(vec![bulk(b"GeT"), bulk(b"key")]);
    let get = Get::try_from(resp_array).unwrap();
    assert_eq!(get.key, b"key".to_vec());
}

#[test]
fn invalid_utf8_key_is_rejected() {
    let resp_array = arr(vec![bulk(b"get"), bulk(&[0xff, 0xfe])]);
    assert!(Get::try_from(resp_array).is_err());
}

#[test]
fn non_array_frame_is_no_command() {
    let err = Command::try_from(RespFrame::Integer(1)).unwrap_err();
    assert_eq!(
        String::from_utf8(err.message()).unwrap(),
        "Invalid command: Command must be an Array"
    );
}

fn run(buf: &mut Vec<u8>, backend: &mut Backend) -> StepOutcome {
    conn_step(buf, backend)
}

#[test]
fn server_set_then_get() {
    // the concrete wire scenario: SET hello world, then GET hello
    let mut backend = Backend::new();
    let mut buf = b"*3\r\n$3\r\nset\r\n$5\r\nhello\r\n$5\r\nworld\r\n".to_vec();
    match run(&mut buf, &mut backend) {
        StepOutcome::Respond(bytes) => assert_eq!(bytes, b"+OK\r\n".to_vec()),
        _ => panic!("expected a reply"),
    }
    assert!(buf.is_empty());
    let mut buf = b"*2\r\n$3\r\nget\r\n$5\r\nhello\r\n".to_vec();
    match run(&mut buf, &mut backend) {
        StepOutcome::Respond(bytes) => assert_eq!(bytes, b"$5\r\nworld\r\n".to_vec()),
        _ => panic!("expected a reply"),
    }
}

#[test]
fn server_echo() {
    let mut backend = Backend::new();
    let mut buf = b"*2\r\n$4\r\necho\r\n$11\r\nhello world\r\n".to_vec();
    match run(&mut buf, &mut backend) {
        StepOutcome::Respond(bytes) => assert_eq!(bytes, b"+hello world\r\n".to_vec()),
        _ => panic!("expected a reply"),
    }
}

#[test]
fn server_sadd_twice() {
    let mut backend = Backend::new();
    let req = b"*4\r\n$4\r\nsadd\r\n$5\r\nmyset\r\n$3\r\none\r\n$3\r\ntwo\r\n";
    let mut buf = req.to_vec();
    match run(&mut buf, &mut backend) {
        StepOutcome::Respond(bytes) => assert_eq!(bytes, b":2\r\n".to_vec()),
        _ => panic!("expected a reply"),
    }
    let mut buf = req.to_vec();
    match run(&mut buf, &mut backend) {
        StepOutcome::Respond(bytes) => assert_eq!(bytes, b":0\r\n".to_vec()),
        _ => panic!("expected a reply"),
    }
}

#[test]
fn server_incomplete_input_waits() {
    let mut backend = Backend::new();
    let mut buf = b"+OK\r".to_vec();
    assert!(matches!(run(&mut buf, &mut backend), StepOutcome::NeedMore));
    assert_eq!(buf, b"+OK\r".to_vec());
}

#[test]
fn server_bad_prefix_closes() {
    let mut backend = Backend::new();
    let mut buf = b"&bad\r\n".to_vec();
    match run(&mut buf, &mut backend) {
        StepOutcome::Close(bytes) => {
            assert_eq!(bytes[0], b'-');
            assert_eq!(&bytes[bytes.len() - 2..], b"\r\n");
        },
        _ => panic!("expected the connection to close"),
    }
}

#[test]
fn server_unknown_verb_keeps_connection() {
    let mut backend = Backend::new();
    let mut buf = b"*1\r\n$4\r\nping\r\n".to_vec();
    match run(&mut buf, &mut backend) {
        StepOutcome::Respond(bytes) => assert_eq!(bytes[0], b'-'),
        _ => panic!("expected an in-band error reply"),
    }
}

#[test]
fn server_pipelined_requests() {
    let mut backend = Backend::new();
    let mut buf = b"*2\r\n$4\r\necho\r\n$1\r\na\r\n*2\r\n$4\r\necho\r\n$1\r\nb\r\n".to_vec();
    match run(&mut buf, &mut backend) {
        StepOutcome::Respond(bytes) => assert_eq!(bytes, b"+a\r\n".to_vec()),
        _ => panic!("expected a reply"),
    }
    match run(&mut buf, &mut backend) {
        StepOutcome::Respond(bytes) => assert_eq!(bytes, b"+b\r\n".to_vec()),
        _ => panic!("expected a reply"),
    }
    assert!(buf.is_empty());
}
