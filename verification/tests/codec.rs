//! Codec tests: per-type decoding and encoding, the shared helpers, and
//! the whole-frame parser.

use rredis::BulkString;
use rredis::Double;
use rredis::RespArray;
use rredis::RespEncode;
use rredis::RespError;
use rredis::RespFrame;
use rredis::RespMap;
use rredis::RespNull;
use rredis::RespSet;
use rredis::SimpleError;
use rredis::SimpleString;
use rredis::find_crlf;
use rredis::frame_eq;
use rredis::parse_frame_length;

fn ss(s: &str) -> RespFrame {
    RespFrame::SimpleString(SimpleString(s.as_bytes().to_vec()))
}

fn bulk(s: &[u8]) -> RespFrame {
    RespFrame::BulkString(BulkString(Some(s.to_vec())))
}

fn num(i: i64) -> RespFrame {
    RespFrame::Integer(i)
}

#[test]
fn test_find_crlf() {
    let buf = b"+\r\n";
    assert_eq!(find_crlf(buf, 0), None);
    assert_eq!(find_crlf(buf, 1), Some(1));
    assert_eq!(find_crlf(buf, 2), None);

    let buf = b"\r\nxxxx\r\naaa\r\n";
    assert_eq!(find_crlf(buf, 0), None);
    assert_eq!(find_crlf(buf, 1), Some(0));
    assert_eq!(find_crlf(buf, 2), Some(6));
    assert_eq!(find_crlf(buf, 3), Some(11));
}

#[test]
fn test_simple_string_decode() {
    let mut buf = b"+OK\r\n".to_vec();
    let result = SimpleString::decode(&mut buf).unwrap();
    assert_eq!(result.0, b"OK".to_vec());

    buf.extend_from_slice(b"+Hi\r");
    let result = SimpleString::decode(&mut buf);
    assert_eq!(result.unwrap_err(), RespError::NotCompleted);

    buf.push(b'\n');
    let result = SimpleString::decode(&mut buf).unwrap();
    assert_eq!(result.0, b"Hi".to_vec());
}

#[test]
fn test_simple_string_encode() {
    let frame: RespFrame = ss("OK");
    assert_eq!(frame.encode(), b"+OK\r\n");
    let frame: RespFrame = ss("hello");
    assert_eq!(frame.encode(), b"+hello\r\n");
}

#[test]
fn simple_string_test_simple_string_encode() {
    let frame: RespFrame = ss("OK");
    assert_eq!(frame.encode(), b"+OK\r\n");
    let frame: RespFrame = ss("hello");
    assert_eq!(frame.encode(), b"+hello\r\n");
}

#[test]
fn test_bulk_string_expect_length() {
    let buf = b"$2\r\nhi\r\n";
    let len = RespFrame::expect_length(buf).unwrap();
    assert_eq!(len, 8);
}

#[test]
fn test_simple_error_decode() {
    let mut buf = b"-Err\r\n".to_vec();
    let result = SimpleError::decode(&mut buf).unwrap();
    assert_eq!(result.0, b"Err".to_vec());

    buf.extend_from_slice(b"-Hi\r");
    let result = SimpleError::decode(&mut buf);
    assert_eq!(result.unwrap_err(), RespError::NotCompleted);

    buf.push(b'\n');
    let result = SimpleError::decode(&mut buf).unwrap();
    assert_eq!(result.0, b"Hi".to_vec());
}

#[test]
fn test_simple_error_encode() {
    let frame: RespFrame = RespFrame::Error(SimpleError(b"Error Message".to_vec()));
    assert_eq!(frame.encode(), b"-Error Message\r\n");
}

#[test]
fn simple_error_test_simple_error_encode() {
    let frame: RespFrame = RespFrame::Error(SimpleError(b"Error Message".to_vec()));
    assert_eq!(frame.encode(), b"-Error Message\r\n");
}

#[test]
fn encode_test_simple_error_encode() {
    let frame: RespFrame = RespFrame::Error(SimpleError(b"Error Message".to_vec()));
    assert_eq!(frame.encode(), b"-Error Message\r\n");
}

#[test]
fn encode_test_simple_string_encode() {
    let frame: RespFrame = ss("OK");
    assert_eq!(frame.encode(), b"+OK\r\n");
    let frame: RespFrame = ss("hello");
    assert_eq!(frame.encode(), b"+hello\r\n");
}

#[test]
fn test_null_decode() {
    let mut buf = b"_\r\n".to_vec();
    let result = RespNull::decode(&mut buf);
    assert!(result.is_ok());

    buf.extend_from_slice(b"_\r");
    let result = RespNull::decode(&mut buf);
    assert_eq!(result.unwrap_err(), RespError::NotCompleted);

    buf.push(b'\n');
    let result = RespNull::decode(&mut buf);
    assert!(result.is_ok());
}

#[test]
fn test_null_encode() {
    let frame: RespFrame = RespFrame::Null(RespNull);
    assert_eq!(frame.encode(), b"_\r\n");
}

#[test]
fn null_test_null_encode() {
    let frame: RespFrame = RespFrame::Null(RespNull);
    assert_eq!(frame.encode(), b"_\r\n");
}

#[test]
fn encode_test_null_encode() {
    let frame: RespFrame = RespFrame::Null(RespNull);
    assert_eq!(frame.encode(), b"_\r\n");
}

#[test]
fn test_null_bulk_string_encode() {
    let frame: RespFrame = RespFrame::BulkString(BulkString::new_null());
    assert_eq!(frame.encode(), b"$-1\r\n");
}

#[test]
fn test_null_array_encode() {
    let frame: RespFrame = RespFrame::Array(RespArray::null());
    assert_eq!(frame.encode(), b"*-1\r\n");
}

#[test]
fn test_boolean_encode() {
    let frame: RespFrame = RespFrame::Boolean(true);
    assert_eq!(frame.encode(), b"#t\r\n");
    let frame: RespFrame = RespFrame::Boolean(false);
    assert_eq!(frame.encode(), b"#f\r\n");
}

#[test]
fn boolean_test_boolean_encode() {
    let frame: RespFrame = RespFrame::Boolean(true);
    assert_eq!(frame.encode(), b"#t\r\n");
    let frame: RespFrame = RespFrame::Boolean(false);
    assert_eq!(frame.encode(), b"#f\r\n");
}

#[test]
fn encode_test_boolean_encode() {
    let frame: RespFrame = RespFrame::Boolean(true);
    assert_eq!(frame.encode(), b"#t\r\n");
    let frame: RespFrame = RespFrame::Boolean(false);
    assert_eq!(frame.encode(), b"#f\r\n");
}

#[test]
fn test_boolean_decode() {
    let mut buf = b"#t\r\n".to_vec();
    let result = RespFrame::decode(&mut buf).unwrap();
    assert!(matches!(result, RespFrame::Boolean(true)));

    let mut buf = b"#f\r\n".to_vec();
    let result = RespFrame::decode(&mut buf).unwrap();
    assert!(matches!(result, RespFrame::Boolean(false)));

    let mut buf = b"#xxx\r\n".to_vec();
    let result = RespFrame::decode(&mut buf);
    assert!(result.is_err());
}

#[test]
fn test_integer_encode() {
    let frame: RespFrame = num(0);
    assert_eq!(frame.encode(), b":0\r\n");
    let frame: RespFrame = num(-123);
    assert_eq!(frame.encode(), b":-123\r\n");
    let frame: RespFrame = num(123);
    assert_eq!(frame.encode(), b":123\r\n");
}

#[test]
fn integer_test_integer_encode() {
    let frame: RespFrame = num(0);
    assert_eq!(frame.encode(), b":0\r\n");
    let frame: RespFrame = num(-123);
    assert_eq!(frame.encode(), b":-123\r\n");
    let frame: RespFrame = num(123);
    assert_eq!(frame.encode(), b":123\r\n");
}

#[test]
fn encode_test_integer_encode() {
    let frame: RespFrame = num(0);
    assert_eq!(frame.encode(), b":0\r\n");
    let frame: RespFrame = num(-123);
    assert_eq!(frame.encode(), b":-123\r\n");
    let frame: RespFrame = num(123);
    assert_eq!(frame.encode(), b":123\r\n");
}

#[test]
fn test_integer_decode() {
    let mut buf = b":10\r\n".to_vec();
    let result = RespFrame::decode(&mut buf).unwrap();
    assert!(matches!(result, RespFrame::Integer(10)));

    buf.extend_from_slice(b":-10\r\n");
    let result = RespFrame::decode(&mut buf).unwrap();
    assert!(matches!(result, RespFrame::Integer(-10)));

    buf.extend_from_slice(b":0\r\n");
    let result = RespFrame::decode(&mut buf).unwrap();
    assert!(matches!(result, RespFrame::Integer(0)));

    buf.extend_from_slice(b":100\r");
    let result = RespFrame::decode(&mut buf);
    assert_eq!(result.unwrap_err(), RespError::NotCompleted);

    buf.push(b'\n');
    let result = RespFrame::decode(&mut buf).unwrap();
    assert!(matches!(result, RespFrame::Integer(100)));

    buf.extend_from_slice(b":xxx\r\n");
    let result = RespFrame::decode(&mut buf);
    assert_eq!(
        String::from_utf8(result.unwrap_err().message()).unwrap(),
        "Parse int error: invalid digit found in string".to_string()
    );
}

#[test]
fn test_bulk_string_encode() {
    let frame: RespFrame = RespFrame::BulkString(BulkString::new_null());
    assert_eq!(frame.encode(), b"$-1\r\n");
    let frame: RespFrame = bulk(b"hello");
    assert_eq!(frame.encode(), b"$5\r\nhello\r\n");
}

#[test]
fn bulk_string_test_bulk_string_encode() {
    let frame: RespFrame = RespFrame::BulkString(BulkString::new_null());
    assert_eq!(frame.encode(), b"$-1\r\n");
    let frame: RespFrame = bulk(b"hello");
    assert_eq!(frame.encode(), b"$5\r\nhello\r\n");
}

#[test]
fn encode_test_bulk_string_encode() {
    let frame: RespFrame = bulk(b"hello");
    assert_eq!(frame.encode(), b"$5\r\nhello\r\n");
}

#[test]
fn test_bulk_string_decode() {
    let mut buf = b"$5\r\nhello\r\n".to_vec();
    let result = BulkString::decode(&mut buf).unwrap();
    assert_eq!(result.0, Some(b"hello".to_vec()));

    let mut buf = b"$5\r\nhell\r\n".to_vec();
    let result = BulkString::decode(&mut buf);
    assert!(result.is_err());

    let mut buf = b"$-1\r\n".to_vec();
    let result = BulkString::decode(&mut buf).unwrap();
    assert!(result.0.is_none());
}

#[test]
fn test_double_encode() {
    let frame: RespFrame = RespFrame::Double(Double(b"+1.22".to_vec()));
    assert_eq!(frame.encode(), b",+1.22\r\n");
    let frame: RespFrame = RespFrame::Double(Double(b"-1.22".to_vec()));
    assert_eq!(frame.encode(), b",-1.22\r\n");
    let frame: RespFrame = RespFrame::Double(Double(b"0e0".to_vec()));
    assert_eq!(frame.encode(), b",0e0\r\n");
    let frame: RespFrame = RespFrame::Double(Double(b"1.22e-10".to_vec()));
    assert_eq!(frame.encode(), b",1.22e-10\r\n");
    let frame: RespFrame = RespFrame::Double(Double(b"1.22e10".to_vec()));
    assert_eq!(frame.encode(), b",1.22e10\r\n");
    let frame: RespFrame = RespFrame::Double(Double(b"inf".to_vec()));
    assert_eq!(frame.encode(), b",inf\r\n");
    let frame: RespFrame = RespFrame::Double(Double(b"-inf".to_vec()));
    assert_eq!(frame.encode(), b",-inf\r\n");
    let frame: RespFrame = RespFrame::Double(Double(b"nan".to_vec()));
    assert_eq!(frame.encode(), b",nan\r\n");
}

#[test]
fn encode_test_double_encode() {
    let frame: RespFrame = RespFrame::Double(Double(b"+1.22".to_vec()));
    assert_eq!(frame.encode(), b",+1.22\r\n");
    let frame: RespFrame = RespFrame::Double(Double(b"-1.22".to_vec()));
    assert_eq!(frame.encode(), b",-1.22\r\n");
    let frame: RespFrame = RespFrame::Double(Double(b"0e0".to_vec()));
    assert_eq!(frame.encode(), b",0e0\r\n");
    let frame: RespFrame = RespFrame::Double(Double(b"inf".to_vec()));
    assert_eq!(frame.encode(), b",inf\r\n");
    let frame: RespFrame = RespFrame::Double(Double(b"-inf".to_vec()));
    assert_eq!(frame.encode(), b",-inf\r\n");
    let frame: RespFrame = RespFrame::Double(Double(b"nan".to_vec()));
    assert_eq!(frame.encode(), b",nan\r\n");
}

#[test]
fn test_double_decode() {
    let parsed = |buf: &[u8]| -> f64 {
        let mut b = buf.to_vec();
        let d = Double::decode(&mut b).unwrap();
        String::from_utf8(d.0).unwrap().parse::<f64>().unwrap()
    };
    assert_eq!(parsed(b",1.2\r\n"), 1.2);
    assert_eq!(parsed(b",-1.2\r\n"), -1.2);
    assert_eq!(parsed(b",inf\r\n"), f64::INFINITY);
    assert_eq!(parsed(b",-inf\r\n"), f64::NEG_INFINITY);
    assert!(parsed(b",nan\r\n").is_nan());
    assert_eq!(parsed(b",0e0\r\n"), 0.0);
    assert_eq!(parsed(b",1.23e2\r\n"), 123.0);
    assert_eq!(parsed(b",1.23e-2\r\n"), 0.0123);
    assert_eq!(parsed(b",1.23e-10\r\n"), 1.23e-10);
    assert_eq!(parsed(b",1.23e+10\r\n"), 1.23e+10);
}

#[test]
fn test_array_decode() {
    let mut buf = b"*0\r\n".to_vec();
    let result = RespArray::decode(&mut buf).unwrap();
    assert!(frame_eq(
        &RespFrame::Array(result),
        &RespFrame::Array(RespArray::new(vec![]))
    ));

    let mut buf = b"*1\r\n+foo\r\n".to_vec();
    let result = RespArray::decode(&mut buf).unwrap();
    assert!(frame_eq(
        &RespFrame::Array(result),
        &RespFrame::Array(RespArray::new(vec![ss("foo")]))
    ));

    let mut buf = b"*2\r\n+foo\r\n+bar\r\n".to_vec();
    let result = RespArray::decode(&mut buf).unwrap();
    assert!(frame_eq(
        &RespFrame::Array(result),
        &RespFrame::Array(RespArray::new(vec![ss("foo"), ss("bar")]))
    ));

    let mut buf = b"*2\r\n+foo\r\n:1\r\n".to_vec();
    let result = RespArray::decode(&mut buf).unwrap();
    assert!(frame_eq(
        &RespFrame::Array(result),
        &RespFrame::Array(RespArray::new(vec![ss("foo"), num(1)]))
    ));

    let mut buf = b"*2\r\n+foo\r\n".to_vec();
    let result = RespArray::decode(&mut buf);
    assert_eq!(result.unwrap_err(), RespError::NotCompleted);

    buf.extend_from_slice(b"+bar\r\n");
    let result = RespArray::decode(&mut buf).unwrap();
    assert!(frame_eq(
        &RespFrame::Array(result),
        &RespFrame::Array(RespArray::new(vec![ss("foo"), ss("bar")]))
    ));

    let mut buf = b"*-1\r\n".to_vec();
    let result = RespArray::decode(&mut buf).unwrap();
    assert!(frame_eq(
        &RespFrame::Array(result),
        &RespFrame::Array(RespArray::null())
    ));
}

#[test]
fn test_array_encode() {
    let frame: RespFrame = RespFrame::Array(RespArray::new(vec![
        ss("hello"),
        RespFrame::Error(SimpleError(b"Err".to_vec())),
        num(123),
    ]));
    assert_eq!(frame.encode(), b"*3\r\n+hello\r\n-Err\r\n:123\r\n");

    let frame: RespFrame = RespFrame::Array(RespArray::null());
    assert_eq!(frame.encode(), b"*-1\r\n");
}

#[test]
fn array_test_array_encode() {
    let frame: RespFrame = RespFrame::Array(RespArray::new(vec![
        ss("hello"),
        RespFrame::Error(SimpleError(b"Err".to_vec())),
        num(123),
    ]));
    assert_eq!(frame.encode(), b"*3\r\n+hello\r\n-Err\r\n:123\r\n");

    let frame: RespFrame = RespFrame::Array(RespArray::null());
    assert_eq!(frame.encode(), b"*-1\r\n");
}

#[test]
fn encode_test_array_encode() {
    let frame: RespFrame = RespFrame::Array(RespArray::new(vec![
        ss("hello"),
        RespFrame::Error(SimpleError(b"Err".to_vec())),
        num(123),
    ]));
    assert_eq!(frame.encode(), b"*3\r\n+hello\r\n-Err\r\n:123\r\n");
}

#[test]
fn test_map_encode() {
    let mut map = RespMap::new();
    map.insert(b"first".to_vec(), num(1));
    map.insert(b"second".to_vec(), num(2));
    let frame: RespFrame = RespFrame::Dict(map);
    assert_eq!(frame.encode(), b"%2\r\n+first\r\n:1\r\n+second\r\n:2\r\n");
}

#[test]
fn map_test_map_encode() {
    let mut map = RespMap::new();
    map.insert(b"first".to_vec(), num(1));
    map.insert(b"second".to_vec(), num(2));
    let frame: RespFrame = RespFrame::Dict(map);
    assert_eq!(frame.encode(), b"%2\r\n+first\r\n:1\r\n+second\r\n:2\r\n");
}

#[test]
fn encode_test_map_encode() {
    let mut map = RespMap::new();
    map.insert(b"first".to_vec(), num(1));
    map.insert(b"second".to_vec(), num(2));
    let frame: RespFrame = RespFrame::Dict(map);
    assert_eq!(frame.encode(), b"%2\r\n+first\r\n:1\r\n+second\r\n:2\r\n");
}

#[test]
fn test_map_decode() {
    // a zero-entry map is rejected: the wire format wants a positive count
    let mut buf = b"%0\r\n".to_vec();
    let result = RespMap::decode(&mut buf);
    assert!(result.is_err());

    let mut buf = b"%1\r\n+foo\r\n+bar\r\n".to_vec();
    let result = RespMap::decode(&mut buf).unwrap();
    let mut expected = RespMap::new();
    expected.insert(b"foo".to_vec(), ss("bar"));
    assert!(frame_eq(&RespFrame::Dict(result), &RespFrame::Dict(expected)));

    let mut buf = b"%2\r\n+foo\r\n+bar\r\n+baz\r\n+qux\r\n".to_vec();
    let result = RespMap::decode(&mut buf).unwrap();
    let mut expected = RespMap::new();
    expected.insert(b"foo".to_vec(), ss("bar"));
    expected.insert(b"baz".to_vec(), ss("qux"));
    assert!(frame_eq(&RespFrame::Dict(result), &RespFrame::Dict(expected)));

    let mut buf = b"%2\r\n+foo\r\n+bar\r\n+baz\r\n:2\r\n".to_vec();
    let result = RespMap::decode(&mut buf).unwrap();
    let mut expected = RespMap::new();
    expected.insert(b"foo".to_vec(), ss("bar"));
    expected.insert(b"baz".to_vec(), num(2));
    assert!(frame_eq(&RespFrame::Dict(result), &RespFrame::Dict(expected)));

    let mut buf = b"%2\r\n+foo\r\n+bar\r\n".to_vec();
    let result = RespMap::decode(&mut buf);
    assert_eq!(result.unwrap_err(), RespError::NotCompleted);

    buf.extend_from_slice(b"+baz\r\n+qux\r\n");
    let result = RespMap::decode(&mut buf).unwrap();
    let mut expected = RespMap::new();
    expected.insert(b"foo".to_vec(), ss("bar"));
    expected.insert(b"baz".to_vec(), ss("qux"));
    assert!(frame_eq(&RespFrame::Dict(result), &RespFrame::Dict(expected)));
}

#[test]
fn test_set_encode() {
    let set = RespSet::new(vec![num(1), num(2)]);
    let frame: RespFrame = RespFrame::Uniq(set);
    assert_eq!(frame.encode(), b"~2\r\n:1\r\n:2\r\n");
}

#[test]
fn set_test_set_encode() {
    let set = RespSet::new(vec![num(1), num(2)]);
    let frame: RespFrame = RespFrame::Uniq(set);
    assert_eq!(frame.encode(), b"~2\r\n:1\r\n:2\r\n");
}

#[test]
fn encode_test_set_encode() {
    let set = RespSet::new(vec![num(1), num(2)]);
    let frame: RespFrame = RespFrame::Uniq(set);
    assert_eq!(frame.encode(), b"~2\r\n:1\r\n:2\r\n");
}

#[test]
fn test_set_decode() {
    let mut buf = b"~0\r\n".to_vec();
    let result = RespSet::decode(&mut buf).unwrap();
    assert!(frame_eq(
        &RespFrame::Uniq(result),
        &RespFrame::Uniq(RespSet::new(vec![]))
    ));

    let mut buf = b"~1\r\n+foo\r\n".to_vec();
    let result = RespSet::decode(&mut buf).unwrap();
    assert!(frame_eq(
        &RespFrame::Uniq(result),
        &RespFrame::Uniq(RespSet::new(vec![ss("foo")]))
    ));

    let mut buf = b"~2\r\n+foo\r\n+bar\r\n".to_vec();
    let result = RespSet::decode(&mut buf).unwrap();
    assert!(frame_eq(
        &RespFrame::Uniq(result),
        &RespFrame::Uniq(RespSet::new(vec![ss("foo"), ss("bar")]))
    ));

    let mut buf = b"~2\r\n+foo\r\n:1\r\n".to_vec();
    let result = RespSet::decode(&mut buf).unwrap();
    assert!(frame_eq(
        &RespFrame::Uniq(result),
        &RespFrame::Uniq(RespSet::new(vec![ss("foo"), num(1)]))
    ));

    // duplicated items are dropped, first-seen order kept
    let mut buf = b"~2\r\n+foo\r\n+foo\r\n".to_vec();
    let result = RespSet::decode(&mut buf).unwrap();
    assert!(frame_eq(
        &RespFrame::Uniq(result),
        &RespFrame::Uniq(RespSet::new(vec![ss("foo")]))
    ));

    let mut buf = b"~2\r\n+foo\r\n".to_vec();
    let result = RespSet::decode(&mut buf);
    assert_eq!(result.unwrap_err(), RespError::NotCompleted);

    buf.extend_from_slice(b"+baz\r\n");
    let result = RespSet::decode(&mut buf).unwrap();
    assert!(frame_eq(
        &RespFrame::Uniq(result),
        &RespFrame::Uniq(RespSet::new(vec![ss("foo"), ss("baz")]))
    ));
}

#[test]
fn test_resp_frame_decode() {
    let mut buf = b"$5\r\nhello\r\n".to_vec();
    let expected_length = RespFrame::expect_length(&buf).unwrap();
    assert_eq!(expected_length, 11);
    let result = RespFrame::decode(&mut buf).unwrap();
    assert!(frame_eq(&result, &bulk(b"hello")));
}

#[test]
fn round_trip_nested_frame() {
    // a frame of every variant, nested, survives encode then decode
    let mut map = RespMap::new();
    map.insert(b"k".to_vec(), bulk(b"v"));
    let f = RespFrame::Array(RespArray::new(vec![
        ss("s"),
        RespFrame::Error(SimpleError(b"e".to_vec())),
        num(-7),
        bulk(b"data"),
        RespFrame::BulkString(BulkString::new_null()),
        RespFrame::Array(RespArray::null()),
        RespFrame::Null(RespNull),
        RespFrame::Boolean(true),
        RespFrame::Double(Double(b"+1.5".to_vec())),
        RespFrame::Dict(map),
        RespFrame::Uniq(RespSet::new(vec![num(1), num(2)])),
    ]));
    let copy = f.clone();
    let mut wire = f.encode();
    let back = RespFrame::decode(&mut wire).unwrap();
    assert!(wire.is_empty());
    assert!(frame_eq(&back, &copy));
}

#[test]
fn length_agreement_on_wire() {
    // the scanner reports exactly what the decoder consumes
    let cases: Vec<&[u8]> = vec![
        b"+OK\r\n",
        b"$-1\r\n",
        b"*2\r\n$3\r\nget\r\n$5\r\nhello\r\n",
        b"%1\r\n+k\r\n:1\r\n",
        b"~2\r\n:1\r\n:2\r\n",
        b",nan\r\n",
    ];
    for case in cases {
        let n = parse_frame_length(case).unwrap();
        let mut buf = case.to_vec();
        RespFrame::decode(&mut buf).unwrap();
        assert_eq!(case.len() - buf.len(), n);
        assert_eq!(n, case.len());
    }
}

#[test]
fn incremental_feeding() {
    // every strict prefix of a valid frame is not yet complete, and
    // feeding the remainder afterwards decodes the same frame
    let wire = b"*2\r\n$3\r\nget\r\n$5\r\nhello\r\n";
    for cut in 0..wire.len() {
        let mut buf = wire[..cut].to_vec();
        assert_eq!(
            RespFrame::decode(&mut buf).unwrap_err(),
            RespError::NotCompleted
        );
        // the buffer must be untouched by the failed attempt
        assert_eq!(buf, wire[..cut].to_vec());
        buf.extend_from_slice(&wire[cut..]);
        let whole = RespFrame::decode(&mut buf).unwrap();
        let mut direct = wire.to_vec();
        let expected = RespFrame::decode(&mut direct).unwrap();
        assert!(frame_eq(&whole, &expected));
    }
}

#[test]
fn set_decode_idempotent() {
    // decoding a set wire form with duplicates equals decoding the
    // unique-element form, in insertion order
    let mut with_dups = b"~4\r\n:1\r\n:2\r\n:1\r\n:2\r\n".to_vec();
    let mut unique = b"~2\r\n:1\r\n:2\r\n".to_vec();
    let a = RespSet::decode(&mut with_dups).unwrap();
    let b = RespSet::decode(&mut unique).unwrap();
    assert!(frame_eq(&RespFrame::Uniq(a), &RespFrame::Uniq(b)));
}

#[test]
fn invalid_frames_rejected() {
    let mut buf = b"&bad\r\n".to_vec();
    assert!(matches!(
        RespFrame::decode(&mut buf),
        Err(RespError::InvalidFrameType(_))
    ));

    let mut buf = b"$-2\r\n".to_vec();
    assert!(matches!(
        RespFrame::decode(&mut buf),
        Err(RespError::InvalidFrame(_))
    ));

    let mut buf = b",abc\r\n".to_vec();
    assert!(matches!(
        RespFrame::decode(&mut buf),
        Err(RespError::ParseFloatError)
    ));

    let mut buf = b":9223372036854775808\r\n".to_vec();
    assert!(RespFrame::decode(&mut buf).is_err());

    let mut buf = b"%0\r\n".to_vec();
    assert!(RespFrame::decode(&mut buf).is_err());
}

#[test]
fn double_test_double_encode() {
    let frame: RespFrame = RespFrame::Double(Double(b"+1.22".to_vec()));
    assert_eq!(frame.encode(), b",+1.22\r\n");
    let frame: RespFrame = RespFrame::Double(Double(b"-1.22".to_vec()));
    assert_eq!(frame.encode(), b",-1.22\r\n");
    let frame: RespFrame = RespFrame::Double(Double(b"0e0".to_vec()));
    assert_eq!(frame.encode(), b",0e0\r\n");
    let frame: RespFrame = RespFrame::Double(Double(b"1.22e-10".to_vec()));
    assert_eq!(frame.encode(), b",1.22e-10\r\n");
    let frame: RespFrame = RespFrame::Double(Double(b"1.22e10".to_vec()));
    assert_eq!(frame.encode(), b",1.22e10\r\n");
    let frame: RespFrame = RespFrame::Double(Double(b"inf".to_vec()));
    assert_eq!(frame.encode(), b",inf\r\n");
    let frame: RespFrame = RespFrame::Double(Double(b"-inf".to_vec()));
    assert_eq!(frame.encode(), b",-inf\r\n");
    let frame: RespFrame = RespFrame::Double(Double(b"nan".to_vec()));
    assert_eq!(frame.encode(), b",nan\r\n");
}
