use bytes::BytesMut;

use simple_redis::{BulkString, RespArray, RespError, RespFrame};

#[test]
fn test_bulk_string_encode() {
    let frame: RespFrame = RespFrame::BulkString(BulkString::new(b"hello".to_vec(), false));
    assert_eq!(frame.encode(), b"$5\r\nhello\r\n".to_vec());
}

#[test]
fn test_null_bulk_string_encode() {
    let frame: RespFrame = RespFrame::BulkString(BulkString::new(b"".to_vec(), true));
    assert_eq!(frame.encode(), b"$-1\r\n".to_vec());
}

#[test]
fn test_bulk_string_decode() {
    let mut buf = BytesMut::new();
    buf.extend_from_slice(b"$5\r\nhello\r\n");

    let frame = BulkString::decode(&mut buf).unwrap();
    assert_eq!(frame, BulkString::new(b"hello".to_vec(), false));

    buf.extend_from_slice(b"$5\r\nhello");
    let ret = BulkString::decode(&mut buf);
    assert_eq!(ret.unwrap_err(), RespError::NotComplete);

    buf.extend_from_slice(b"\r\n");
    let frame = BulkString::decode(&mut buf).unwrap();
    assert_eq!(frame, BulkString::new(b"hello".to_vec(), false));
}

#[test]
fn test_null_bulk_string_decode() {
    let mut buf = BytesMut::new();
    buf.extend_from_slice(b"$-1\r\n");

    let frame = BulkString::decode(&mut buf).unwrap();
    assert_eq!(frame, BulkString::new(b"".to_vec(), true));
}

#[test]
fn test_null_bulk_string_round_trip() {
    let mut buf = BytesMut::new();
    buf.extend_from_slice(b"$-1\r\n");
    let frame = BulkString::decode(&mut buf).unwrap();
    assert!(frame.is_null);
    assert_eq!(frame.encode(), b"$-1\r\n".to_vec());
    assert_eq!(buf.len(), 0);
}

fn round_trip(frame: RespFrame) {
    let expected = frame.clone();
    let bytes = frame.encode();
    let mut buf = BytesMut::new();
    buf.extend_from_slice(&bytes);
    let decoded = RespFrame::decode(&mut buf).unwrap();
    assert_eq!(decoded, expected);
    assert_eq!(buf.len(), 0);
}

#[test]
fn test_frame_round_trips() {
    round_trip(RespFrame::SimpleString(b"OK".to_vec()));
    round_trip(RespFrame::SimpleError(b"ERR bad request".to_vec()));
    round_trip(RespFrame::Integer(0));
    round_trip(RespFrame::Integer(2));
    round_trip(RespFrame::Integer(-42));
    round_trip(RespFrame::Integer(i64::MAX));
    round_trip(RespFrame::Integer(i64::MIN));
    round_trip(RespFrame::Boolean(true));
    round_trip(RespFrame::Boolean(false));
    round_trip(RespFrame::BulkString(BulkString::new(b"".to_vec(), false)));
    round_trip(RespFrame::BulkString(BulkString::new(b"hello".to_vec(), false)));
    round_trip(RespFrame::BulkString(BulkString::new(b"".to_vec(), true)));
    round_trip(RespFrame::Array(RespArray { elems: vec![], is_null: false }));
    round_trip(RespFrame::Array(RespArray { elems: vec![], is_null: true }));
    round_trip(RespFrame::Array(RespArray {
        elems: vec![
            RespFrame::BulkString(BulkString::new(b"get".to_vec(), false)),
            RespFrame::Integer(7),
            RespFrame::Array(RespArray {
                elems: vec![RespFrame::SimpleString(b"inner".to_vec())],
                is_null: false,
            }),
        ],
        is_null: false,
    }));
}

#[test]
fn test_map_and_set_frames() {
    // a map frame: two field-value pairs, flat on the wire
    let mut buf = BytesMut::new();
    buf.extend_from_slice(b"%2\r\n$2\r\nf1\r\n:1\r\n$2\r\nf2\r\n:2\r\n");
    let frame = RespFrame::decode(&mut buf).unwrap();
    assert_eq!(buf.len(), 0);
    assert_eq!(
        frame,
        RespFrame::MapFrame(vec![
            RespFrame::BulkString(BulkString::new(b"f1".to_vec(), false)),
            RespFrame::Integer(1),
            RespFrame::BulkString(BulkString::new(b"f2".to_vec(), false)),
            RespFrame::Integer(2),
        ])
    );
    assert_eq!(
        frame.encode(),
        b"%2\r\n$2\r\nf1\r\n:1\r\n$2\r\nf2\r\n:2\r\n".to_vec()
    );
    // a set frame of three members
    let mut buf = BytesMut::new();
    buf.extend_from_slice(b"~3\r\n:1\r\n:2\r\n:3\r\n");
    let frame = RespFrame::decode(&mut buf).unwrap();
    assert_eq!(
        frame,
        RespFrame::SetFrame(vec![
            RespFrame::Integer(1),
            RespFrame::Integer(2),
            RespFrame::Integer(3),
        ])
    );
    round_trip(RespFrame::MapFrame(vec![]));
    round_trip(RespFrame::SetFrame(vec![]));
    round_trip(RespFrame::SetFrame(vec![RespFrame::Boolean(true)]));
    // partial map and set frames stay retryable
    let mut buf = BytesMut::new();
    buf.extend_from_slice(b"%1\r\n$2\r\nf1\r\n");
    assert_eq!(RespFrame::decode(&mut buf).unwrap_err(), RespError::NotComplete);
    assert_eq!(RespFrame::expect_length(b"~2\r\n:1\r\n:2\r\n"), Ok(12));
}

#[test]
fn test_partial_read_safety() {
    let wire = b"*2\r\n$4\r\necho\r\n$5\r\nhello\r\n";
    for cut in 0..wire.len() {
        let mut buf = BytesMut::new();
        buf.extend_from_slice(&wire[..cut]);
        let before = buf.clone();
        let ret = RespFrame::decode(&mut buf);
        assert_eq!(ret.unwrap_err(), RespError::NotComplete);
        assert_eq!(buf, before, "a failed decode must consume nothing");
    }
    let mut buf = BytesMut::new();
    buf.extend_from_slice(wire);
    let frame = RespFrame::decode(&mut buf).unwrap();
    assert_eq!(buf.len(), 0, "a successful decode consumes exactly the frame");
    match frame {
        RespFrame::Array(a) => assert_eq!(a.elems.len(), 2),
        other => panic!("expected an array, got {:?}", other),
    }
}

#[test]
fn test_expect_length() {
    // a complete bulk string header is enough to know the full span
    assert_eq!(BulkString::expect_length(b"$5\r\nhe"), Ok(11));
    assert_eq!(BulkString::expect_length(b"$5\r\nhello\r\n"), Ok(11));
    assert_eq!(BulkString::expect_length(b"$-1\r\n"), Ok(5));
    assert_eq!(BulkString::expect_length(b"$5"), Err(RespError::NotComplete));
    assert_eq!(BulkString::expect_length(b":12\r\n"), Err(RespError::Malformed));
    assert_eq!(RespArray::expect_length(b"*2\r\n$4\r\necho\r\n$5\r\nhello\r\n"), Ok(25));
    assert_eq!(RespArray::expect_length(b"*2\r\n$4\r\necho\r\n"), Err(RespError::NotComplete));
    assert_eq!(RespFrame::expect_length(b":104\r\n"), Ok(6));
}

#[test]
fn test_malformed_inputs() {
    let cases: Vec<&[u8]> = vec![
        b"x1\r\n",      // unknown prefix byte
        b":01\r\n",     // leading zero
        b":-0\r\n",     // signed zero
        b":12a\r\n",    // junk after the digits
        b"$2\r\nhello", // declared length shorter than the payload
        b"$-2\r\n",     // only -1 marks the null form
        b"#x\r\n",      // not a boolean letter
        b"+ok\rx\r\n",  // naked carriage return inside a simple string
    ];
    for case in cases {
        let mut buf = BytesMut::new();
        buf.extend_from_slice(case);
        let before = buf.clone();
        let ret = RespFrame::decode(&mut buf);
        assert_eq!(ret.unwrap_err(), RespError::Malformed, "input {:?}", case);
        assert_eq!(buf, before);
    }
}

#[test]
fn test_typed_decode_wrong_prefix() {
    // a buffer that cannot become a bulk string is refused at once, even
    // while the frame it does hold is still incomplete
    let mut buf = BytesMut::new();
    buf.extend_from_slice(b":1");
    let before = buf.clone();
    assert_eq!(BulkString::decode(&mut buf).unwrap_err(), RespError::Malformed);
    assert_eq!(buf, before);
    // likewise for arrays
    let mut buf = BytesMut::new();
    buf.extend_from_slice(b"$5\r\nhe");
    assert_eq!(RespArray::decode(&mut buf).unwrap_err(), RespError::Malformed);
    // the right prefix with missing bytes stays retryable
    let mut buf = BytesMut::new();
    buf.extend_from_slice(b"$5\r\nhe");
    assert_eq!(BulkString::decode(&mut buf).unwrap_err(), RespError::NotComplete);
    // and the probes agree
    assert_eq!(BulkString::expect_length(b":1"), Err(RespError::Malformed));
    assert_eq!(RespArray::expect_length(b"$5"), Err(RespError::Malformed));
    assert_eq!(RespArray::expect_length(b"*2"), Err(RespError::NotComplete));
}

#[test]
fn test_integer_encode_exact() {
    assert_eq!(RespFrame::Integer(2).encode(), b":2\r\n".to_vec());
    assert_eq!(RespFrame::Integer(-7).encode(), b":-7\r\n".to_vec());
    assert_eq!(RespFrame::Integer(104).encode(), b":104\r\n".to_vec());
}

#[test]
fn test_decode_leaves_following_bytes() {
    let mut buf = BytesMut::new();
    buf.extend_from_slice(b":1\r\n:2\r\n");
    assert_eq!(RespFrame::decode(&mut buf).unwrap(), RespFrame::Integer(1));
    assert_eq!(RespFrame::decode(&mut buf).unwrap(), RespFrame::Integer(2));
    assert_eq!(buf.len(), 0);
}
