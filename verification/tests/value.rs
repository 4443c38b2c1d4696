use resp_kv::resp::error::ProtocolError;
use resp_kv::resp::value::ProtocolValue;

fn bulk(s: &[u8]) -> ProtocolValue {
    ProtocolValue::BulkString(Some(s.to_vec()))
}

fn round_trip(v: ProtocolValue) {
    let bytes = v.encode();
    let n = bytes.len();
    assert_eq!(ProtocolValue::decode(&bytes), Ok((v, n)));
}

#[test]
fn encode_each_kind() {
    assert_eq!(
        ProtocolValue::SimpleString("PONG".to_string()).encode(),
        b"+PONG\r\n"
    );
    assert_eq!(
        ProtocolValue::Error("ERR unknown command".to_string()).encode(),
        b"-ERR unknown command\r\n"
    );
    assert_eq!(ProtocolValue::Integer(0).encode(), b":0\r\n");
    assert_eq!(ProtocolValue::Integer(-42).encode(), b":-42\r\n");
    assert_eq!(
        ProtocolValue::Integer(i64::MAX).encode(),
        b":9223372036854775807\r\n"
    );
    assert_eq!(
        ProtocolValue::Integer(i64::MIN).encode(),
        b":-9223372036854775808\r\n"
    );
    assert_eq!(bulk(b"blueberry").encode(), b"$9\r\nblueberry\r\n");
    assert_eq!(bulk(b"").encode(), b"$0\r\n\r\n");
    assert_eq!(ProtocolValue::BulkString(None).encode(), b"$-1\r\n");
    assert_eq!(ProtocolValue::Array(vec![]).encode(), b"*0\r\n");
    assert_eq!(
        ProtocolValue::Array(vec![bulk(b"ECHO"), bulk(b"hi")]).encode(),
        b"*2\r\n$4\r\nECHO\r\n$2\r\nhi\r\n"
    );
}

#[test]
fn encode_counts_bytes_not_characters() {
    assert_eq!(
        bulk("h\u{e9}".as_bytes()).encode(),
        b"$3\r\nh\xc3\xa9\r\n"
    );
    assert_eq!(
        ProtocolValue::SimpleString("h\u{e9}".to_string()).encode(),
        b"+h\xc3\xa9\r\n"
    );
    let twelve: Vec<ProtocolValue> = (0..12).map(ProtocolValue::Integer).collect();
    assert!(ProtocolValue::Array(twelve).encode().starts_with(b"*12\r\n:0\r\n:1\r\n"));
}

#[test]
fn decode_each_kind() {
    assert_eq!(
        ProtocolValue::decode(b"+OK\r\n"),
        Ok((ProtocolValue::SimpleString("OK".to_string()), 5))
    );
    assert_eq!(
        ProtocolValue::decode(b"-ERR x\r\n"),
        Ok((ProtocolValue::Error("ERR x".to_string()), 8))
    );
    assert_eq!(
        ProtocolValue::decode(b":1000\r\n"),
        Ok((ProtocolValue::Integer(1000), 7))
    );
    assert_eq!(
        ProtocolValue::decode(b":+7\r\n"),
        Ok((ProtocolValue::Integer(7), 5))
    );
    assert_eq!(
        ProtocolValue::decode(b"$5\r\nhello\r\n"),
        Ok((bulk(b"hello"), 11))
    );
    assert_eq!(
        ProtocolValue::decode(b"$-1\r\n"),
        Ok((ProtocolValue::BulkString(None), 5))
    );
    assert_eq!(
        ProtocolValue::decode(b"*-1\r\n"),
        Ok((ProtocolValue::Array(vec![]), 5))
    );
    assert_eq!(
        ProtocolValue::decode(b"*0\r\n"),
        Ok((ProtocolValue::Array(vec![]), 4))
    );
    assert_eq!(
        ProtocolValue::decode(b"*1\r\n$4\r\nPING\r\n"),
        Ok((ProtocolValue::Array(vec![bulk(b"PING")]), 14))
    );
}

#[test]
fn decode_takes_one_value_and_says_how_long_it_is() {
    assert_eq!(
        ProtocolValue::decode(b"+OK\r\n+NEXT\r\n"),
        Ok((ProtocolValue::SimpleString("OK".to_string()), 5))
    );
    assert_eq!(
        ProtocolValue::decode(b"*1\r\n:1\r\n*1\r\n:2\r\n"),
        Ok((ProtocolValue::Array(vec![ProtocolValue::Integer(1)]), 8))
    );
}

#[test]
fn decode_nested_arrays() {
    let input = b"*2\r\n$4\r\nPING\r\n*2\r\n$5\r\nHello\r\n*1\r\n:444\r\n";
    assert_eq!(
        ProtocolValue::decode(input),
        Ok((
            ProtocolValue::Array(vec![
                bulk(b"PING"),
                ProtocolValue::Array(vec![
                    bulk(b"Hello"),
                    ProtocolValue::Array(vec![ProtocolValue::Integer(444)])
                ])
            ]),
            input.len()
        ))
    );
}

#[test]
fn bulk_payload_is_binary_safe() {
    let payload: Vec<u8> = vec![0, 13, 10, 255, 13, 10, 36, 42];
    let mut input = b"$8\r\n".to_vec();
    input.extend_from_slice(&payload);
    input.extend_from_slice(b"\r\n");
    assert_eq!(
        ProtocolValue::decode(&input),
        Ok((ProtocolValue::BulkString(Some(payload)), 14))
    );
}

#[test]
fn round_trip_scalars() {
    round_trip(ProtocolValue::SimpleString("".to_string()));
    round_trip(ProtocolValue::SimpleString("hello world".to_string()));
    round_trip(ProtocolValue::SimpleString("ends with cr\r".to_string()));
    round_trip(ProtocolValue::SimpleString("lone\nnewline".to_string()));
    round_trip(ProtocolValue::Error("ERR \u{1F980} caf\u{e9}".to_string()));
    round_trip(ProtocolValue::Integer(0));
    round_trip(ProtocolValue::Integer(-1));
    round_trip(ProtocolValue::Integer(i64::MAX));
    round_trip(ProtocolValue::Integer(i64::MIN));
    round_trip(ProtocolValue::BulkString(None));
    round_trip(bulk(b""));
    round_trip(bulk(b"a\r\nb"));
    round_trip(bulk(&[0xff, 0x00, 0x80]));
}

#[test]
fn round_trip_nested_arrays_of_mixed_kinds() {
    round_trip(ProtocolValue::Array(vec![]));
    round_trip(ProtocolValue::Array(vec![
        ProtocolValue::SimpleString("a".to_string()),
        ProtocolValue::Error("b".to_string()),
        ProtocolValue::Integer(3),
        ProtocolValue::BulkString(None),
        bulk(b"five"),
        ProtocolValue::Array(vec![
            ProtocolValue::Array(vec![]),
            ProtocolValue::Array(vec![ProtocolValue::Array(vec![bulk(b"deep")])]),
            ProtocolValue::Integer(-6),
        ]),
    ]));
}

#[test]
fn simple_string_with_terminator_inside_does_not_round_trip() {
    let v = ProtocolValue::SimpleString("a\r\nb".to_string());
    let bytes = v.encode();
    assert_eq!(bytes, b"+a\r\nb\r\n");
    assert_eq!(
        ProtocolValue::decode(&bytes),
        Ok((ProtocolValue::SimpleString("a".to_string()), 4))
    );
}

#[test]
fn incomplete_frames() {
    for input in [
        &b""[..],
        b"+",
        b"+OK",
        b"+OK\r",
        b":12",
        b"$5",
        b"$5\r\n",
        b"$5\r\nhel",
        b"$5\r\nhello",
        b"$5\r\nhello\r",
        b"*2\r\n",
        b"*2\r\n$4\r\nPING\r\n",
        b"*2\r\n$4\r\nPING\r\n$4\r\nPI",
        b"*1\r\n*1\r\n",
    ] {
        assert_eq!(
            ProtocolValue::decode(input),
            Err(ProtocolError::Incomplete),
            "{:?}",
            input
        );
    }
}

#[test]
fn incomplete_frame_completes_when_more_bytes_arrive() {
    let whole = b"*2\r\n$4\r\nECHO\r\n$9\r\nblueberry\r\n";
    for cut in 0..whole.len() {
        assert_eq!(
            ProtocolValue::decode(&whole[..cut]),
            Err(ProtocolError::Incomplete),
            "cut at {}",
            cut
        );
    }
    assert_eq!(
        ProtocolValue::decode(whole),
        Ok((
            ProtocolValue::Array(vec![bulk(b"ECHO"), bulk(b"blueberry")]),
            whole.len()
        ))
    );
}

#[test]
fn unknown_type_prefix() {
    assert_eq!(
        ProtocolValue::decode(b"hello\r\n"),
        Err(ProtocolError::UnknownType(b'h'))
    );
    assert_eq!(
        ProtocolValue::decode(b"?"),
        Err(ProtocolError::UnknownType(b'?'))
    );
    assert_eq!(
        ProtocolValue::decode(b"*1\r\n!\r\n"),
        Err(ProtocolError::UnknownType(b'!'))
    );
}

#[test]
fn invalid_lengths() {
    assert_eq!(
        ProtocolValue::decode(b"$abc\r\nhello\r\n"),
        Err(ProtocolError::InvalidLength)
    );
    assert_eq!(
        ProtocolValue::decode(b"$\r\n"),
        Err(ProtocolError::InvalidLength)
    );
    assert_eq!(
        ProtocolValue::decode(b"$-2\r\n"),
        Err(ProtocolError::InvalidLength)
    );
    assert_eq!(
        ProtocolValue::decode(b"*x\r\n"),
        Err(ProtocolError::InvalidLength)
    );
    assert_eq!(
        ProtocolValue::decode(b"*-7\r\n"),
        Err(ProtocolError::InvalidLength)
    );
    assert_eq!(
        ProtocolValue::decode(b"$9223372036854775808\r\n"),
        Err(ProtocolError::InvalidLength)
    );
    assert_eq!(
        ProtocolValue::decode(b"$1 \r\na\r\n"),
        Err(ProtocolError::InvalidLength)
    );
}

#[test]
fn huge_declared_sizes_are_incomplete_not_fatal() {
    assert_eq!(
        ProtocolValue::decode(b"$9223372036854775807\r\nabc"),
        Err(ProtocolError::Incomplete)
    );
    assert_eq!(
        ProtocolValue::decode(b"*9223372036854775807\r\n:1\r\n"),
        Err(ProtocolError::Incomplete)
    );
}

#[test]
fn invalid_integers() {
    assert_eq!(
        ProtocolValue::decode(b":\r\n"),
        Err(ProtocolError::InvalidInteger)
    );
    assert_eq!(
        ProtocolValue::decode(b":12a\r\n"),
        Err(ProtocolError::InvalidInteger)
    );
    assert_eq!(
        ProtocolValue::decode(b":-\r\n"),
        Err(ProtocolError::InvalidInteger)
    );
    assert_eq!(
        ProtocolValue::decode(b":9223372036854775808\r\n"),
        Err(ProtocolError::InvalidInteger)
    );
    assert_eq!(
        ProtocolValue::decode(b":-9223372036854775809\r\n"),
        Err(ProtocolError::InvalidInteger)
    );
}

#[test]
fn bulk_without_terminator() {
    assert_eq!(
        ProtocolValue::decode(b"$3\r\nabcdef\r\n"),
        Err(ProtocolError::InvalidLength)
    );
    assert_eq!(
        ProtocolValue::decode(b"$3\r\nabc\n\r"),
        Err(ProtocolError::InvalidLength)
    );
}

#[test]
fn text_that_is_not_utf8() {
    assert_eq!(
        ProtocolValue::decode(b"+\xff\r\n"),
        Err(ProtocolError::InvalidUtf8)
    );
    assert_eq!(
        ProtocolValue::decode(b"-\xc3\r\n"),
        Err(ProtocolError::InvalidUtf8)
    );
}

#[test]
fn first_fault_from_the_left_decides() {
    assert_eq!(
        ProtocolValue::decode(b"*2\r\n:x\r\n$abc\r\n"),
        Err(ProtocolError::InvalidInteger)
    );
    assert_eq!(
        ProtocolValue::decode(b"*2\r\n$abc\r\n:x\r\n"),
        Err(ProtocolError::InvalidLength)
    );
    assert_eq!(
        ProtocolValue::decode(b"*2\r\n:1\r\n"),
        Err(ProtocolError::Incomplete)
    );
}

#[test]
fn protocol_error_texts() {
    for e in [
        ProtocolError::Incomplete,
        ProtocolError::UnknownType(b'x'),
        ProtocolError::InvalidLength,
        ProtocolError::InvalidInteger,
        ProtocolError::InvalidUtf8,
    ] {
        assert_eq!(e.message(), "Cannot parse data");
    }
    assert_eq!(ProtocolError::Incomplete.reply(), "ERR incomplete frame");
    assert_eq!(
        ProtocolError::UnknownType(b'x').reply(),
        "ERR unknown type prefix"
    );
    assert_eq!(ProtocolError::InvalidLength.reply(), "ERR invalid length");
    assert_eq!(ProtocolError::InvalidInteger.reply(), "ERR invalid integer");
    assert_eq!(ProtocolError::InvalidUtf8.reply(), "ERR text is not UTF-8");
}

#[test]
fn what_was_read_stays_when_more_bytes_follow() {
    let frame: &[u8] = b"*2\r\n$4\r\nECHO\r\n$2\r\nhi\r\n";
    let alone = ProtocolValue::decode(frame).unwrap();
    let mut followed = frame.to_vec();
    followed.extend_from_slice(b"*1\r\n$4\r\nPI");
    assert_eq!(ProtocolValue::decode(&followed), Ok(alone));

    assert_eq!(
        ProtocolValue::decode(b":x\r\n"),
        Err(ProtocolError::InvalidInteger)
    );
    assert_eq!(
        ProtocolValue::decode(b":x\r\n:1\r\n"),
        Err(ProtocolError::InvalidInteger)
    );
}
