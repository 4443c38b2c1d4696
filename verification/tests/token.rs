use resp_kv::resp::error::ProtocolError;
use resp_kv::resp::token::{tokenize, RespTokens};

#[test]
fn tokenize_simple_string() {
    let input = "+HelloWorld\r\n".to_string();
    let tokens = RespTokens::try_from(input).unwrap().0;

    assert_eq!(tokens, vec!["+HelloWorld", ""])
}

#[test]
fn tokenize_simple_array() {
    let input = "*2\r\n$5\r\nhello\r\n$5\r\nworld\r\n".to_string();
    let tokens = RespTokens::try_from(input).unwrap().0;

    assert_eq!(tokens, vec!["*2", "$5", "hello", "$5", "world", ""])
}

#[test]
fn tokenize_mixed_array() {
    let input = "*3\r\n$5\r\nhello\r\n$5\r\nworld\r\n:1\r\n".to_string();
    let tokens = RespTokens::try_from(input).unwrap().0;

    assert_eq!(tokens, vec!["*3", "$5", "hello", "$5", "world", ":1", ""])
}

#[test]
fn tokenize_complex_array() {
    let input = "*4\r\n$5\r\nhello\r\n$5\r\nworld\r\n:1\r\n*1\r\n+simple\r\n".to_string();
    let tokens = RespTokens::try_from(input).unwrap().0;

    assert_eq!(
        tokens,
        vec!["*4", "$5", "hello", "$5", "world", ":1", "*1", "+simple", ""]
    )
}

#[test]
fn payload_is_taken_by_count() {
    let input = "$7\r\nab\r\ncd\r\r\n+x".to_string();
    let tokens = RespTokens::try_from(input).unwrap().0;
    assert_eq!(tokens, vec!["$7", "ab\r\ncd\r", "+x"]);
}

#[test]
fn payload_may_hold_any_byte() {
    let input = b"$3\r\n\xff\x00\r\r\n:1\r\n";
    let tokens = tokenize(input).unwrap();
    assert_eq!(
        tokens,
        vec![
            b"$3".to_vec(),
            b"\xff\x00\r".to_vec(),
            b":1".to_vec(),
            b"".to_vec()
        ]
    );
}

#[test]
fn partial_frame_is_kept_whole() {
    let tokens = RespTokens::try_from("+OK\r\n$5\r\nhel".to_string()).unwrap().0;
    assert_eq!(tokens, vec!["+OK", "$5\r\nhel"]);

    let tokens = RespTokens::try_from("$5\r\nhello\r".to_string()).unwrap().0;
    assert_eq!(tokens, vec!["$5\r\nhello\r"]);

    let tokens = RespTokens::try_from("+O".to_string()).unwrap().0;
    assert_eq!(tokens, vec!["+O"]);

    let tokens = RespTokens::try_from("".to_string()).unwrap().0;
    assert_eq!(tokens, vec![""]);
}

#[test]
fn null_bulk_has_no_payload() {
    let tokens = RespTokens::try_from("$-1\r\n+OK\r\n".to_string()).unwrap().0;
    assert_eq!(tokens, vec!["$-1", "+OK", ""]);
}

#[test]
fn bad_length_prefix_is_refused() {
    assert_eq!(
        RespTokens::try_from("$abc\r\nhello\r\n".to_string()).err(),
        Some(ProtocolError::InvalidLength)
    );
    assert_eq!(
        RespTokens::try_from("$-2\r\n".to_string()).err(),
        Some(ProtocolError::InvalidLength)
    );
    assert_eq!(
        RespTokens::try_from("$\r\n".to_string()).err(),
        Some(ProtocolError::InvalidLength)
    );
    assert_eq!(
        RespTokens::try_from("$99999999999999999999\r\n".to_string()).err(),
        Some(ProtocolError::InvalidLength)
    );
}

#[test]
fn payload_without_terminator_is_refused() {
    assert_eq!(
        RespTokens::try_from("$3\r\nabcdef\r\n".to_string()).err(),
        Some(ProtocolError::InvalidLength)
    );
}

#[test]
fn payload_cut_inside_a_character_is_refused() {
    let input = "$1\r\n\u{e9}\r\n\r\n".to_string();
    assert_eq!(input.as_bytes()[4..8], [0xc3, 0xa9, b'\r', b'\n']);
    // one byte of the two that encode the letter, then a terminator by chance
    let crafted = String::from_utf8(b"$1\r\n\xc3\xa9".to_vec()).unwrap();
    assert_eq!(
        RespTokens::try_from(crafted).map(|t| t.0),
        Ok(vec!["$1\r\n\u{e9}".to_string()])
    );
    assert_eq!(
        RespTokens::try_from(input).err(),
        Some(ProtocolError::InvalidLength)
    );
}

#[test]
fn tokens_join_back() {
    let input = "*2\r\n$5\r\nhello\r\n$5\r\nworld\r\n".to_string();
    let tokens = RespTokens::try_from(input.clone()).unwrap();
    let joined: String = tokens.into();
    assert_eq!(joined, input);

    let joined: String = RespTokens::from(vec!["a".to_string()]).into();
    assert_eq!(joined, "a");
    let joined: String = RespTokens::from(Vec::<String>::new()).into();
    assert_eq!(joined, "");
}

#[test]
fn cutting_is_taken_up_again_with_the_last_token() {
    let whole: &[u8] = b"*2\r\n$4\r\nPI\r\n\r\n+OK\r\n$-1\r\n:12\r\n$3\r\nab";
    let expected = tokenize(whole).unwrap();
    for cut in 0..=whole.len() {
        let mut tokens = tokenize(&whole[..cut]).unwrap();
        let mut kept = tokens.pop().unwrap();
        kept.extend_from_slice(&whole[cut..]);
        tokens.extend(tokenize(&kept).unwrap());
        assert_eq!(tokens, expected, "cut at {}", cut);
    }
}

#[test]
fn refused_buffer_stays_refused() {
    assert_eq!(tokenize(b"$x\r\n"), Err(ProtocolError::InvalidLength));
    assert_eq!(tokenize(b"$x\r\nmore\r\n"), Err(ProtocolError::InvalidLength));
    assert_eq!(tokenize(b"+a\r\n$1\r\nabc"), Err(ProtocolError::InvalidLength));
    assert_eq!(
        tokenize(b"+a\r\n$1\r\nabc\r\n"),
        Err(ProtocolError::InvalidLength)
    );
}
