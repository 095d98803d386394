use websocket_upgrade::error::UpgradeError;
use websocket_upgrade::headers::{
    parse_response, response_from_tokens, Header, Tokens, UpgradeResponse, MAX_HEADERS,
    MAX_NAME_LEN, SWITCHING_PROTOCOLS,
};
use websocket_upgrade::search::{
    ends_with, find_newline, find_terminator, starts_with, Terminator, CR, LF,
};
use websocket_upgrade::upgrade::{WebSocketUpgrade, WebSocketUpgradeState};

fn raw(name: &[u8], value: &[u8]) -> Header {
    Header { name: name.to_vec(), value: value.to_vec() }
}

fn built(tokens: Tokens) -> Result<(usize, Vec<(Vec<u8>, Vec<u8>)>), UpgradeError> {
    response_from_tokens(tokens).map(|(consumed, response)| {
        assert_eq!(response.status(), 101);
        (consumed, response.headers().iter().map(|h| (h.name.clone(), h.value.clone())).collect())
    })
}

fn one(name: &[u8], value: &[u8]) -> Result<(Vec<u8>, Vec<u8>), UpgradeError> {
    built(Ok(Some((0, vec![raw(name, value)])))).map(|(_, mut headers)| headers.remove(0))
}

fn response_of(block: &[u8]) -> (usize, UpgradeResponse) {
    parse_response(block).unwrap()
}

#[test]
fn constants() {
    assert_eq!(LF, b'\n');
    assert_eq!(CR, b'\r');
    assert_eq!(SWITCHING_PROTOCOLS, 101);
    assert_eq!(MAX_HEADERS, 16);
    assert_eq!(MAX_NAME_LEN, 65535);
}

#[test]
fn newline_is_found_first() {
    assert_eq!(find_newline(b""), None);
    assert_eq!(find_newline(b"abc\r"), None);
    assert_eq!(find_newline(b"\n"), Some(0));
    assert_eq!(find_newline(b"ab\ncd\n"), Some(2));
    assert_eq!(find_newline(b"ab\r\n\n"), Some(3));
}

#[test]
fn prefixes_and_suffixes() {
    assert!(starts_with(b"", b""));
    assert!(starts_with(b"abc", b""));
    assert!(starts_with(b"abc", b"ab"));
    assert!(starts_with(b"abc", b"abc"));
    assert!(!starts_with(b"abc", b"abcd"));
    assert!(!starts_with(b"abc", b"bc"));
    assert!(!starts_with(b"abc", b"abd"));

    assert!(ends_with(b"", b""));
    assert!(ends_with(b"abc", b""));
    assert!(ends_with(b"abc", b"bc"));
    assert!(ends_with(b"abc", b"abc"));
    assert!(!ends_with(b"abc", b"zabc"));
    assert!(!ends_with(b"abc", b"ab"));
    assert!(!ends_with(b"abc", b"ac"));
}

#[test]
fn strict_terminator_comes_first() {
    assert_eq!(find_terminator(b""), None);
    assert_eq!(find_terminator(b"a: b\r\n"), None);
    assert_eq!(find_terminator(b"a: b\r\n\r"), None);
    assert_eq!(find_terminator(b"\n\r\n\r"), None);
    assert_eq!(find_terminator(b"a: b\r\n\r\n"), Some(Terminator::Strict));
    assert_eq!(find_terminator(b"a: b\n\n"), Some(Terminator::Lenient));
    assert_eq!(find_terminator(b"a: b\r\n\n"), Some(Terminator::Lenient));
    assert_eq!(find_terminator(b"a\n\nb\r\n\r\nc"), Some(Terminator::Strict));
    assert_eq!(find_terminator(b"a\r\n\r\nb\n\nc"), Some(Terminator::Strict));
}

#[test]
fn tokenizer_failures_become_upgrade_failures() {
    assert_eq!(built(Err(httparse::Error::TooManyHeaders)), Err(UpgradeError::TooManyHeaders));
    for e in [
        httparse::Error::HeaderName,
        httparse::Error::HeaderValue,
        httparse::Error::NewLine,
        httparse::Error::Status,
        httparse::Error::Token,
        httparse::Error::Version,
    ] {
        assert_eq!(built(Err(e)), Err(UpgradeError::MalformedHeaders));
    }
    assert_eq!(built(Ok(None)), Err(UpgradeError::MalformedHeaders));
}

#[test]
fn tokens_become_a_response() {
    assert_eq!(built(Ok(Some((7, vec![])))), Ok((7, vec![])));
    assert_eq!(
        built(Ok(Some((40, vec![raw(b"Host", b"a b"), raw(b"X-Y", b""), raw(b"host", b"\tc")])))),
        Ok((
            40,
            vec![
                (b"host".to_vec(), b"a b".to_vec()),
                (b"x-y".to_vec(), b"".to_vec()),
                (b"host".to_vec(), b"\tc".to_vec()),
            ]
        ))
    );
    assert_eq!(
        built(Ok(Some((3, vec![raw(b"ok", b"fine"), raw(b"not ok", b"fine")])))),
        Err(UpgradeError::MalformedHeaders)
    );
    assert_eq!(
        built(Ok(Some((3, vec![raw(b"ok", b"fine"), raw(b"ok", b"not\nfine")])))),
        Err(UpgradeError::MalformedHeaders)
    );
}

#[test]
fn every_name_byte() {
    for b in 0..=255u8 {
        let accepted = matches!(b, b'!'..=b'\'' | b'*' | b'+' | b'-' | b'.' | b'0'..=b'9'
            | b'A'..=b'Z' | b'^'..=b'z' | b'|' | b'~');
        let expected = if accepted {
            Ok((vec![b.to_ascii_lowercase()], b"v".to_vec()))
        } else {
            Err(UpgradeError::MalformedHeaders)
        };
        assert_eq!(one(&[b], b"v"), expected, "byte {b}");
        // the same in a name that is too long for the short form
        let mut long = vec![b'A'; 70];
        long[35] = b;
        let mut lowered = vec![b'a'; 70];
        lowered[35] = b.to_ascii_lowercase();
        let expected = if accepted {
            Ok((lowered, b"v".to_vec()))
        } else {
            Err(UpgradeError::MalformedHeaders)
        };
        assert_eq!(one(&long, b"v"), expected, "byte {b} in a long name");
    }
}

#[test]
fn name_length_is_bounded() {
    assert_eq!(one(b"", b"v"), Err(UpgradeError::MalformedHeaders));
    assert_eq!(one(&vec![b'N'; 64], b"v"), Ok((vec![b'n'; 64], b"v".to_vec())));
    assert_eq!(one(&vec![b'N'; 65], b"v"), Ok((vec![b'n'; 65], b"v".to_vec())));
    assert_eq!(one(&vec![b'N'; 65535], b"v"), Ok((vec![b'n'; 65535], b"v".to_vec())));
    assert_eq!(one(&vec![b'N'; 65536], b"v"), Err(UpgradeError::MalformedHeaders));
}

#[test]
fn standard_names_are_lowered_too() {
    assert_eq!(
        one(b"CONTENT-LENGTH", b"1"),
        Ok((b"content-length".to_vec(), b"1".to_vec()))
    );
    assert_eq!(
        one(b"Sec-WebSocket-Accept", b"s3pPLMBiTxaQ9kYGzzhZRbK+xOo="),
        Ok((b"sec-websocket-accept".to_vec(), b"s3pPLMBiTxaQ9kYGzzhZRbK+xOo=".to_vec()))
    );
}

#[test]
fn every_value_byte() {
    for b in 0..=127u8 {
        let accepted = (b >= 32 && b != 127) || b == b'\t';
        let expected = if accepted {
            Ok((b"n".to_vec(), vec![b'a', b, b'z']))
        } else {
            Err(UpgradeError::MalformedHeaders)
        };
        assert_eq!(one(b"n", &[b'a', b, b'z']), expected, "byte {b}");
    }
    for b in 128..=255u8 {
        assert_eq!(one(b"n", &[b]), Err(UpgradeError::MalformedHeaders), "byte {b}");
    }
    for text in ["\u{80}", "\u{e9}", "\u{7ff}", "\u{800}", "\u{ffff}", "\u{10000}", "\u{10ffff}"] {
        assert_eq!(one(b"n", text.as_bytes()), Ok((b"n".to_vec(), text.as_bytes().to_vec())));
    }
    for bytes in [&b"\xc0\x80"[..], b"\xed\xa0\x80", b"\xf4\x90\x80\x80", b"\xe9", b"a\x80"] {
        assert_eq!(one(b"n", bytes), Err(UpgradeError::MalformedHeaders), "{bytes:?}");
    }
}

#[test]
fn header_block_is_read() {
    let (consumed, response) = response_of(b"Host: foo.bar\nAccept: */*\n\nblah blah");
    assert_eq!(consumed, 27);
    assert_eq!(response.status(), 101);
    assert_eq!(
        response.headers(),
        &vec![raw(b"host", b"foo.bar"), raw(b"accept", b"*/*")]
    );

    let (consumed, response) = response_of(b"A:  padded \t \r\n\r\n\r\n");
    assert_eq!(consumed, 17);
    assert_eq!(response.headers(), &vec![raw(b"a", b"padded")]);

    let (consumed, response) = response_of(b"\n");
    assert_eq!(consumed, 1);
    assert_eq!(response.headers(), &vec![]);
}

#[test]
fn header_block_failures() {
    assert_eq!(parse_response(b"").err(), Some(UpgradeError::MalformedHeaders));
    assert_eq!(parse_response(b"A: b\r\n").err(), Some(UpgradeError::MalformedHeaders));
    assert_eq!(parse_response(b"A b\r\n\r\n").err(), Some(UpgradeError::MalformedHeaders));
    let block = |count: usize| {
        (0..count).map(|i| format!("h{i}: {i}\r\n")).collect::<String>() + "\r\n"
    };
    assert_eq!(
        parse_response(block(16).as_bytes()).map(|(n, r)| (n, r.headers().len())),
        Ok((126, 16))
    );
    assert_eq!(parse_response(block(17).as_bytes()).err(), Some(UpgradeError::TooManyHeaders));
}

#[test]
fn completion_hands_out_what_follows_the_block() {
    let mut upgrade = WebSocketUpgrade::default();
    assert!(matches!(upgrade.write(b"HTTP/1.1 101 S\nA: b\r\n"), Ok(None)));
    assert_eq!(upgrade.buffered_len(), 6);
    let (_, response) = response_of(b"A: b\n\n");
    match upgrade.complete(Ok((4, response.clone()))) {
        Ok(Some((given, rest))) => {
            assert_eq!(given, response);
            assert_eq!(&rest[..], b"\r\n");
        }
        other => panic!("{other:?}"),
    }
    assert_eq!(upgrade.state(), WebSocketUpgradeState::Complete);
    assert_eq!(upgrade.buffered_len(), 0);
}

#[test]
fn completion_with_a_failure_gives_the_response_up() {
    for e in [UpgradeError::MalformedHeaders, UpgradeError::TooManyHeaders] {
        let mut upgrade = WebSocketUpgrade::default();
        assert!(matches!(upgrade.write(b"HTTP/1.1 101 S\nA: b\r\n"), Ok(None)));
        assert_eq!(upgrade.complete(Err(e)).err(), Some(e));
        assert_eq!(upgrade.state(), WebSocketUpgradeState::Complete);
        assert_eq!(upgrade.buffered_len(), 0);
        assert_eq!(upgrade.failure(), Some(e));
        assert_eq!(upgrade.write(b"\r\n").err(), Some(e));

        let mut upgrade = WebSocketUpgrade::default();
        assert_eq!(upgrade.complete_unbuffered(b"abc", Err(e)).err(), Some(e));
        assert_eq!(upgrade.state(), WebSocketUpgradeState::Complete);
        assert_eq!(upgrade.failure(), Some(e));
        assert_eq!(upgrade.write(b"abc").err(), Some(e));
    }
}

#[test]
fn giving_up_is_final() {
    for e in [
        UpgradeError::InvalidStatusLine,
        UpgradeError::MalformedHeaders,
        UpgradeError::TooManyHeaders,
        UpgradeError::UseAfterComplete,
    ] {
        let mut upgrade = WebSocketUpgrade::default();
        assert!(matches!(upgrade.write(b"HTTP/1.1 1"), Ok(None)));
        assert_eq!(upgrade.fail(e).err(), Some(e));
        assert_eq!(upgrade.state(), WebSocketUpgradeState::Complete);
        assert_eq!(upgrade.buffered_len(), 0);
        assert_eq!(upgrade.failure(), Some(e));
        assert_eq!(upgrade.write(b"01 OK\r\nA: b\r\n\r\n").err(), Some(e));
        assert_eq!(upgrade.failure(), Some(e));
    }
}

#[test]
fn unbuffered_completion_copies_what_follows_the_block() {
    let (_, response) = response_of(b"A: b\n\n");
    for (consumed, expected) in [(0, &b"abcdef"[..]), (2, b"cdef"), (6, b"")] {
        let mut upgrade = WebSocketUpgrade::default();
        match upgrade.complete_unbuffered(b"abcdef", Ok((consumed, response.clone()))) {
            Ok(Some((given, rest))) => {
                assert_eq!(given, response);
                assert_eq!(&rest[..], expected);
            }
            other => panic!("{other:?}"),
        }
        assert_eq!(upgrade.state(), WebSocketUpgradeState::Complete);
        assert_eq!(upgrade.buffered_len(), 0);
    }
}

#[test]
fn failure_texts() {
    assert_eq!(UpgradeError::InvalidStatusLine.message(), "invalid HTTP status line");
    assert_eq!(UpgradeError::MalformedHeaders.message(), "invalid headers");
    assert_eq!(UpgradeError::TooManyHeaders.message(), "too many headers");
    assert_eq!(
        UpgradeError::UseAfterComplete.message(),
        "attempted to write to completed upgrade buffer"
    );
}

#[test]
fn copies_are_equal() {
    let (_, response) = response_of(b"A: b\nC: d\n\n");
    let copy = response.clone();
    assert_eq!(copy, response);
    assert_eq!(copy.status(), 101);
    assert_eq!(copy.headers(), &vec![raw(b"a", b"b"), raw(b"c", b"d")]);
    assert_eq!(copy.headers()[1].clone(), raw(b"c", b"d"));
}

#[test]
fn parser_starts_at_the_beginning() {
    assert_eq!(WebSocketUpgradeState::default(), WebSocketUpgradeState::Initial);
    let upgrade = WebSocketUpgrade::default();
    assert_eq!(upgrade.state(), WebSocketUpgradeState::Initial);
    assert_eq!(upgrade.failure(), None);
    assert_eq!(upgrade.buffered_len(), 0);
    assert!(upgrade.validate_status(b"HTTP/1.1 101 Switching Protocols\r\n").is_ok());
    assert!(upgrade.validate_status(b"HTTP/1.1 101 ").is_ok());
    assert_eq!(
        upgrade.validate_status(b"HTTP/1.1 101").err(),
        Some(UpgradeError::InvalidStatusLine)
    );
    assert_eq!(upgrade.validate_status(b"").err(), Some(UpgradeError::InvalidStatusLine));
}
