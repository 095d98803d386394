use websocket_upgrade::error::UpgradeError;
use websocket_upgrade::upgrade::{WebSocketUpgrade, WriteResult};

type Expected = Result<Option<(Vec<(&'static str, &'static str)>, &'static [u8])>, &'static str>;

fn header_pairs(result: &WriteResult) -> Option<(u16, Vec<(Vec<u8>, Vec<u8>)>)> {
    match result {
        Ok(Some((response, _))) => Some((
            response.status(),
            response.headers().iter().map(|h| (h.name.clone(), h.value.clone())).collect(),
        )),
        _ => None,
    }
}

fn assert_response(result: WriteResult, expected: Expected, chunk_info: Option<(usize, usize)>) {
    let formatted = format!("{result:?}");
    match expected {
        Ok(Some((headers1, remainder1))) => match &result {
            Ok(Some((_, remainder2))) => {
                let (status, headers2) = header_pairs(&result).unwrap();
                assert_eq!(status, 101);
                let headers1: Vec<(Vec<u8>, Vec<u8>)> = headers1
                    .iter()
                    .map(|(n, v)| (n.as_bytes().to_vec(), v.as_bytes().to_vec()))
                    .collect();
                assert_eq!(headers1, headers2);
                if let Some((byte_len, chunk_size)) = chunk_info {
                    // The header block ends somewhere in the last chunk that was
                    // written, so only a part of the trailing data has arrived.
                    let last_packet_header_size =
                        (byte_len - remainder1.len() + chunk_size - 1) % chunk_size + 1;
                    let remaining = (chunk_size - last_packet_header_size).min(remainder1.len());
                    assert_eq!(remainder1[..remaining], remainder2[..]);
                } else {
                    assert_eq!(remainder1, &remainder2[..]);
                }
            }
            _ => panic!("Expected Ok(Some(...)), was {formatted}"),
        },
        Ok(None) => assert!(result.ok().unwrap().is_none(), "Expected Ok(None), was {formatted}"),
        Err(e) => assert_eq!(
            e,
            result.err().map(|e| e.message()).unwrap_or_default(),
            "Expected error, was {formatted}",
        ),
    }
}

fn validate_upgrade_all_at_once(s: &str, expected: Expected) {
    let mut upgrade = WebSocketUpgrade::default();
    let res = upgrade.write(s.as_bytes());

    assert_response(res, expected, None);
}

fn validate_upgrade_chunks(s: &str, size: usize, expected: Expected) {
    let chunk_info = Some((s.as_bytes().len(), size));
    let mut upgrade = WebSocketUpgrade::default();
    let mut result = Ok(None);
    for chunk in s.as_bytes().chunks(size) {
        result = upgrade.write(chunk);
        if let Ok(Some(..)) = &result {
            assert_response(result, expected, chunk_info);
            return;
        }
    }
    assert_response(result, expected, chunk_info);
}

fn validate_upgrade(s: &str, expected: fn() -> Expected) {
    validate_upgrade_all_at_once(s, expected());
    validate_upgrade_chunks(s, 1, expected());
    validate_upgrade_chunks(s, 2, expected());
    validate_upgrade_chunks(s, 10, expected());

    // Replace \n with \r\n, but only in headers
    let (headers, trailing) = s.split_once("\n\n").unwrap();
    let s = headers.replace('\n', "\r\n") + "\r\n\r\n" + trailing;
    let s = s.as_ref();

    validate_upgrade_all_at_once(s, expected());
    validate_upgrade_chunks(s, 1, expected());
    validate_upgrade_chunks(s, 2, expected());
    validate_upgrade_chunks(s, 10, expected());
}

#[test]
fn upgrade1() {
    validate_upgrade(
        "HTTP/1.1 101 Switching Protocols\nConnection: Upgrade\n\n",
        || Ok(Some((vec![("connection", "Upgrade")], b""))),
    );
}

#[test]
fn upgrade_trailing() {
    validate_upgrade(
        "HTTP/1.1 101 Switching Protocols\nConnection: Upgrade\n\ntrailing data",
        || Ok(Some((vec![("connection", "Upgrade")], b"trailing data"))),
    );
}

#[test]
fn upgrade_trailing_with_newlines() {
    validate_upgrade(
        "HTTP/1.1 101 Switching Protocols\nConnection: Upgrade\n\ntrailing data\r\n\r\n",
        || Ok(Some((vec![("connection", "Upgrade")], b"trailing data\r\n\r\n"))),
    );
}

#[test]
fn upgrade2() {
    validate_upgrade(
        "HTTP/1.1 101 Switching Protocols\nConnection: Upgrade\nOther: 123\n\n",
        || Ok(Some((vec![("connection", "Upgrade"), ("other", "123")], b""))),
    );
}

#[test]
fn upgrade_invalid_status() {
    validate_upgrade("HTTP/1.1 200 OK\nConnection: Upgrade\n\n", || {
        Err("invalid HTTP status line")
    });
}

#[test]
fn upgrade_too_many_headers() {
    let headers = (0..20).map(|i| format!("h{i}: {i}")).collect::<Vec<_>>().join("\n");
    validate_upgrade(
        &format!("HTTP/1.1 101 Switching Protocols\n{headers}\n\n"),
        || Err("too many headers"),
    );
}

#[test]
fn error_kinds_are_told_apart() {
    assert_ne!(UpgradeError::InvalidStatusLine, UpgradeError::TooManyHeaders);
}
