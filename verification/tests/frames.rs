//! Server-sent-event frames and decimal formatting.

use llm_server::events::EventToServer;
use llm_server::sse::{
    bridge_event,
    done_frame,
    error_frame,
    format_i32,
    format_usize,
    keep_alive_frame,
    token_frame,
};

#[test]
fn decimal_formatting_is_exact() {
    assert_eq!(format_usize(0), b"0".to_vec());
    assert_eq!(format_usize(7), b"7".to_vec());
    assert_eq!(format_usize(256), b"256".to_vec());
    assert_eq!(format_usize(1048576), b"1048576".to_vec());
    assert_eq!(format_i32(-12), b"-12".to_vec());
    assert_eq!(format_i32(0), b"0".to_vec());
    assert_eq!(format_i32(i32::MIN), b"-2147483648".to_vec());
    assert_eq!(format_i32(i32::MAX), b"2147483647".to_vec());
}

#[test]
fn token_frame_is_exact() {
    let frame = token_frame(&b"Hi".to_vec(), 3);
    assert_eq!(frame, b"data: {\"token\":\"Hi\",\"index\":3}\n\n".to_vec());
}

#[test]
fn token_frame_escapes_json() {
    let frame = token_frame(&b"a\"b\\c\nd".to_vec(), 0);
    assert_eq!(
        frame,
        b"data: {\"token\":\"a\\\"b\\\\c\\nd\",\"index\":0}\n\n".to_vec()
    );
    let frame = token_frame(&vec![0x01, 0x1f], 1);
    assert_eq!(
        frame,
        b"data: {\"token\":\"\\u0001\\u001f\",\"index\":1}\n\n".to_vec()
    );
    let frame = token_frame(&vec![0x08, 0x09, 0x0c, 0x0d], 2);
    assert_eq!(
        frame,
        b"data: {\"token\":\"\\b\\t\\f\\r\",\"index\":2}\n\n".to_vec()
    );
}

#[test]
fn token_frame_passes_multibyte_text_through() {
    // "é!" as UTF-8 bytes: nothing to escape.
    let frame = token_frame(&vec![0xc3, 0xa9, 0x21], 0);
    let mut expected = b"data: {\"token\":\"".to_vec();
    expected.extend_from_slice(&[0xc3, 0xa9, 0x21]);
    expected.extend_from_slice(b"\",\"index\":0}\n\n");
    assert_eq!(frame, expected);
}

#[test]
fn done_frame_is_exact() {
    assert_eq!(
        done_frame(12),
        b"data: {\"done\":true,\"total_tokens\":12}\n\n".to_vec()
    );
}

#[test]
fn error_frame_is_exact() {
    assert_eq!(
        error_frame(&b"prompt must not be empty".to_vec()),
        b"data: {\"error\":\"prompt must not be empty\"}\n\n".to_vec()
    );
}

#[test]
fn keep_alive_frame_is_exact() {
    assert_eq!(keep_alive_frame(), b": keep-alive\n\n".to_vec());
}

#[test]
fn bridge_accumulates_reply_and_frames_events() {
    let mut buffer: Vec<u8> = Vec::new();
    let f1 = bridge_event(
        &EventToServer::Token { token: b"Hel".to_vec(), index: 0 },
        &mut buffer,
    );
    let f2 = bridge_event(
        &EventToServer::Token { token: b"lo".to_vec(), index: 1 },
        &mut buffer,
    );
    let f3 = bridge_event(&EventToServer::Done { total_tokens: 2 }, &mut buffer);
    assert_eq!(buffer, b"Hello".to_vec());
    assert_eq!(f1, b"data: {\"token\":\"Hel\",\"index\":0}\n\n".to_vec());
    assert_eq!(f2, b"data: {\"token\":\"lo\",\"index\":1}\n\n".to_vec());
    assert_eq!(f3, b"data: {\"done\":true,\"total_tokens\":2}\n\n".to_vec());
}
