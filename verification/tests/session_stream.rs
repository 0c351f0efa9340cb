//! The generation session: streaming, UTF-8 assembly, terminal events.

use llm_server::events::EventToServer;
use llm_server::session::{ClientRequestSession, StepPlan};
use llm_server::utf8buf::StreamDecoder;

fn token_ev(ev: &EventToServer) -> (Vec<u8>, usize) {
    match ev {
        EventToServer::Token { token, index } => (token.clone(), *index),
        other => panic!("expected a token event, got {:?}", other),
    }
}

fn done_total(ev: &EventToServer) -> usize {
    match ev {
        EventToServer::Done { total_tokens } => *total_tokens,
        other => panic!("expected the done event, got {:?}", other),
    }
}

#[test]
fn decoder_releases_complete_prefix_only() {
    let mut d = StreamDecoder::new();
    // The first byte of a two-byte character stays buffered.
    let piece = d.push(&vec![0x48, 0xc3]);
    assert_eq!(piece, b"H".to_vec());
    // Its continuation completes the character.
    let piece = d.push(&vec![0xa9]);
    assert_eq!(piece, vec![0xc3, 0xa9]);
    let rest = d.flush();
    assert_eq!(rest, Vec::<u8>::new());
}

#[test]
fn decoder_flush_hands_out_invalid_residue_verbatim() {
    let mut d = StreamDecoder::new();
    let piece = d.push(&vec![0x41, 0xff, 0x42]);
    // 0xff can never start a character, so everything after "A" waits.
    assert_eq!(piece, b"A".to_vec());
    let rest = d.flush();
    assert_eq!(rest, vec![0xff, 0x42]);
}

#[test]
fn decoder_handles_four_byte_characters() {
    let mut d = StreamDecoder::new();
    let piece = d.push(&vec![0xf0, 0x9f]);
    assert_eq!(piece, Vec::<u8>::new());
    let piece = d.push(&vec![0x92, 0x96, 0x21]);
    assert_eq!(piece, vec![0xf0, 0x9f, 0x92, 0x96, 0x21]);
}

#[test]
fn session_streams_pieces_with_consecutive_indices() {
    let mut s = ClientRequestSession::new(vec![1, 2, 3], Some(9), 8);
    match s.plan_step(true) {
        StepPlan::Forward { ctx, offset } => {
            assert_eq!(ctx, vec![1, 2, 3]);
            assert_eq!(offset, 0);
        },
        other => panic!("expected a forward plan, got {:?}", other),
    }
    let out = s.apply_token(10, &b"He".to_vec(), true);
    assert!(!out.finished);
    assert_eq!(out.events.len(), 1);
    assert_eq!(token_ev(&out.events[0]), (b"He".to_vec(), 0));

    match s.plan_step(false) {
        StepPlan::Forward { ctx, offset } => {
            assert_eq!(ctx, vec![10]);
            assert_eq!(offset, 3);
        },
        other => panic!("expected a forward plan, got {:?}", other),
    }
    let out = s.apply_token(11, &b"llo".to_vec(), false);
    assert!(!out.finished);
    assert_eq!(token_ev(&out.events[0]), (b"llo".to_vec(), 1));

    // The stop token ends the stream; Done reports both pieces.
    let out = s.apply_token(9, &Vec::new(), false);
    assert!(out.finished);
    assert_eq!(out.events.len(), 1);
    assert_eq!(done_total(&out.events[0]), 2);
}

#[test]
fn session_flushes_residue_before_done() {
    let mut s = ClientRequestSession::new(vec![1], None, 2);
    // One token whose bytes end mid-character: nothing is released yet.
    let out = s.apply_token(5, &vec![0x41, 0xc3], true);
    assert!(!out.finished);
    assert_eq!(token_ev(&out.events[0]), (b"A".to_vec(), 0));
    // The budget ends the stream: the residue comes out before Done.
    let out = s.apply_token(6, &Vec::new(), false);
    assert!(out.finished);
    assert_eq!(out.events.len(), 2);
    assert_eq!(token_ev(&out.events[0]), (vec![0xc3], 1));
    assert_eq!(done_total(&out.events[1]), 2);
}

#[test]
fn no_bytes_are_lost_between_decoder_and_stream() {
    // Pieces cut at awkward places: what the token events carry, joined,
    // is exactly what the decoder produced.
    let feeds: Vec<Vec<u8>> = vec![
        b"Hel".to_vec(),
        vec![0x6c, 0x6f, 0x20, 0xe2],
        vec![0x82],
        vec![0xac, 0x21],
    ];
    let mut s = ClientRequestSession::new(vec![1], None, feeds.len());
    let mut fed: Vec<u8> = Vec::new();
    let mut streamed: Vec<u8> = Vec::new();
    let mut prefill = true;
    for (i, bytes) in feeds.iter().enumerate() {
        fed.extend_from_slice(bytes);
        let out = s.apply_token(100 + i as u32, bytes, prefill);
        prefill = false;
        for ev in &out.events {
            if let EventToServer::Token { token, .. } = ev {
                streamed.extend_from_slice(token);
            }
        }
        if i + 1 == feeds.len() {
            assert!(out.finished);
        }
    }
    assert_eq!(streamed, fed);
}

#[test]
fn finalise_is_idempotent() {
    let mut s = ClientRequestSession::new(vec![1], None, 4);
    let out = s.apply_token(5, &b"hi".to_vec(), true);
    assert!(!out.finished);
    let events = s.finalise();
    assert_eq!(events.len(), 1);
    assert_eq!(done_total(&events[0]), 1);
    // The second call is a no-op: the terminal event is never repeated.
    let events = s.finalise();
    assert!(events.is_empty());
}

#[test]
fn cancelled_session_emits_nothing_further() {
    let mut s = ClientRequestSession::new(vec![1, 2], None, 8);
    let out = s.apply_token(5, &b"a".to_vec(), true);
    assert!(!out.finished);
    s.cancel();
    match s.plan_step(false) {
        StepPlan::AlreadyDone => {},
        other => panic!("a cancelled session must be done, got {:?}", other),
    }
    // No Done event either: the client is gone.
    let events = s.finalise();
    assert!(events.is_empty());
}

#[test]
fn failed_session_emits_one_error() {
    let mut s = ClientRequestSession::new(vec![1], None, 8);
    let ev = s.fail(&b"forward pass failed".to_vec());
    match ev {
        EventToServer::Error { message } => {
            assert_eq!(message, b"forward pass failed".to_vec());
        },
        other => panic!("expected the error event, got {:?}", other),
    }
    match s.plan_step(false) {
        StepPlan::AlreadyDone => {},
        other => panic!("a failed session must be done, got {:?}", other),
    }
}

#[test]
fn empty_budget_finalises_without_forward_pass() {
    let s = ClientRequestSession::new(vec![1, 2], None, 0);
    match s.plan_step(true) {
        StepPlan::OutOfBudget => {},
        other => panic!("expected an exhausted budget, got {:?}", other),
    }
}
