//! The round-robin decode scheduler across concurrent sessions.

use llm_server::events::EventToServer;
use llm_server::scheduler::Scheduler;
use llm_server::session::{ClientRequestSession, StepPlan};

fn collect_tokens(events: &[EventToServer]) -> Vec<(Vec<u8>, usize)> {
    events
        .iter()
        .filter_map(|e| match e {
            EventToServer::Token { token, index } => Some((token.clone(), *index)),
            _ => None,
        })
        .collect()
}

#[test]
fn two_clients_interleave_and_both_complete() {
    let mut sched = Scheduler::new();
    let a = sched.add_request(ClientRequestSession::new(vec![1], None, 2));
    let b = sched.add_request(ClientRequestSession::new(vec![2], None, 2));
    assert_eq!(sched.head(), Some(a));

    let mut streams: Vec<Vec<(Vec<u8>, usize)>> = vec![Vec::new(), Vec::new()];
    let mut dones: Vec<Option<usize>> = vec![None, None];
    let mut fed: u32 = 0;
    while let Some(id) = sched.head() {
        match sched.plan_head() {
            StepPlan::Forward { .. } => {
                fed += 1;
                let piece = format!("p{}", fed).into_bytes();
                let out = sched.step_head(fed, &piece);
                streams[id].extend(collect_tokens(&out.events));
                for ev in &out.events {
                    if let EventToServer::Done { total_tokens } = ev {
                        dones[id] = Some(*total_tokens);
                    }
                }
            },
            StepPlan::OutOfBudget => {
                let events = sched.finalise_head();
                streams[id].extend(collect_tokens(&events));
                for ev in &events {
                    if let EventToServer::Done { total_tokens } = ev {
                        dones[id] = Some(*total_tokens);
                    }
                }
            },
            StepPlan::AlreadyDone => {
                sched.retire_head();
            },
        }
    }
    // Both sessions completed with one Done each, and each stream's
    // indices count up from zero with no cross-talk.
    for id in [a, b] {
        assert_eq!(dones[id], Some(streams[id].len()));
        for (i, (_, index)) in streams[id].iter().enumerate() {
            assert_eq!(*index, i);
        }
    }
    // Round-robin interleaving: the first two pieces went to different
    // sessions.
    assert_eq!(streams[a][0].0, b"p1".to_vec());
    assert_eq!(streams[b][0].0, b"p2".to_vec());
}

#[test]
fn cancelled_session_is_dropped_without_done() {
    let mut sched = Scheduler::new();
    let id = sched.add_request(ClientRequestSession::new(vec![1], None, 8));
    // Three pieces reach the client, then it disconnects.
    for k in 0..3u32 {
        match sched.plan_head() {
            StepPlan::Forward { .. } => {
                let out = sched.step_head(k, &b"x".to_vec());
                assert!(!out.finished);
            },
            other => panic!("expected a forward plan, got {:?}", other),
        }
    }
    sched.cancel(id);
    // The next visit drops the session; no Done event is ever produced.
    match sched.plan_head() {
        StepPlan::AlreadyDone => sched.retire_head(),
        other => panic!("a cancelled session must be done, got {:?}", other),
    }
    assert_eq!(sched.head(), None);
}

#[test]
fn failing_forward_pass_retires_the_session() {
    let mut sched = Scheduler::new();
    let id = sched.add_request(ClientRequestSession::new(vec![1], None, 8));
    match sched.plan_head() {
        StepPlan::Forward { .. } => {},
        other => panic!("expected a forward plan, got {:?}", other),
    }
    // The forward pass failed outside; the session gets its Error event.
    let ev = {
        let out = sched.step_head(1, &b"a".to_vec());
        assert!(!out.finished);
        // Requeued at the tail; the failure happens on the next visit.
        assert_eq!(sched.head(), Some(id));
        sched.fail_head(&b"cache overflow".to_vec())
    };
    match ev {
        EventToServer::Error { message } => assert_eq!(message, b"cache overflow".to_vec()),
        other => panic!("expected an error event, got {:?}", other),
    }
    assert_eq!(sched.head(), None);
}

#[test]
fn decode_steps_stay_balanced() {
    let mut sched = Scheduler::new();
    let a = sched.add_request(ClientRequestSession::new(vec![1], None, 6));
    let b = sched.add_request(ClientRequestSession::new(vec![2], None, 6));
    let mut steps = vec![0usize; 2];
    for k in 0..9u32 {
        let id = sched.head().unwrap();
        match sched.plan_head() {
            StepPlan::Forward { .. } => {
                sched.step_head(k, &b"y".to_vec());
                steps[id] += 1;
                let diff = steps[a] as i64 - steps[b] as i64;
                assert!(-1 <= diff && diff <= 1);
            },
            other => panic!("expected a forward plan, got {:?}", other),
        }
    }
}
