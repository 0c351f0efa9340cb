//! Events emitted by the engine while serving one generate request.
//!
//! A session pushes a stream of `Token` events followed by exactly one
//! terminal event, `Done` or `Error`, unless the client disconnects first.
//! The streaming bridge turns each event into one server-sent-event frame.

use vstd::prelude::*;

verus! {

/// Spec-level shape of an event: token pieces are byte sequences and counts
/// are unbounded integers.
pub enum EventSpec {
    Token { token: Seq<u8>, index: int },
    Done { total_tokens: int },
    Error { message: Seq<u8> },
}

/// An event emitted to the server during generation for one session.
#[derive(Debug)]
pub enum EventToServer {
    Token { token: Vec<u8>, index: usize },
    Done { total_tokens: usize },
    Error { message: Vec<u8> },
}

impl View for EventToServer {
    type V = EventSpec;

    open spec fn view(&self) -> EventSpec {
        match self {
            EventToServer::Token { token, index } => EventSpec::Token {
                token: token@,
                index: *index as int,
            },
            EventToServer::Done { total_tokens } => EventSpec::Done {
                total_tokens: *total_tokens as int,
            },
            EventToServer::Error { message } => EventSpec::Error { message: message@ },
        }
    }
}

/// The views of a sequence of events.
pub open spec fn events_view(v: Seq<EventToServer>) -> Seq<EventSpec> {
    v.map_values(|e: EventToServer| e@)
}

/// True of a token event.
pub open spec fn is_token(e: EventSpec) -> bool {
    e is Token
}

/// True of the two terminal events.
pub open spec fn is_terminal(e: EventSpec) -> bool {
    e is Done || e is Error
}

/// The bytes a token event carries; empty for the other events.
pub open spec fn event_bytes(e: EventSpec) -> Seq<u8> {
    match e {
        EventSpec::Token { token, .. } => token,
        _ => Seq::<u8>::empty(),
    }
}

/// The index a token event carries.
pub open spec fn token_index(e: EventSpec) -> int
    recommends
        is_token(e),
{
    match e {
        EventSpec::Token { index, .. } => index,
        _ => 0,
    }
}

/// The count a terminal done event carries.
pub open spec fn done_total(e: EventSpec) -> int
    recommends
        e is Done,
{
    match e {
        EventSpec::Done { total_tokens } => total_tokens,
        _ => 0,
    }
}

/// Number of token events in a log.
pub open spec fn token_count(log: Seq<EventSpec>) -> int
    decreases log.len(),
{
    if log.len() == 0 {
        0
    } else {
        token_count(log.drop_last()) + if is_token(log.last()) {
            1int
        } else {
            0int
        }
    }
}

/// Number of terminal events in a log.
pub open spec fn terminal_count(log: Seq<EventSpec>) -> int
    decreases log.len(),
{
    if log.len() == 0 {
        0
    } else {
        terminal_count(log.drop_last()) + if is_terminal(log.last()) {
            1int
        } else {
            0int
        }
    }
}

/// All bytes carried by token events in a log, in order.
pub open spec fn token_bytes(log: Seq<EventSpec>) -> Seq<u8>
    decreases log.len(),
{
    if log.len() == 0 {
        Seq::<u8>::empty()
    } else {
        token_bytes(log.drop_last()) + event_bytes(log.last())
    }
}

/// Token events carry consecutive indices: the i-th token event of the log
/// has index i, counting from zero.
pub open spec fn indices_dense(log: Seq<EventSpec>) -> bool {
    forall|i: int|
        0 <= i < log.len() && is_token(#[trigger] log[i]) ==> token_index(log[i]) == token_count(
            log.subrange(0, i),
        )
}

/// Appending one event extends the counts and the carried bytes in the
/// obvious way and keeps earlier prefixes unchanged.
pub proof fn lemma_log_push(log: Seq<EventSpec>, e: EventSpec)
    ensures
        token_count(log.push(e)) == token_count(log) + if is_token(e) {
            1int
        } else {
            0int
        },
        terminal_count(log.push(e)) == terminal_count(log) + if is_terminal(e) {
            1int
        } else {
            0int
        },
        token_bytes(log.push(e)) == token_bytes(log) + event_bytes(e),
        forall|i: int| 0 <= i <= log.len() ==> log.push(e).subrange(0, i) =~= log.subrange(0, i),
        indices_dense(log) && (is_token(e) ==> token_index(e) == token_count(log))
            ==> indices_dense(log.push(e)),
{
    assert(log.push(e).drop_last() =~= log);
    assert(log.push(e).last() == e);
    if indices_dense(log) && (is_token(e) ==> token_index(e) == token_count(log)) {
        let l2 = log.push(e);
        assert forall|i: int| 0 <= i < l2.len() && is_token(#[trigger] l2[i]) implies token_index(
            l2[i],
        ) == token_count(l2.subrange(0, i)) by {
            if i < log.len() {
                assert(l2[i] == log[i]);
                assert(l2.subrange(0, i) =~= log.subrange(0, i));
            } else {
                assert(l2[i] == e);
                assert(l2.subrange(0, i) =~= log);
            }
        }
    }
}

/// Token counts never exceed the log length.
pub proof fn lemma_token_count_bounds(log: Seq<EventSpec>)
    ensures
        0 <= token_count(log) <= log.len(),
        0 <= terminal_count(log) <= log.len(),
    decreases log.len(),
{
    if log.len() > 0 {
        lemma_token_count_bounds(log.drop_last());
    }
}

/// A log without terminal events has none anywhere in it.
pub proof fn lemma_terminal_count_zero(log: Seq<EventSpec>)
    requires
        terminal_count(log) == 0,
    ensures
        forall|i: int| 0 <= i < log.len() ==> !is_terminal(#[trigger] log[i]),
    decreases log.len(),
{
    if log.len() > 0 {
        lemma_token_count_bounds(log.drop_last());
        lemma_terminal_count_zero(log.drop_last());
        assert forall|i: int| 0 <= i < log.len() implies !is_terminal(#[trigger] log[i]) by {
            if i < log.len() - 1 {
                assert(log[i] == log.drop_last()[i]);
            }
        }
    }
}

/// A log whose last event is terminal holds at least one terminal event.
pub proof fn lemma_terminal_last(log: Seq<EventSpec>)
    requires
        log.len() > 0,
        is_terminal(log.last()),
    ensures
        terminal_count(log) >= 1,
{
    lemma_token_count_bounds(log.drop_last());
}

} // verus!
