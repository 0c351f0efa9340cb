//! The per-request generation session.
//!
//! A session owns the token buffer, the budget, the streamed-piece counter
//! and the incremental UTF-8 decoder of one generate request. The forward
//! pass and the sampler live outside the library: each decode step hands
//! the session the sampled token id and the bytes the tokenizer decoded for
//! it, and the session answers with the events to stream and whether the
//! request is finished. The events a session has handed out are recorded in
//! a ghost log, over which the session's guarantees are stated: token
//! indices are consecutive from zero, exactly one terminal event ends a
//! completed stream, and no decoded byte is ever lost.

use vstd::prelude::*;

use crate::events::{
    done_total,
    events_view,
    indices_dense,
    is_terminal,
    lemma_log_push,
    lemma_terminal_count_zero,
    lemma_terminal_last,
    terminal_count,
    token_bytes,
    token_count,
    EventSpec,
    EventToServer,
};
use crate::utf8buf::{lemma_split_unique, split_ok, StreamDecoder};

verus! {

/// Ghost model of a session: what the contracts and laws speak of.
pub ghost struct SessionModel {
    /// The encoded prompt the session started from.
    pub prompt: Seq<u32>,
    /// Prompt plus everything generated so far.
    pub tokens: Seq<u32>,
    /// Offset into the key/value cache: positions below it are filled.
    pub ctx_index: int,
    /// End-of-sequence token id, where the vocabulary has one.
    pub eos_token: Option<u32>,
    /// Most tokens this session may generate.
    pub max_tokens: int,
    /// Tokens generated so far.
    pub generated: int,
    /// Token events handed out so far; also the index of the next piece.
    pub streamed: int,
    /// Bytes decoded but not yet released as a complete UTF-8 piece.
    pub pending: Seq<u8>,
    /// Every byte the token decoder has produced for this session.
    pub fed: Seq<u8>,
    /// Set once the session is finished; never cleared.
    pub done: bool,
    /// Set when the client disconnected before the stream completed.
    pub cancelled: bool,
    /// The events handed out, in order.
    pub log: Seq<EventSpec>,
}

impl SessionModel {
    /// The session invariant.
    pub open spec fn wf(self) -> bool {
        &&& self.tokens.len() == self.prompt.len() + self.generated
        &&& self.tokens.subrange(0, self.prompt.len() as int) == self.prompt
        &&& 0 <= self.ctx_index <= self.tokens.len()
        &&& 0 <= self.generated <= self.max_tokens
        &&& self.prompt.len() + self.max_tokens <= usize::MAX
        &&& self.max_tokens < usize::MAX
        &&& self.streamed == token_count(self.log)
        &&& indices_dense(self.log)
        &&& terminal_count(self.log) <= 1
        &&& (forall|i: int| 0 <= i < self.log.len() - 1 ==> !is_terminal(#[trigger] self.log[i]))
        &&& (!self.done ==> terminal_count(self.log) == 0)
        &&& (self.done && !self.cancelled ==> self.log.len() > 0 && is_terminal(self.log.last()))
        &&& (self.cancelled ==> self.done)
        &&& token_bytes(self.log) + self.pending == self.fed
        &&& (!self.done ==> self.streamed <= self.generated)
        &&& self.streamed <= self.generated + 1
        &&& (self.log.len() > 0 && self.log.last() is Done ==> done_total(self.log.last())
            == self.streamed && self.pending.len() == 0)
    }
}

/// Length of the input slice one forward pass reads: the whole buffer for
/// prefill, the last token alone for decode.
pub open spec fn ctx_len_spec(m: SessionModel, is_prefill: bool) -> int {
    if is_prefill {
        m.tokens.len() as int
    } else if m.tokens.len() > 0 {
        1int
    } else {
        0int
    }
}

/// The terminal events a finishing session emits: the flushed residue of
/// the UTF-8 decoder where there is one, then the Done event.
pub open spec fn finish_events(rest: Seq<u8>, streamed: int) -> Seq<EventSpec> {
    let flush: Seq<EventSpec> = if rest.len() > 0 {
        seq![EventSpec::Token { token: rest, index: streamed }]
    } else {
        Seq::<EventSpec>::empty()
    };
    flush + seq![
        EventSpec::Done {
            total_tokens: streamed + if rest.len() > 0 {
                1int
            } else {
                0int
            },
        },
    ]
}

/// One decode step at split point `k`: how the next state and the emitted
/// events follow from the sampled token and its decoded bytes.
pub open spec fn step_rel_at(
    pre: SessionModel,
    next: u32,
    bytes: Seq<u8>,
    is_prefill: bool,
    post: SessionModel,
    events: Seq<EventSpec>,
    finished: bool,
    k: int,
) -> bool {
    let combined = pre.pending + bytes;
    let piece = combined.subrange(0, k);
    let rest = combined.subrange(k, combined.len() as int);
    let piece_events: Seq<EventSpec> = if k > 0 {
        seq![EventSpec::Token { token: piece, index: pre.streamed }]
    } else {
        Seq::<EventSpec>::empty()
    };
    let s1 = pre.streamed + if k > 0 {
        1int
    } else {
        0int
    };
    &&& split_ok(combined, k)
    &&& finished == (pre.eos_token == Some(next) || pre.generated + 1 >= pre.max_tokens)
    &&& post.prompt == pre.prompt
    &&& post.tokens == pre.tokens.push(next)
    &&& post.ctx_index == pre.ctx_index + ctx_len_spec(pre, is_prefill)
    &&& post.eos_token == pre.eos_token
    &&& post.max_tokens == pre.max_tokens
    &&& post.generated == pre.generated + 1
    &&& post.fed == pre.fed + bytes
    &&& post.cancelled == pre.cancelled
    &&& (if finished {
        &&& events == piece_events + finish_events(rest, s1)
        &&& post.streamed == s1 + if rest.len() > 0 {
            1int
        } else {
            0int
        }
        &&& post.pending == Seq::<u8>::empty()
        &&& post.done == true
    } else {
        &&& events == piece_events
        &&& post.streamed == s1
        &&& post.pending == rest
        &&& post.done == false
    })
    &&& post.log == pre.log + events
}

/// One decode step: the split point is the longest valid UTF-8 prefix of
/// the buffered bytes, so the relation determines the outcome.
pub open spec fn step_rel(
    pre: SessionModel,
    next: u32,
    bytes: Seq<u8>,
    is_prefill: bool,
    post: SessionModel,
    events: Seq<EventSpec>,
    finished: bool,
) -> bool {
    exists|k: int| step_rel_at(pre, next, bytes, is_prefill, post, events, finished, k)
}

/// How finalisation changes a session: on an already finished session it
/// does nothing; otherwise it flushes the decoder residue and emits Done.
pub open spec fn finalise_rel(pre: SessionModel, post: SessionModel, events: Seq<EventSpec>) -> bool {
    if pre.done {
        post == pre && events == Seq::<EventSpec>::empty()
    } else {
        &&& events == finish_events(pre.pending, pre.streamed)
        &&& post == SessionModel {
            streamed: pre.streamed + if pre.pending.len() > 0 {
                1int
            } else {
                0int
            },
            pending: Seq::<u8>::empty(),
            done: true,
            log: pre.log + events,
            ..pre
        }
    }
}

/// What the scheduler should do with a session next.
#[derive(Debug)]
pub enum StepPlan {
    /// The session is finished; drop it.
    AlreadyDone,
    /// The budget is exhausted; finalise without another forward pass.
    OutOfBudget,
    /// Run one forward pass over `ctx` at cache offset `offset` and hand
    /// the sampled token back.
    Forward { ctx: Vec<u32>, offset: usize },
}

/// What one step produced: the events to stream, and whether the session
/// is finished and must not be queued again.
pub struct StepOutput {
    /// Events to hand to the streaming bridge, in order.
    pub events: Vec<EventToServer>,
    /// True when the session finished on this step.
    pub finished: bool,
}

/// All state of one in-flight generate request.
pub struct ClientRequestSession {
    tokens: Vec<u32>,
    ctx_index: usize,
    eos_token: Option<u32>,
    max_tokens: usize,
    tokens_generated: usize,
    tokens_streamed: usize,
    decoder: StreamDecoder,
    done_streaming: bool,
    cancelled: bool,
    prompt: Ghost<Seq<u32>>,
    fed: Ghost<Seq<u8>>,
    log: Ghost<Seq<EventSpec>>,
}

impl View for ClientRequestSession {
    type V = SessionModel;

    closed spec fn view(&self) -> SessionModel {
        SessionModel {
            prompt: self.prompt@,
            tokens: self.tokens@,
            ctx_index: self.ctx_index as int,
            eos_token: self.eos_token,
            max_tokens: self.max_tokens as int,
            generated: self.tokens_generated as int,
            streamed: self.tokens_streamed as int,
            pending: self.decoder.buffered(),
            fed: self.fed@,
            done: self.done_streaming,
            cancelled: self.cancelled,
            log: self.log@,
        }
    }
}

impl ClientRequestSession {
    /// A fresh session over an encoded prompt.
    pub fn new(tokens: Vec<u32>, eos_token: Option<u32>, max_tokens: usize) -> (r: Self)
        requires
            tokens@.len() + max_tokens <= usize::MAX,
            max_tokens < usize::MAX,
        ensures
            r@.wf(),
            r@.prompt == tokens@,
            r@.tokens == tokens@,
            r@.ctx_index == 0,
            r@.eos_token == eos_token,
            r@.max_tokens == max_tokens as int,
            r@.generated == 0,
            r@.streamed == 0,
            r@.pending == Seq::<u8>::empty(),
            r@.fed == Seq::<u8>::empty(),
            r@.log == Seq::<EventSpec>::empty(),
            !r@.done,
            !r@.cancelled,
    {
        let ghost prompt = tokens@;
        let r = ClientRequestSession {
            tokens,
            ctx_index: 0,
            eos_token,
            max_tokens,
            tokens_generated: 0,
            tokens_streamed: 0,
            decoder: StreamDecoder::new(),
            done_streaming: false,
            cancelled: false,
            prompt: Ghost(prompt),
            fed: Ghost(Seq::<u8>::empty()),
            log: Ghost(Seq::<EventSpec>::empty()),
        };
        proof {
            assert(r@.tokens.subrange(0, r@.prompt.len() as int) =~= r@.prompt);
            assert(token_bytes(r@.log) + r@.pending =~= r@.fed);
        }
        r
    }

    /// The token buffer: the prompt followed by everything generated.
    pub fn tokens(&self) -> (r: &Vec<u32>)
        ensures
            r@ == self@.tokens,
    {
        &self.tokens
    }

    /// Decides what the scheduler should do with this session next: drop
    /// it, finalise it, or run one forward pass over the returned slice. In
    /// prefill mode the slice is the whole buffer at offset zero; in decode
    /// mode it is the last token at the current cache offset.
    pub fn plan_step(&self, is_prefill: bool) -> (r: StepPlan)
        requires
            self@.wf(),
        ensures
            match r {
                StepPlan::AlreadyDone => self@.done,
                StepPlan::OutOfBudget => !self@.done && self@.generated >= self@.max_tokens,
                StepPlan::Forward { ctx, offset } => {
                    &&& !self@.done
                    &&& self@.generated < self@.max_tokens
                    &&& ctx@ == self@.tokens.subrange(
                        self@.tokens.len() - ctx_len_spec(self@, is_prefill),
                        self@.tokens.len() as int,
                    )
                    &&& offset as int == if is_prefill {
                        0int
                    } else {
                        self@.ctx_index
                    }
                },
            },
    {
        if self.done_streaming {
            return StepPlan::AlreadyDone;
        }
        if self.tokens_generated >= self.max_tokens {
            return StepPlan::OutOfBudget;
        }
        let n = self.tokens.len();
        let start: usize = if is_prefill {
            0
        } else if n > 0 {
            n - 1
        } else {
            0
        };
        let mut ctx: Vec<u32> = Vec::new();
        let mut i: usize = start;
        proof {
            assert(ctx@ =~= self@.tokens.subrange(start as int, start as int));
        }
        while i < n
            invariant
                start <= i <= n == self@.tokens.len(),
                ctx@ == self@.tokens.subrange(start as int, i as int),
            decreases n - i,
        {
            ctx.push(self.tokens[i]);
            proof {
                assert(ctx@ =~= self@.tokens.subrange(start as int, i + 1));
            }
            i += 1;
        }
        let offset: usize = if is_prefill {
            0
        } else {
            self.ctx_index
        };
        StepPlan::Forward { ctx, offset }
    }

    /// Flushes the decoder residue as a final piece, where there is one,
    /// and emits the Done event; used when a session finishes normally.
    fn emit_done(&mut self, events: &mut Vec<EventToServer>)
        requires
            old(self)@.wf(),
            !old(self)@.done,
            events_view(old(events)@) == old(self)@.log.subrange(
                old(self)@.log.len() - old(events)@.len(),
                old(self)@.log.len() as int,
            ),
        ensures
            final(self)@.wf(),
            final(self)@ == (SessionModel {
                streamed: old(self)@.streamed + if old(self)@.pending.len() > 0 {
                    1int
                } else {
                    0int
                },
                pending: Seq::<u8>::empty(),
                done: true,
                log: old(self)@.log + finish_events(old(self)@.pending, old(self)@.streamed),
                ..old(self)@
            }),
            events_view(final(events)@) == events_view(old(events)@) + finish_events(
                old(self)@.pending,
                old(self)@.streamed,
            ),
    {
        let ghost pre = self@;
        proof {
            lemma_terminal_count_zero(pre.log);
        }
        let rest = self.decoder.flush();
        if rest.len() > 0 {
            let ev = EventToServer::Token { token: rest, index: self.tokens_streamed };
            proof {
                lemma_log_push(self.log@, ev@);
            }
            self.log = Ghost(self.log@.push(ev@));
            events.push(ev);
            self.tokens_streamed = self.tokens_streamed + 1;
        }
        let done_ev = EventToServer::Done { total_tokens: self.tokens_streamed };
        proof {
            lemma_log_push(self.log@, done_ev@);
        }
        self.log = Ghost(self.log@.push(done_ev@));
        events.push(done_ev);
        self.done_streaming = true;
        proof {
            assert(self@.log =~= pre.log + finish_events(pre.pending, pre.streamed));
            assert(self@ == SessionModel {
                streamed: pre.streamed + if pre.pending.len() > 0 {
                    1int
                } else {
                    0int
                },
                pending: Seq::<u8>::empty(),
                done: true,
                log: pre.log + finish_events(pre.pending, pre.streamed),
                ..pre
            });
            assert(events_view(events@) =~= events_view(old(events)@) + finish_events(
                pre.pending,
                pre.streamed,
            ));
            assert(token_bytes(self@.log) + self@.pending =~= self@.fed);
        }
    }

    /// One generation step after the forward pass: appends the sampled
    /// token, advances the cache offset by the slice the pass consumed,
    /// runs the decoded bytes through the UTF-8 decoder, and hands back the
    /// events to stream. The session finishes when the sampled token is the
    /// stop token or the budget is spent; the events then end with Done.
    #[verifier::rlimit(100)]
    #[verifier::spinoff_prover]
    pub fn apply_token(&mut self, next: u32, piece_bytes: &Vec<u8>, is_prefill: bool) -> (out:
        StepOutput)
        requires
            old(self)@.wf(),
            !old(self)@.done,
            old(self)@.generated < old(self)@.max_tokens,
            is_prefill ==> old(self)@.ctx_index == 0,
        ensures
            final(self)@.wf(),
            step_rel(
                old(self)@,
                next,
                piece_bytes@,
                is_prefill,
                final(self)@,
                events_view(out.events@),
                out.finished,
            ),
            final(self)@.done == out.finished,
    {
        let ghost pre = self@;
        proof {
            lemma_terminal_count_zero(pre.log);
        }
        let adv: usize = if is_prefill {
            self.tokens.len()
        } else if self.tokens.len() > 0 {
            1
        } else {
            0
        };
        proof {
            assert(pre.tokens.len() < usize::MAX);
        }
        self.ctx_index = self.ctx_index + adv;
        self.tokens.push(next);
        self.tokens_generated = self.tokens_generated + 1;
        self.fed = Ghost(self.fed@ + piece_bytes@);
        let piece = self.decoder.push(piece_bytes);
        let ghost k = piece@.len() as int;
        let mut events: Vec<EventToServer> = Vec::new();
        if piece.len() > 0 {
            let ev = EventToServer::Token { token: piece, index: self.tokens_streamed };
            proof {
                lemma_log_push(self.log@, ev@);
            }
            self.log = Ghost(self.log@.push(ev@));
            events.push(ev);
            self.tokens_streamed = self.tokens_streamed + 1;
        }
        let hit_eos = match self.eos_token {
            Some(e) => e == next,
            None => false,
        };
        let finished = hit_eos || self.tokens_generated >= self.max_tokens;
        let ghost mid = self@;
        proof {
            let combined = pre.pending + piece_bytes@;
            assert(mid.pending =~= combined.subrange(k, combined.len() as int));
            if k > 0 {
                assert(events_view(events@) =~= seq![
                    EventSpec::Token { token: combined.subrange(0, k), index: pre.streamed },
                ]);
            } else {
                assert(events_view(events@) =~= Seq::<EventSpec>::empty());
            }
            assert(events_view(events@) == mid.log.subrange(
                mid.log.len() - events@.len(),
                mid.log.len() as int,
            )) by {
                assert(mid.log.subrange(mid.log.len() - events@.len(), mid.log.len() as int)
                    =~= events_view(events@));
            }
            assert(token_bytes(mid.log) + mid.pending =~= mid.fed);
            assert(mid.tokens.subrange(0, mid.prompt.len() as int) =~= mid.prompt);
        }
        if finished {
            self.emit_done(&mut events);
            proof {
                assert(events_view(events@) =~= (if k > 0 {
                    seq![
                        EventSpec::Token {
                            token: (pre.pending + piece_bytes@).subrange(0, k),
                            index: pre.streamed,
                        },
                    ]
                } else {
                    Seq::<EventSpec>::empty()
                }) + finish_events(mid.pending, mid.streamed));
                assert(self@.log =~= pre.log + events_view(events@));
                assert(step_rel_at(
                    pre,
                    next,
                    piece_bytes@,
                    is_prefill,
                    self@,
                    events_view(events@),
                    finished,
                    k,
                ));
            }
            StepOutput { events, finished }
        } else {
            proof {
                assert(self@.log =~= pre.log + events_view(events@));
                assert(step_rel_at(
                    pre,
                    next,
                    piece_bytes@,
                    is_prefill,
                    self@,
                    events_view(events@),
                    finished,
                    k,
                ));
            }
            StepOutput { events, finished }
        }
    }

    /// Flushes any bytes still buffered in the UTF-8 decoder as a trailing
    /// piece, then emits `Done` with the total number of pieces streamed.
    /// Idempotent: a finished session emits nothing further.
    pub fn finalise(&mut self) -> (events: Vec<EventToServer>)
        requires
            old(self)@.wf(),
        ensures
            final(self)@.wf(),
            finalise_rel(old(self)@, final(self)@, events_view(events@)),
    {
        let mut events: Vec<EventToServer> = Vec::new();
        if self.done_streaming {
            proof {
                assert(events_view(events@) =~= Seq::<EventSpec>::empty());
            }
            return events;
        }
        proof {
            assert(events_view(events@) =~= self@.log.subrange(
                self@.log.len() as int,
                self@.log.len() as int,
            ));
        }
        self.emit_done(&mut events);
        proof {
            assert(events_view(events@) =~= finish_events(old(self)@.pending, old(self)@.streamed));
        }
        events
    }

    /// Notes that the client is gone: the session is finished without a
    /// terminal event and must not be stepped or queued again. A session
    /// that already finished is left as it is.
    pub fn cancel(&mut self)
        requires
            old(self)@.wf(),
        ensures
            final(self)@.wf(),
            old(self)@.done ==> final(self)@ == old(self)@,
            !old(self)@.done ==> final(self)@ == (SessionModel {
                done: true,
                cancelled: true,
                ..old(self)@
            }),
    {
        if !self.done_streaming {
            self.done_streaming = true;
            self.cancelled = true;
        }
    }

    /// Converts an internal failure into the session's terminal Error
    /// event; the scheduler then drops the session and carries on.
    pub fn fail(&mut self, message: &Vec<u8>) -> (ev: EventToServer)
        requires
            old(self)@.wf(),
            !old(self)@.done,
        ensures
            final(self)@.wf(),
            ev@ == (EventSpec::Error { message: message@ }),
            final(self)@ == (SessionModel {
                done: true,
                log: old(self)@.log.push(ev@),
                ..old(self)@
            }),
    {
        let copy = message.clone();
        proof {
            lemma_terminal_count_zero(self.log@);
            assert forall|i: int| 0 <= i < message@.len() implies copy@[i] == message@[i] by {
                assert(cloned::<u8>(message@[i], copy@[i]));
            }
            assert(copy@ =~= message@);
        }
        let ev = EventToServer::Error { message: copy };
        proof {
            lemma_log_push(self.log@, ev@);
        }
        self.log = Ghost(self.log@.push(ev@));
        self.done_streaming = true;
        proof {
            assert(token_bytes(self@.log) + self@.pending =~= self@.fed);
        }
        ev
    }
}

/// Law: a session that completed normally reports in its Done event exactly
/// the number of token events it emitted: the client sees `total_tokens`
/// equal to the count of token frames it received.
pub proof fn lemma_done_total_matches(m: SessionModel)
    requires
        m.wf(),
        m.log.len() > 0,
        m.log.last() is Done,
    ensures
        done_total(m.log.last()) == token_count(m.log),
        done_total(m.log.last()) == m.streamed,
{
}

/// Law: a session that finished without the client disconnecting emitted
/// exactly one terminal event, and an unfinished session has emitted none.
pub proof fn lemma_exactly_one_terminal(m: SessionModel)
    requires
        m.wf(),
    ensures
        m.done && !m.cancelled ==> terminal_count(m.log) == 1,
        !m.done ==> terminal_count(m.log) == 0,
{
    if m.done && !m.cancelled {
        lemma_terminal_last(m.log);
    }
}

/// Law: no byte is lost: the token events of a normally completed session
/// carry, in order, exactly the bytes the token decoder produced for it.
pub proof fn lemma_no_bytes_lost(m: SessionModel)
    requires
        m.wf(),
        m.log.len() > 0,
        m.log.last() is Done,
    ensures
        token_bytes(m.log) == m.fed,
{
    assert(token_bytes(m.log) + m.pending =~= token_bytes(m.log));
}

/// Law: one step is a function of the state and its inputs: two outcomes
/// of the same step on the same state agree in every part.
pub proof fn lemma_step_functional(
    pre: SessionModel,
    next: u32,
    bytes: Seq<u8>,
    is_prefill: bool,
    post1: SessionModel,
    ev1: Seq<EventSpec>,
    f1: bool,
    post2: SessionModel,
    ev2: Seq<EventSpec>,
    f2: bool,
)
    requires
        step_rel(pre, next, bytes, is_prefill, post1, ev1, f1),
        step_rel(pre, next, bytes, is_prefill, post2, ev2, f2),
    ensures
        post1 == post2,
        ev1 == ev2,
        f1 == f2,
{
    let k1 = choose|k: int| step_rel_at(pre, next, bytes, is_prefill, post1, ev1, f1, k);
    let k2 = choose|k: int| step_rel_at(pre, next, bytes, is_prefill, post2, ev2, f2, k);
    lemma_split_unique(pre.pending + bytes, k1, k2);
}

/// The inputs one decode step consumes: the sampled token id and the bytes
/// the tokenizer decoded for it.
pub ghost struct StepInput {
    pub next: u32,
    pub bytes: Seq<u8>,
    pub is_prefill: bool,
}

/// A whole run: the session steps once per input, accumulating events.
pub open spec fn run_rel(
    pre: SessionModel,
    inputs: Seq<StepInput>,
    post: SessionModel,
    events: Seq<EventSpec>,
) -> bool
    decreases inputs.len(),
{
    if inputs.len() == 0 {
        post == pre && events == Seq::<EventSpec>::empty()
    } else {
        exists|mid: SessionModel, ev: Seq<EventSpec>, f: bool|
            {
                &&& #[trigger] step_rel(
                    pre,
                    inputs[0].next,
                    inputs[0].bytes,
                    inputs[0].is_prefill,
                    mid,
                    ev,
                    f,
                )
                &&& run_rel(mid, inputs.subrange(1, inputs.len() as int), post, events.subrange(
                    ev.len() as int,
                    events.len() as int,
                ))
                &&& ev.len() <= events.len()
                &&& events.subrange(0, ev.len() as int) == ev
            }
    }
}

/// Law: generation is reproducible. The sampler runs outside the library
/// with fixed state (seed 42, top-p 0.9, temperature 0.7), so two runs over
/// the same prompt receive the same sampled tokens and decoded bytes; this
/// law states that the library then produces identical states and identical
/// event streams.
pub proof fn lemma_run_deterministic(
    pre: SessionModel,
    inputs: Seq<StepInput>,
    post1: SessionModel,
    ev1: Seq<EventSpec>,
    post2: SessionModel,
    ev2: Seq<EventSpec>,
)
    requires
        run_rel(pre, inputs, post1, ev1),
        run_rel(pre, inputs, post2, ev2),
    ensures
        post1 == post2,
        ev1 == ev2,
    decreases inputs.len(),
{
    if inputs.len() == 0 {
        assert(ev1 =~= ev2);
    } else {
        let (mid1, e1, f1) = choose|mid: SessionModel, ev: Seq<EventSpec>, f: bool|
            {
                &&& #[trigger] step_rel(
                    pre,
                    inputs[0].next,
                    inputs[0].bytes,
                    inputs[0].is_prefill,
                    mid,
                    ev,
                    f,
                )
                &&& run_rel(mid, inputs.subrange(1, inputs.len() as int), post1, ev1.subrange(
                    ev.len() as int,
                    ev1.len() as int,
                ))
                &&& ev.len() <= ev1.len()
                &&& ev1.subrange(0, ev.len() as int) == ev
            };
        let (mid2, e2, f2) = choose|mid: SessionModel, ev: Seq<EventSpec>, f: bool|
            {
                &&& #[trigger] step_rel(
                    pre,
                    inputs[0].next,
                    inputs[0].bytes,
                    inputs[0].is_prefill,
                    mid,
                    ev,
                    f,
                )
                &&& run_rel(mid, inputs.subrange(1, inputs.len() as int), post2, ev2.subrange(
                    ev.len() as int,
                    ev2.len() as int,
                ))
                &&& ev.len() <= ev2.len()
                &&& ev2.subrange(0, ev.len() as int) == ev
            };
        lemma_step_functional(
            pre,
            inputs[0].next,
            inputs[0].bytes,
            inputs[0].is_prefill,
            mid1,
            e1,
            f1,
            mid2,
            e2,
            f2,
        );
        let t1 = ev1.subrange(e1.len() as int, ev1.len() as int);
        let t2 = ev2.subrange(e2.len() as int, ev2.len() as int);
        lemma_run_deterministic(mid1, inputs.subrange(1, inputs.len() as int), post1, t1, post2, t2);
        assert(ev1 =~= e1 + t1);
        assert(ev2 =~= e2 + t2);
    }
}

} // verus!
