//! The decode scheduler.
//!
//! One dedicated thread owns every admitted session and round-robins decode
//! steps across them: the head of a FIFO ring takes one step and, unless it
//! finished, rejoins at the tail. The thread's loop, the condition variable
//! it blocks on and the forward pass itself live outside the library; the
//! scheduler here owns the sessions and makes every decision: whose turn it
//! is, what to feed the model, and what happens to the session afterwards.
//!
//! Fairness is an invariant of the ring. Each session carries the number of
//! decode steps it has taken and a ghost admission handicap (the virtual
//! count of the tail it joined behind); along the ring the handicapped
//! counts never decrease and spread by at most one, so sessions admitted at
//! the same moment never drift more than one decode step apart.

use vstd::prelude::*;
use std::collections::VecDeque;

use crate::events::{terminal_count, EventSpec, EventToServer};
use crate::session::{
    finalise_rel,
    lemma_exactly_one_terminal,
    step_rel,
    ClientRequestSession,
    SessionModel,
    StepOutput,
    StepPlan,
};

verus! {

/// Ghost model of the scheduler: every session ever admitted, which of
/// them still sit in the decode ring, and the step bookkeeping that the
/// fairness law is stated over.
pub ghost struct SchedModel {
    /// Every admitted session, by id; finished ones stay for inspection.
    pub sessions: Seq<SessionModel>,
    /// True while the session sits in the decode ring.
    pub active: Seq<bool>,
    /// Decode steps each session has taken.
    pub steps: Seq<u64>,
    /// Ghost handicapped step count: steps plus the virtual count of the
    /// tail the session was admitted behind.
    pub virts: Seq<int>,
    /// The decode ring, head first.
    pub ring: Seq<usize>,
}

impl SchedModel {
    /// The scheduler invariant: parallel tables, a ring of distinct live
    /// ids, well-formed sessions, and the fairness bound along the ring.
    pub open spec fn wf(self) -> bool {
        let n = self.sessions.len() as int;
        &&& self.active.len() == n
        &&& self.steps.len() == n
        &&& self.virts.len() == n
        &&& (forall|p: int|
            0 <= p < self.ring.len() ==> 0 <= #[trigger] self.ring[p] < n && self.active[self.ring[p] as int])
        &&& (forall|p: int, q: int|
            0 <= p < q < self.ring.len() ==> #[trigger] self.ring[p] != #[trigger] self.ring[q])
        &&& (forall|id: int|
            0 <= id < n && self.active[id] ==> exists|p: int|
                0 <= p < self.ring.len() && self.ring[p] == id)
        &&& (forall|id: int| 0 <= id < n ==> (#[trigger] self.sessions[id]).wf())
        &&& (forall|id: int|
            0 <= id < n ==> 0 <= #[trigger] self.steps[id] <= self.sessions[id].generated)
        &&& (forall|p: int, q: int|
            0 <= p <= q < self.ring.len() ==> #[trigger] self.virts[self.ring[p] as int]
                <= #[trigger] self.virts[self.ring[q] as int] <= self.virts[self.ring[p] as int]
                + 1)
    }
}

/// Owns every admitted session and decides the round-robin decode order.
pub struct Scheduler {
    sessions: Vec<ClientRequestSession>,
    active: Vec<bool>,
    steps: Vec<u64>,
    ring: VecDeque<usize>,
    virts: Ghost<Seq<int>>,
}

impl View for Scheduler {
    type V = SchedModel;

    closed spec fn view(&self) -> SchedModel {
        SchedModel {
            sessions: self.sessions@.map_values(|s: ClientRequestSession| s@),
            active: self.active@,
            steps: self.steps@,
            virts: self.virts@,
            ring: self.ring@,
        }
    }
}

impl Scheduler {
    /// A scheduler with no sessions.
    pub fn new() -> (r: Scheduler)
        ensures
            r@.wf(),
            r@.sessions == Seq::<SessionModel>::empty(),
            r@.ring == Seq::<usize>::empty(),
    {
        let r = Scheduler {
            sessions: Vec::new(),
            active: Vec::new(),
            steps: Vec::new(),
            ring: VecDeque::new(),
            virts: Ghost(Seq::<int>::empty()),
        };
        proof {
            assert(r@.sessions =~= Seq::<SessionModel>::empty());
        }
        r
    }

    /// Appends a prefilled session to the tail of the decode ring and hands
    /// back its id. The session inherits the tail's handicapped count, so
    /// sessions admitted back to back start on an equal footing.
    pub fn add_request(&mut self, session: ClientRequestSession) -> (id: usize)
        requires
            old(self)@.wf(),
            session@.wf(),
        ensures
            final(self)@.wf(),
            id as int == old(self)@.sessions.len(),
            final(self)@.sessions == old(self)@.sessions.push(session@),
            final(self)@.active == old(self)@.active.push(true),
            final(self)@.steps == old(self)@.steps.push(0u64),
            final(self)@.ring == old(self)@.ring.push(id),
            final(self)@.virts == old(self)@.virts.push(
                if old(self)@.ring.len() == 0 {
                    0int
                } else {
                    old(self)@.virts[old(self)@.ring.last() as int]
                },
            ),
    {
        let ghost pre = self@;
        let id = self.sessions.len();
        let ghost new_virt: int = if pre.ring.len() == 0 {
            0int
        } else {
            pre.virts[pre.ring.last() as int]
        };
        self.sessions.push(session);
        self.active.push(true);
        self.steps.push(0);
        self.virts = Ghost(self.virts@.push(new_virt));
        self.ring.push_back(id);
        proof {
            assert(self@.sessions =~= pre.sessions.push(session@));
            let m = self@;
            assert forall|p: int, q: int|
                0 <= p <= q < m.ring.len() implies #[trigger] m.virts[m.ring[p] as int]
                <= #[trigger] m.virts[m.ring[q] as int] <= m.virts[m.ring[p] as int] + 1 by {
                if q < m.ring.len() - 1 {
                    assert(m.ring[p] == pre.ring[p]);
                    assert(m.ring[q] == pre.ring[q]);
                } else if p < q {
                    assert(m.ring[p] == pre.ring[p]);
                    assert(m.ring[q] == id);
                    assert(pre.virts[pre.ring[pre.ring.len() - 1] as int] <= pre.virts[pre.ring[p] as int]
                        + 1);
                    assert(pre.virts[pre.ring[p] as int] <= pre.virts[pre.ring[pre.ring.len()
                        - 1] as int]);
                }
            }
            assert forall|iid: int|
                0 <= iid < m.sessions.len() && m.active[iid] implies exists|p: int|
                0 <= p < m.ring.len() && m.ring[p] == iid by {
                if iid < pre.sessions.len() {
                    let p = choose|p: int| 0 <= p < pre.ring.len() && pre.ring[p] == iid;
                    assert(m.ring[p] == iid);
                } else {
                    assert(m.ring[m.ring.len() - 1] == iid);
                }
            }
        }
        id
    }

    /// The id at the head of the decode ring, if any session is waiting.
    pub fn head(&self) -> (r: Option<usize>)
        ensures
            match r {
                Option::None => self@.ring.len() == 0,
                Option::Some(id) => self@.ring.len() > 0 && id == self@.ring[0],
            },
    {
        if self.ring.len() == 0 {
            Option::None
        } else {
            Option::Some(self.ring[0])
        }
    }

    /// Reads a session.
    pub fn session(&self, id: usize) -> (r: &ClientRequestSession)
        requires
            self@.wf(),
            id < self@.sessions.len(),
        ensures
            r@ == self@.sessions[id as int],
    {
        &self.sessions[id]
    }

    /// Decides what to do with the session at the head of the ring: run a
    /// forward pass over the returned slice, finalise it, or drop it.
    pub fn plan_head(&self) -> (r: StepPlan)
        requires
            self@.wf(),
            self@.ring.len() > 0,
        ensures
            ({
                let head = self@.sessions[self@.ring[0] as int];
                match r {
                    StepPlan::AlreadyDone => head.done,
                    StepPlan::OutOfBudget => !head.done && head.generated >= head.max_tokens,
                    StepPlan::Forward { ctx, offset } => {
                        &&& !head.done
                        &&& head.generated < head.max_tokens
                        &&& head.tokens.len() > 0 ==> ctx@ == head.tokens.subrange(
                            head.tokens.len() - 1,
                            head.tokens.len() as int,
                        )
                        &&& offset as int == head.ctx_index
                    },
                }
            }),
    {
        let id = self.ring[0];
        self.sessions[id].plan_step(false)
    }

    /// Runs one decode step for the head session: hands it the sampled
    /// token and its bytes, counts the step, and re-queues the session at
    /// the tail unless it finished.
    pub fn step_head(&mut self, next: u32, piece_bytes: &Vec<u8>) -> (out: StepOutput)
        requires
            old(self)@.wf(),
            old(self)@.ring.len() > 0,
            !old(self)@.sessions[old(self)@.ring[0] as int].done,
            old(self)@.sessions[old(self)@.ring[0] as int].generated < old(self)@.sessions[old(
                self,
            )@.ring[0] as int].max_tokens,
        ensures
            final(self)@.wf(),
            ({
                let id = old(self)@.ring[0] as int;
                let m = final(self)@;
                &&& step_rel(
                    old(self)@.sessions[id],
                    next,
                    piece_bytes@,
                    false,
                    m.sessions[id],
                    crate::events::events_view(out.events@),
                    out.finished,
                )
                &&& m.sessions =~= old(self)@.sessions.update(id, m.sessions[id])
                &&& m.steps =~= old(self)@.steps.update(id, (old(self)@.steps[id] + 1) as u64)
                &&& m.virts =~= old(self)@.virts.update(id, old(self)@.virts[id] + 1)
                &&& (out.finished ==> m.ring =~= old(self)@.ring.subrange(
                    1,
                    old(self)@.ring.len() as int,
                ) && m.active =~= old(self)@.active.update(id, false))
                &&& (!out.finished ==> m.ring =~= old(self)@.ring.subrange(
                    1,
                    old(self)@.ring.len() as int,
                ).push(old(self)@.ring[0]) && m.active =~= old(self)@.active)
                &&& m.sessions[id].done == out.finished
            }),
    {
        let ghost pre = self@;
        let id = match self.ring.pop_front() {
            Option::Some(id) => id,
            Option::None => {
                proof {
                    assert(false);
                }
                0
            },
        };
        let out = self.sessions[id].apply_token(next, piece_bytes, false);
        proof {
            assert(pre.steps[id as int] < u64::MAX) by {
                assert(pre.steps[id as int] <= pre.sessions[id as int].generated);
                assert(pre.sessions[id as int].generated < pre.sessions[id as int].max_tokens);
                assert(pre.sessions[id as int].max_tokens < usize::MAX);
            }
        }
        let new_steps = self.steps[id] + 1;
        self.steps.set(id, new_steps);
        self.virts = Ghost(self.virts@.update(id as int, self.virts@[id as int] + 1));
        if out.finished {
            self.active.set(id, false);
        } else {
            self.ring.push_back(id);
        }
        proof {
            let m = self@;
            assert(m.sessions =~= pre.sessions.update(id as int, m.sessions[id as int]));
            let tail = pre.ring.subrange(1, pre.ring.len() as int);
            if out.finished {
                assert forall|iid: int|
                    0 <= iid < m.sessions.len() && m.active[iid] implies exists|p: int|
                    0 <= p < m.ring.len() && m.ring[p] == iid by {
                    let p = choose|p: int| 0 <= p < pre.ring.len() && pre.ring[p] == iid;
                    assert(pre.ring[p] == iid);
                    assert(p != 0);
                    assert(m.ring[p - 1] == iid);
                }
                assert forall|p: int, q: int|
                    0 <= p <= q < m.ring.len() implies #[trigger] m.virts[m.ring[p] as int]
                    <= #[trigger] m.virts[m.ring[q] as int] <= m.virts[m.ring[p] as int] + 1 by {
                    assert(m.ring[p] == pre.ring[p + 1]);
                    assert(m.ring[q] == pre.ring[q + 1]);
                    assert(pre.ring[p + 1] != pre.ring[0]);
                    assert(pre.ring[q + 1] != pre.ring[0]);
                }
            } else {
                assert forall|iid: int|
                    0 <= iid < m.sessions.len() && m.active[iid] implies exists|p: int|
                    0 <= p < m.ring.len() && m.ring[p] == iid by {
                    let p = choose|p: int| 0 <= p < pre.ring.len() && pre.ring[p] == iid;
                    if p == 0 {
                        assert(m.ring[m.ring.len() - 1] == iid);
                    } else {
                        assert(m.ring[p - 1] == iid);
                    }
                }
                assert forall|p: int, q: int|
                    0 <= p <= q < m.ring.len() implies #[trigger] m.virts[m.ring[p] as int]
                    <= #[trigger] m.virts[m.ring[q] as int] <= m.virts[m.ring[p] as int] + 1 by {
                    let last = m.ring.len() - 1;
                    if q < last {
                        assert(m.ring[p] == pre.ring[p + 1]);
                        assert(m.ring[q] == pre.ring[q + 1]);
                        assert(pre.ring[p + 1] != pre.ring[0]);
                        assert(pre.ring[q + 1] != pre.ring[0]);
                        assert(pre.virts[pre.ring[p + 1] as int] <= pre.virts[pre.ring[q
                            + 1] as int] <= pre.virts[pre.ring[p + 1] as int] + 1);
                    } else {
                        assert(m.ring[q] == pre.ring[0]);
                        assert(m.virts[m.ring[q] as int] == pre.virts[pre.ring[0] as int] + 1);
                        if p < q {
                            assert(m.ring[p] == pre.ring[p + 1]);
                            assert(pre.ring[p + 1] != pre.ring[0]);
                            assert(pre.virts[pre.ring[0] as int] <= pre.virts[pre.ring[p
                                + 1] as int] <= pre.virts[pre.ring[0] as int] + 1);
                        }
                    }
                }
            }
        }
        out
    }

    /// Finalises the head session without a forward pass — its budget is
    /// spent — and drops it from the ring. Returns the terminal events.
    pub fn finalise_head(&mut self) -> (events: Vec<EventToServer>)
        requires
            old(self)@.wf(),
            old(self)@.ring.len() > 0,
        ensures
            final(self)@.wf(),
            ({
                let id = old(self)@.ring[0] as int;
                let m = final(self)@;
                &&& finalise_rel(
                    old(self)@.sessions[id],
                    m.sessions[id],
                    crate::events::events_view(events@),
                )
                &&& m.sessions =~= old(self)@.sessions.update(id, m.sessions[id])
                &&& m.ring =~= old(self)@.ring.subrange(1, old(self)@.ring.len() as int)
                &&& m.active =~= old(self)@.active.update(id, false)
                &&& m.steps == old(self)@.steps
                &&& m.virts == old(self)@.virts
            }),
    {
        let ghost pre = self@;
        let id = match self.ring.pop_front() {
            Option::Some(id) => id,
            Option::None => {
                proof {
                    assert(false);
                }
                0
            },
        };
        proof {
            assert(pre.ring[0] == id);
            assert((id as int) < pre.sessions.len());
            assert(pre.sessions[id as int].wf());
            assert(self.sessions@[id as int]@ == pre.sessions[id as int]);
        }
        let events = self.sessions[id].finalise();
        self.active.set(id, false);
        proof {
            let m = self@;
            assert(m.sessions =~= pre.sessions.update(id as int, m.sessions[id as int]));
            assert forall|iid: int|
                0 <= iid < m.sessions.len() && m.active[iid] implies exists|p: int|
                0 <= p < m.ring.len() && m.ring[p] == iid by {
                let p = choose|p: int| 0 <= p < pre.ring.len() && pre.ring[p] == iid;
                assert(pre.ring[p] == iid);
                assert(p != 0);
                assert(m.ring[p - 1] == iid);
            }
            assert forall|p: int, q: int|
                0 <= p <= q < m.ring.len() implies #[trigger] m.virts[m.ring[p] as int]
                <= #[trigger] m.virts[m.ring[q] as int] <= m.virts[m.ring[p] as int] + 1 by {
                assert(m.ring[p] == pre.ring[p + 1]);
                assert(m.ring[q] == pre.ring[q + 1]);
            }
        }
        events
    }

    /// Converts a failed forward pass into the head session's terminal
    /// Error event, drops the session from the ring, and carries on.
    pub fn fail_head(&mut self, message: &Vec<u8>) -> (ev: EventToServer)
        requires
            old(self)@.wf(),
            old(self)@.ring.len() > 0,
            !old(self)@.sessions[old(self)@.ring[0] as int].done,
        ensures
            final(self)@.wf(),
            ev@ == (EventSpec::Error { message: message@ }),
            ({
                let id = old(self)@.ring[0] as int;
                let m = final(self)@;
                &&& m.sessions[id] == (SessionModel {
                    done: true,
                    log: old(self)@.sessions[id].log.push(ev@),
                    ..old(self)@.sessions[id]
                })
                &&& m.sessions =~= old(self)@.sessions.update(id, m.sessions[id])
                &&& m.ring =~= old(self)@.ring.subrange(1, old(self)@.ring.len() as int)
                &&& m.active =~= old(self)@.active.update(id, false)
                &&& m.steps == old(self)@.steps
                &&& m.virts == old(self)@.virts
            }),
    {
        let ghost pre = self@;
        let id = match self.ring.pop_front() {
            Option::Some(id) => id,
            Option::None => {
                proof {
                    assert(false);
                }
                0
            },
        };
        proof {
            assert(pre.ring[0] == id);
            assert((id as int) < pre.sessions.len());
            assert(pre.sessions[id as int].wf());
            assert(self.sessions@[id as int]@ == pre.sessions[id as int]);
        }
        let ev = self.sessions[id].fail(message);
        self.active.set(id, false);
        proof {
            let m = self@;
            assert(m.sessions =~= pre.sessions.update(id as int, m.sessions[id as int]));
            assert forall|iid: int|
                0 <= iid < m.sessions.len() && m.active[iid] implies exists|p: int|
                0 <= p < m.ring.len() && m.ring[p] == iid by {
                let p = choose|p: int| 0 <= p < pre.ring.len() && pre.ring[p] == iid;
                assert(pre.ring[p] == iid);
                assert(p != 0);
                assert(m.ring[p - 1] == iid);
            }
            assert forall|p: int, q: int|
                0 <= p <= q < m.ring.len() implies #[trigger] m.virts[m.ring[p] as int]
                <= #[trigger] m.virts[m.ring[q] as int] <= m.virts[m.ring[p] as int] + 1 by {
                assert(m.ring[p] == pre.ring[p + 1]);
                assert(m.ring[q] == pre.ring[q + 1]);
            }
        }
        ev
    }

    /// Drops a finished head session from the ring.
    pub fn retire_head(&mut self)
        requires
            old(self)@.wf(),
            old(self)@.ring.len() > 0,
            old(self)@.sessions[old(self)@.ring[0] as int].done,
        ensures
            final(self)@.wf(),
            final(self)@.sessions == old(self)@.sessions,
            final(self)@.ring =~= old(self)@.ring.subrange(1, old(self)@.ring.len() as int),
            final(self)@.active =~= old(self)@.active.update(old(self)@.ring[0] as int, false),
            final(self)@.steps == old(self)@.steps,
            final(self)@.virts == old(self)@.virts,
    {
        let ghost pre = self@;
        let id = match self.ring.pop_front() {
            Option::Some(id) => id,
            Option::None => {
                proof {
                    assert(false);
                }
                0
            },
        };
        self.active.set(id, false);
        proof {
            let m = self@;
            assert forall|iid: int|
                0 <= iid < m.sessions.len() && m.active[iid] implies exists|p: int|
                0 <= p < m.ring.len() && m.ring[p] == iid by {
                let p = choose|p: int| 0 <= p < pre.ring.len() && pre.ring[p] == iid;
                assert(pre.ring[p] == iid);
                assert(p != 0);
                assert(m.ring[p - 1] == iid);
            }
            assert forall|p: int, q: int|
                0 <= p <= q < m.ring.len() implies #[trigger] m.virts[m.ring[p] as int]
                <= #[trigger] m.virts[m.ring[q] as int] <= m.virts[m.ring[p] as int] + 1 by {
                assert(m.ring[p] == pre.ring[p + 1]);
                assert(m.ring[q] == pre.ring[q + 1]);
            }
        }
    }

    /// Notes that a session's client disconnected: the session finishes
    /// without a terminal event and is dropped the next time it reaches
    /// the head of the ring.
    pub fn cancel(&mut self, id: usize)
        requires
            old(self)@.wf(),
            id < old(self)@.sessions.len(),
        ensures
            final(self)@.wf(),
            final(self)@.sessions =~= old(self)@.sessions.update(
                id as int,
                final(self)@.sessions[id as int],
            ),
            old(self)@.sessions[id as int].done ==> final(self)@.sessions[id as int] == old(
                self,
            )@.sessions[id as int],
            !old(self)@.sessions[id as int].done ==> final(self)@.sessions[id as int] == (
            SessionModel {
                done: true,
                cancelled: true,
                ..old(self)@.sessions[id as int]
            }),
            final(self)@.ring == old(self)@.ring,
            final(self)@.active == old(self)@.active,
            final(self)@.steps == old(self)@.steps,
            final(self)@.virts == old(self)@.virts,
    {
        let ghost pre = self@;
        let s = &mut self.sessions[id];

        s.cancel();
        proof {
            assert(self@.sessions =~= pre.sessions.update(id as int, self@.sessions[id as int]));
            let m = self@;
            assert(m.ring == pre.ring && m.active == pre.active && m.virts == pre.virts
                && m.steps == pre.steps);
            assert(m.sessions.len() == pre.sessions.len());
            assert forall|p: int|
                0 <= p < m.ring.len() implies 0 <= #[trigger] m.ring[p] < m.sessions.len()
                && m.active[m.ring[p] as int] by {
                assert(0 <= pre.ring[p] < pre.sessions.len() && pre.active[pre.ring[p] as int]);
            }
            assert forall|iid: int|
                0 <= iid < m.sessions.len() && m.active[iid] implies exists|p: int|
                0 <= p < m.ring.len() && m.ring[p] == iid by {
                let p = choose|p: int| 0 <= p < pre.ring.len() && pre.ring[p] == iid;
                assert(m.ring[p] == iid);
            }
            assert forall|j: int| 0 <= j < m.sessions.len() implies (#[trigger] m.sessions[j]).wf() by {
                if j != id {
                    assert(m.sessions[j] == pre.sessions[j]);
                }
            }
            assert forall|j: int|
                0 <= j < m.sessions.len() implies 0 <= #[trigger] m.steps[j]
                <= m.sessions[j].generated by {
                if j != id {
                    assert(m.sessions[j] == pre.sessions[j]);
                } else {
                    assert(m.sessions[j].generated == pre.sessions[j].generated);
                }
            }
        }
    }
}

/// Law: every session ever admitted emits exactly one terminal event —
/// Done or Error — unless its client disconnected first, and none while it
/// is still running.
pub proof fn lemma_admitted_one_terminal(m: SchedModel, id: int)
    requires
        m.wf(),
        0 <= id < m.sessions.len(),
    ensures
        m.sessions[id].done && !m.sessions[id].cancelled ==> terminal_count(m.sessions[id].log)
            == 1,
        !m.sessions[id].done ==> terminal_count(m.sessions[id].log) == 0,
{
    lemma_exactly_one_terminal(m.sessions[id]);
}

/// Law: round-robin decode is fair. Any two sessions still in the ring
/// that were admitted at the same moment — they carry the same admission
/// handicap, the difference between their ghost handicapped count and
/// their step count — have decode-step counts that differ by at most one.
pub proof fn lemma_round_robin_fair(m: SchedModel, p: int, q: int)
    requires
        m.wf(),
        0 <= p < m.ring.len(),
        0 <= q < m.ring.len(),
        m.virts[m.ring[p] as int] - m.steps[m.ring[p] as int] == m.virts[m.ring[q] as int]
            - m.steps[m.ring[q] as int],
    ensures
        -1 <= m.steps[m.ring[p] as int] - m.steps[m.ring[q] as int] <= 1,
{
    if p <= q {
        assert(m.virts[m.ring[p] as int] <= m.virts[m.ring[q] as int] <= m.virts[m.ring[p] as int]
            + 1);
    } else {
        assert(m.virts[m.ring[q] as int] <= m.virts[m.ring[p] as int] <= m.virts[m.ring[q] as int]
            + 1);
    }
}

/// Law: fairness holds at the moment a session finishes. When the head of
/// the ring takes the decode step that finishes it, its step count — one
/// more than recorded — differs by at most one from that of any session
/// still in the ring that was admitted at the same moment.
pub proof fn lemma_fair_at_finish(m: SchedModel, q: int)
    requires
        m.wf(),
        m.ring.len() > 0,
        0 < q < m.ring.len(),
        m.virts[m.ring[0] as int] - m.steps[m.ring[0] as int] == m.virts[m.ring[q] as int]
            - m.steps[m.ring[q] as int],
    ensures
        -1 <= (m.steps[m.ring[0] as int] + 1) - m.steps[m.ring[q] as int] <= 1,
{
    assert(m.virts[m.ring[0] as int] <= m.virts[m.ring[q] as int] <= m.virts[m.ring[0] as int]
        + 1);
}

} // verus!
