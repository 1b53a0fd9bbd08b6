//! Laws of the connection lifecycle over whole runs: what any valid
//! sequence of manager steps preserves.

use vstd::prelude::*;

use crate::buffer::read_decision;
use crate::events::{ReadOutcome, WriteResult};
use crate::manager::{
    interests_of, lemma_accept_props, lemma_downgrade_props, lemma_remove_props, m_accept,
    m_downgrade, m_has, m_inv, m_phase, m_remove, write_decision, ConnPhase, Connection,
    ServerModel,
};

verus! {

/// One step of the connection lifecycle, exactly as the manager's
/// functions perform it: a successful accept, a greeting fully
/// flushed, or a connection's exit.
#[derive(Clone, Copy, Debug, PartialEq, Eq, Structural)]
pub enum Step {
    Accept,
    Downgrade(u64),
    Remove(u64),
}

/// Whether one step can be taken from `m`: these are the requires
/// clauses of the manager's functions.
pub open spec fn step_ok(m: ServerModel, s: Step) -> bool {
    match s {
        Step::Accept => m.next_id < u64::MAX,
        Step::Downgrade(id) => m_has(m, id) && m_phase(m, id) is AwaitingGreeting,
        Step::Remove(id) => m_has(m, id),
    }
}

/// The model after one step.
pub open spec fn apply_step(m: ServerModel, s: Step) -> ServerModel {
    match s {
        Step::Accept => m_accept(m),
        Step::Downgrade(id) => m_downgrade(m, id),
        Step::Remove(id) => m_remove(m, id),
    }
}

/// Whether a whole sequence of steps can be taken from `m`.
pub open spec fn trace_ok(m: ServerModel, t: Seq<Step>) -> bool
    decreases t.len(),
{
    t.len() == 0 || (step_ok(m, t[0]) && trace_ok(apply_step(m, t[0]), t.drop_first()))
}

/// The model after a whole sequence of steps.
pub open spec fn apply_trace(m: ServerModel, t: Seq<Step>) -> ServerModel
    decreases t.len(),
{
    if t.len() == 0 {
        m
    } else {
        apply_trace(apply_step(m, t[0]), t.drop_first())
    }
}

/// The model a fresh run starts from: no connections, no history, the
/// first client identifier is 1.
pub open spec fn init_model() -> ServerModel {
    ServerModel { conns: Seq::empty(), next_id: 1, assigned: Seq::empty() }
}

/// Every state a run can reach satisfies the bookkeeping invariant.
pub proof fn lemma_run_invariant(t: Seq<Step>)
    requires
        trace_ok(init_model(), t),
    ensures
        m_inv(apply_trace(init_model(), t)),
{
    lemma_assigned_history_preserved(init_model(), t);
}

/// Identifier non-reuse over a whole run: after any valid sequence of
/// steps from a fresh manager, the identifiers assigned so far are
/// pairwise distinct — a closed connection's identifier is never
/// handed out again.
pub proof fn lemma_run_identifiers_distinct(t: Seq<Step>)
    requires
        trace_ok(init_model(), t),
    ensures
        forall|i: int, j: int|
            0 <= i < j < apply_trace(init_model(), t).assigned.len() ==> apply_trace(
                init_model(),
                t,
            ).assigned[i] != apply_trace(init_model(), t).assigned[j],
{
    lemma_run_invariant(t);
    lemma_identifier_non_reuse(apply_trace(init_model(), t));
}

/// The model `n` accepts later.
pub open spec fn m_accept_n(m: ServerModel, n: nat) -> ServerModel
    decreases n,
{
    if n == 0 {
        m
    } else {
        m_accept_n(m_accept(m), (n - 1) as nat)
    }
}

/// The accept loop drains fully: one listener readiness event may
/// stand for any number of pending connections, and the loop accepts
/// until would-block.  After `n` successive accepts every one of the
/// `n` connections is tracked — none is left stranded: the earlier
/// connections keep their places, and the `n` new entries carry the
/// `n` consecutive fresh identifiers, each awaiting its greeting
/// (registered readable and writable).
pub proof fn lemma_accept_loop_drains(m: ServerModel, n: nat)
    requires
        m_inv(m),
        m.next_id + n <= u64::MAX,
    ensures
        m_inv(m_accept_n(m, n)),
        m_accept_n(m, n).conns.len() == m.conns.len() + n,
        m_accept_n(m, n).next_id == m.next_id + n,
        forall|i: int|
            0 <= i < m.conns.len() ==> #[trigger] m_accept_n(m, n).conns[i] == m.conns[i],
        forall|i: int|
            m.conns.len() <= i < m.conns.len() + n ==> #[trigger] m_accept_n(m, n).conns[i]
                == (Connection {
                id: (m.next_id + i - m.conns.len()) as u64,
                phase: ConnPhase::AwaitingGreeting,
            }),
    decreases n,
{
    if n > 0 {
        let m1 = m_accept(m);
        lemma_accept_props(m);
        lemma_accept_loop_drains(m1, (n - 1) as nat);
        assert forall|i: int| 0 <= i < m.conns.len() implies #[trigger] m_accept_n(m, n).conns[i]
            == m.conns[i] by {
            assert(m_accept_n(m1, (n - 1) as nat).conns[i] == m1.conns[i]);
        }
        assert forall|i: int| m.conns.len() <= i < m.conns.len() + n implies #[trigger] m_accept_n(
            m,
            n,
        ).conns[i] == (Connection {
            id: (m.next_id + i - m.conns.len()) as u64,
            phase: ConnPhase::AwaitingGreeting,
        }) by {
            if i == m.conns.len() {
                assert(m_accept_n(m1, (n - 1) as nat).conns[i] == m1.conns[i]);
            }
        }
    }
}

/// An identifier below the counter that is not tracked never becomes
/// tracked again: later accepts hand out only fresh, larger
/// identifiers, and no other step adds a connection.
pub proof fn lemma_absent_stays_absent(m: ServerModel, t: Seq<Step>, id: u64)
    requires
        m_inv(m),
        trace_ok(m, t),
        !m_has(m, id),
        id < m.next_id,
    ensures
        m_inv(apply_trace(m, t)),
        !m_has(apply_trace(m, t), id),
        id < apply_trace(m, t).next_id,
    decreases t.len(),
{
    if t.len() > 0 {
        let m1 = apply_step(m, t[0]);
        match t[0] {
            Step::Accept => {
                lemma_accept_props(m);
            },
            Step::Downgrade(id2) => {
                lemma_downgrade_props(m, id2);
            },
            Step::Remove(id2) => {
                lemma_remove_props(m, id2);
            },
        }
        lemma_absent_stays_absent(m1, t.drop_first(), id);
    }
}

/// Write-then-downgrade is permanent: once a connection's greeting is
/// fully flushed and its interest set no longer includes writable, no
/// later step of the same run ever restores writable interest for that
/// identifier — it either stays established or leaves the map for
/// good.
pub proof fn lemma_writable_interest_never_restored(m: ServerModel, t: Seq<Step>, id: u64)
    requires
        m_inv(m),
        trace_ok(m, t),
        m_has(m, id),
        m_phase(m, id) is Established,
    ensures
        m_inv(apply_trace(m, t)),
        m_has(apply_trace(m, t), id) ==> m_phase(apply_trace(m, t), id) is Established
            && !interests_of(m_phase(apply_trace(m, t), id)).writable,
    decreases t.len(),
{
    if t.len() > 0 {
        let m1 = apply_step(m, t[0]);
        match t[0] {
            Step::Accept => {
                lemma_accept_props(m);
                lemma_writable_interest_never_restored(m1, t.drop_first(), id);
            },
            Step::Downgrade(id2) => {
                lemma_downgrade_props(m, id2);
                lemma_writable_interest_never_restored(m1, t.drop_first(), id);
            },
            Step::Remove(id2) => {
                lemma_remove_props(m, id2);
                if id2 == id {
                    lemma_absent_stays_absent(m1, t.drop_first(), id);
                } else {
                    lemma_writable_interest_never_restored(m1, t.drop_first(), id);
                }
            },
        }
    }
}

/// A partial write is fatal: a write that the transport accepted only
/// in part — fewer bytes than the greeting — yields the close
/// decision, never a retry of the remaining bytes and never a wait for
/// another writable event; removal then takes the identifier out of
/// tracking.
pub proof fn lemma_partial_write_fatal(m: ServerModel, id: u64, n: usize, msg_len: usize)
    requires
        m_inv(m),
        m_has(m, id),
        n < msg_len,
    ensures
        write_decision(WriteResult::Wrote(n), msg_len) is Close,
        !(write_decision(WriteResult::Wrote(n), msg_len) is RetryWrite),
        !(write_decision(WriteResult::Wrote(n), msg_len) is AwaitWritable),
        !m_has(m_remove(m, id), id),
{
    lemma_remove_props(m, id);
}

/// End of stream closes cleanly: a read of zero bytes yields the
/// finished decision, and the close step removes exactly that
/// identifier — afterwards it is absent from the map, so the liveness
/// check that guards dispatch rejects any stale event for it, and
/// every other connection is untouched.
pub proof fn lemma_eof_closes_cleanly(m: ServerModel, id: u64)
    requires
        m_inv(m),
        m_has(m, id),
    ensures
        read_decision(ReadOutcome::Eof) is Finished,
        !m_has(m_remove(m, id), id),
        forall|x: u64| x != id ==> #[trigger] m_has(m_remove(m, id), x) == m_has(m, x),
{
    lemma_remove_props(m, id);
}

/// The identifier history survives every step: nothing a run does ever
/// shortens or rewrites the record of assigned identifiers.
pub proof fn lemma_assigned_history_preserved(m: ServerModel, t: Seq<Step>)
    requires
        m_inv(m),
        trace_ok(m, t),
    ensures
        m_inv(apply_trace(m, t)),
        m.assigned.len() <= apply_trace(m, t).assigned.len(),
        forall|i: int|
            0 <= i < m.assigned.len() ==> #[trigger] apply_trace(m, t).assigned[i]
                == m.assigned[i],
    decreases t.len(),
{
    if t.len() > 0 {
        let m1 = apply_step(m, t[0]);
        match t[0] {
            Step::Accept => {
                lemma_accept_props(m);
            },
            Step::Downgrade(id2) => {
                lemma_downgrade_props(m, id2);
            },
            Step::Remove(id2) => {
                lemma_remove_props(m, id2);
            },
        }
        lemma_assigned_history_preserved(m1, t.drop_first());
        assert forall|i: int| 0 <= i < m.assigned.len() implies #[trigger] apply_trace(
            m,
            t,
        ).assigned[i] == m.assigned[i] by {
            assert(apply_trace(m1, t.drop_first()).assigned[i] == m1.assigned[i]);
            assert(m1.assigned[i] == m.assigned[i]);
        }
    }
}

/// Identifiers are never reused: the history of assigned identifiers
/// of any run satisfying the invariant is strictly increasing, so no
/// two connections of one run — even one accepted long after another
/// closed — ever share an identifier.
pub proof fn lemma_identifier_non_reuse(m: ServerModel)
    requires
        m_inv(m),
    ensures
        forall|i: int, j: int|
            0 <= i < j < m.assigned.len() ==> m.assigned[i] != m.assigned[j],
{
}

} // verus!
