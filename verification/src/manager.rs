//! The connection manager: the identifier-keyed map of live
//! connections, the monotone identifier counter, and the decisions
//! taken on each readiness event.

use vstd::prelude::*;

use crate::events::{ErrKind, WriteResult, WriteStep};

verus! {

/// Identifier permanently bound to the listening source.  It is never
/// assigned to a client connection.
pub const LISTENER_ID: u64 = 0;

/// Phase of one accepted connection.  Writable interest is exactly
/// "the greeting is still owed": it is dropped the moment the full
/// greeting has been accepted by the transport.
#[derive(Clone, Copy, Debug, PartialEq, Eq, Structural)]
pub enum ConnPhase {
    /// The greeting has not yet been fully written: the connection is
    /// registered for both readable and writable readiness.
    AwaitingGreeting,
    /// The greeting is fully sent: only readable interest remains.
    Established,
}

/// The subset of readiness kinds a source is watched for.
#[derive(Clone, Copy, Debug, PartialEq, Eq, Structural)]
pub struct InterestSet {
    pub readable: bool,
    pub writable: bool,
}

/// The interest set a connection in a given phase must be registered
/// with.
pub open spec fn interests_of(p: ConnPhase) -> InterestSet {
    match p {
        ConnPhase::AwaitingGreeting => InterestSet { readable: true, writable: true },
        ConnPhase::Established => InterestSet { readable: true, writable: false },
    }
}

/// The interest set for a phase, as a value the event loop can hand to
/// the readiness registry.
pub fn interest_set_for(p: &ConnPhase) -> (s: InterestSet)
    ensures
        s == interests_of(*p),
{
    match p {
        ConnPhase::AwaitingGreeting => InterestSet { readable: true, writable: true },
        ConnPhase::Established => InterestSet { readable: true, writable: false },
    }
}

/// Where one delivered readiness event must be routed.
#[derive(Clone, Copy, Debug, PartialEq, Eq, Structural)]
pub enum EventRoute {
    /// The event is for the listening source: run the accept drain.
    AcceptPath,
    /// The event names a live connection: run its write/read phases.
    ConnectionPath,
    /// The event names no live connection — a stale identifier — and
    /// must not be acted on.
    Ignore,
}

/// One live connection as the manager tracks it.
#[derive(Clone, Copy, Debug, PartialEq, Eq, Structural)]
pub struct Connection {
    pub id: u64,
    pub phase: ConnPhase,
}

/// Mathematical state of one server run: the live connections in
/// insertion order, the next identifier to hand out, and the history
/// of every identifier assigned so far.
#[verifier::ext_equal]
pub struct ServerModel {
    pub conns: Seq<Connection>,
    pub next_id: u64,
    pub assigned: Seq<u64>,
}

/// Whether an identifier is currently tracked.
pub open spec fn m_has(m: ServerModel, id: u64) -> bool {
    exists|i: int| 0 <= i < m.conns.len() && #[trigger] m.conns[i].id == id
}

/// The position of a tracked identifier.  Under the invariant the
/// position is unique, so this picks the one index that holds it.
pub open spec fn m_idx(m: ServerModel, id: u64) -> int {
    choose|i: int| 0 <= i < m.conns.len() && #[trigger] m.conns[i].id == id
}

/// The phase of a tracked connection.
pub open spec fn m_phase(m: ServerModel, id: u64) -> ConnPhase {
    m.conns[m_idx(m, id)].phase
}

/// Bookkeeping invariant of a run: every tracked identifier is a
/// client identifier below the counter and occurs exactly once; the
/// assignment history is strictly increasing, bounded by the counter,
/// and contains every tracked identifier.
pub open spec fn m_inv(m: ServerModel) -> bool {
    &&& 1 <= m.next_id
    &&& forall|i: int|
        0 <= i < m.conns.len() ==> LISTENER_ID < #[trigger] m.conns[i].id < m.next_id
    &&& forall|i: int, j: int|
        0 <= i < j < m.conns.len() ==> #[trigger] m.conns[i].id != #[trigger] m.conns[j].id
    &&& forall|i: int, j: int|
        0 <= i < j < m.assigned.len() ==> #[trigger] m.assigned[i] < #[trigger] m.assigned[j]
    &&& forall|i: int| 0 <= i < m.assigned.len() ==> #[trigger] m.assigned[i] < m.next_id
    &&& forall|i: int|
        0 <= i < m.conns.len() ==> m.assigned.contains(#[trigger] m.conns[i].id)
}

/// A successful accept: the counter's identifier is assigned, the new
/// connection is recorded awaiting its greeting, and the counter
/// advances.
pub open spec fn m_accept(m: ServerModel) -> ServerModel {
    ServerModel {
        conns: m.conns.push(Connection { id: m.next_id, phase: ConnPhase::AwaitingGreeting }),
        next_id: (m.next_id + 1) as u64,
        assigned: m.assigned.push(m.next_id),
    }
}

/// The greeting has been fully accepted by the transport: the
/// connection keeps readable interest only.
pub open spec fn m_downgrade(m: ServerModel, id: u64) -> ServerModel {
    ServerModel {
        conns: m.conns.update(
            m_idx(m, id),
            Connection { id, phase: ConnPhase::Established },
        ),
        ..m
    }
}

/// The unique exit point of a connection's lifecycle: it leaves the
/// map (the event loop deregisters it in the same step).
pub open spec fn m_remove(m: ServerModel, id: u64) -> ServerModel {
    ServerModel { conns: m.conns.remove(m_idx(m, id)), ..m }
}

/// The decision taken on one write attempt of the greeting of
/// `msg_len` bytes: a short write is a framing violation and closes
/// the connection, a full write drops writable interest, would-block
/// waits for the next writable event, an interrupt retries at once,
/// anything else closes the connection as failed.
pub open spec fn write_decision(r: WriteResult, msg_len: usize) -> WriteStep {
    match r {
        WriteResult::Wrote(n) => if n < msg_len {
            WriteStep::Close
        } else {
            WriteStep::Downgrade
        },
        WriteResult::Failed(k) => match k {
            ErrKind::WouldBlock => WriteStep::AwaitWritable,
            ErrKind::Interrupted => WriteStep::RetryWrite,
            ErrKind::Other => WriteStep::Close,
        },
    }
}

/// A tracked identifier has a position that holds it.
pub proof fn lemma_idx_props(m: ServerModel, id: u64)
    requires
        m_has(m, id),
    ensures
        0 <= m_idx(m, id) < m.conns.len(),
        m.conns[m_idx(m, id)].id == id,
{
}

/// Under the invariant the position of a tracked identifier is unique.
pub proof fn lemma_idx_unique(m: ServerModel, id: u64, i: int)
    requires
        m_inv(m),
        0 <= i < m.conns.len(),
        m.conns[i].id == id,
    ensures
        i == m_idx(m, id),
{
    assert(m_has(m, id));
    lemma_idx_props(m, id);
    let k = m_idx(m, id);
    if i < k {
        assert(m.conns[i].id != m.conns[k].id);
    } else if k < i {
        assert(m.conns[k].id != m.conns[i].id);
    }
}

/// What one accept does to the model: the invariant is preserved, the
/// assigned identifier is fresh, and every existing connection keeps
/// its place and phase.
pub proof fn lemma_accept_props(m: ServerModel)
    requires
        m_inv(m),
        m.next_id < u64::MAX,
    ensures
        m_inv(m_accept(m)),
        !m_has(m, m.next_id),
        m_has(m_accept(m), m.next_id),
        m_phase(m_accept(m), m.next_id) is AwaitingGreeting,
        forall|x: u64|
            #[trigger] m_has(m_accept(m), x) == (m_has(m, x) || x == m.next_id),
        forall|x: u64|
            x != m.next_id && m_has(m, x) ==> #[trigger] m_phase(m_accept(m), x) == m_phase(m, x),
        m_accept(m).next_id == m.next_id + 1,
        m_accept(m).assigned == m.assigned.push(m.next_id),
        m_accept(m).conns.len() == m.conns.len() + 1,
{
    let m2 = m_accept(m);
    let len = m.conns.len() as int;
    assert(m2.conns[len].id == m.next_id);
    assert(m_has(m2, m.next_id));
    assert forall|i: int| 0 <= i < m2.conns.len() implies LISTENER_ID < #[trigger] m2.conns[i].id
        < m2.next_id by {
        if i < len {
            assert(m.conns[i].id < m.next_id);
        }
    }
    assert forall|i: int| 0 <= i < m2.assigned.len() implies #[trigger] m2.assigned[i]
        < m2.next_id by {
        if i < m.assigned.len() {
            assert(m.assigned[i] < m.next_id);
        }
    }
    assert forall|i: int, j: int| 0 <= i < j < m2.assigned.len() implies #[trigger] m2.assigned[i]
        < #[trigger] m2.assigned[j] by {
        if j < m.assigned.len() {
        } else {
            assert(m2.assigned[j] == m.next_id);
            assert(m.assigned[i] < m.next_id);
        }
    }
    assert forall|i: int| 0 <= i < m2.conns.len() implies m2.assigned.contains(
        #[trigger] m2.conns[i].id,
    ) by {
        if i < len {
            let w = choose|w: int|
                0 <= w < m.assigned.len() && m.assigned[w] == m.conns[i].id;
            assert(m2.assigned[w] == m2.conns[i].id);
        } else {
            assert(m2.assigned[m.assigned.len() as int] == m.next_id);
        }
    }
    assert(m_inv(m2));
    lemma_idx_unique(m2, m.next_id, len);
    assert forall|x: u64| #[trigger] m_has(m2, x) == (m_has(m, x) || x == m.next_id) by {
        if m_has(m2, x) {
            let i = m_idx(m2, x);
            lemma_idx_props(m2, x);
            if i < len {
                assert(m.conns[i].id == x);
                assert(m_has(m, x));
            }
        }
        if m_has(m, x) {
            let i = m_idx(m, x);
            lemma_idx_props(m, x);
            assert(m2.conns[i].id == x);
            assert(m_has(m2, x));
        }
        if x == m.next_id {
            assert(m_has(m2, x));
        }
    }
    assert forall|x: u64| x != m.next_id && m_has(m, x) implies #[trigger] m_phase(m2, x)
        == m_phase(m, x) by {
        let i = m_idx(m, x);
        lemma_idx_props(m, x);
        assert(m2.conns[i].id == x);
        assert(m_has(m2, x));
        lemma_idx_unique(m2, x, i);
        lemma_idx_unique(m, x, i);
    }
}

/// What dropping writable interest does to the model: the invariant is
/// preserved, exactly the named connection moves to `Established`, and
/// every other connection keeps its place and phase.
pub proof fn lemma_downgrade_props(m: ServerModel, id: u64)
    requires
        m_inv(m),
        m_has(m, id),
    ensures
        m_inv(m_downgrade(m, id)),
        forall|x: u64| #[trigger] m_has(m_downgrade(m, id), x) == m_has(m, x),
        m_phase(m_downgrade(m, id), id) is Established,
        forall|x: u64|
            x != id && m_has(m, x) ==> #[trigger] m_phase(m_downgrade(m, id), x) == m_phase(m, x),
        m_downgrade(m, id).next_id == m.next_id,
        m_downgrade(m, id).assigned == m.assigned,
        m_downgrade(m, id).conns.len() == m.conns.len(),
{
    lemma_idx_props(m, id);
    let k = m_idx(m, id);
    let m2 = m_downgrade(m, id);
    assert forall|i: int| 0 <= i < m2.conns.len() implies #[trigger] m2.conns[i].id
        == m.conns[i].id by {}
    assert(m_inv(m2));
    assert forall|x: u64| #[trigger] m_has(m2, x) == m_has(m, x) by {
        if m_has(m2, x) {
            let i = m_idx(m2, x);
            lemma_idx_props(m2, x);
            assert(m.conns[i].id == x);
        }
        if m_has(m, x) {
            let i = m_idx(m, x);
            lemma_idx_props(m, x);
            assert(m2.conns[i].id == x);
        }
    }
    lemma_idx_unique(m2, id, k);
    assert forall|x: u64| x != id && m_has(m, x) implies #[trigger] m_phase(m2, x)
        == m_phase(m, x) by {
        let i = m_idx(m, x);
        lemma_idx_props(m, x);
        assert(m2.conns[i].id == x);
        lemma_idx_unique(m2, x, i);
        assert(i != k);
    }
}

/// What removal does to the model: the invariant is preserved, the
/// named identifier is no longer tracked, and every other connection
/// survives with its phase; nothing about one connection's exit
/// touches another.
pub proof fn lemma_remove_props(m: ServerModel, id: u64)
    requires
        m_inv(m),
        m_has(m, id),
    ensures
        m_inv(m_remove(m, id)),
        !m_has(m_remove(m, id), id),
        forall|x: u64|
            x != id ==> #[trigger] m_has(m_remove(m, id), x) == m_has(m, x),
        forall|x: u64|
            x != id && m_has(m, x) ==> #[trigger] m_phase(m_remove(m, id), x) == m_phase(m, x),
        m_remove(m, id).next_id == m.next_id,
        m_remove(m, id).assigned == m.assigned,
        m_remove(m, id).conns.len() == m.conns.len() - 1,
{
    lemma_idx_props(m, id);
    let k = m_idx(m, id);
    let m2 = m_remove(m, id);
    // Each surviving position comes from one old position on the other
    // side of the removed one.
    assert forall|i: int| 0 <= i < m2.conns.len() implies #[trigger] m2.conns[i] == (if i < k {
        m.conns[i]
    } else {
        m.conns[i + 1]
    }) by {}
    assert forall|i: int, j: int| 0 <= i < j < m2.conns.len() implies #[trigger] m2.conns[i].id
        != #[trigger] m2.conns[j].id by {
        let oi: int = if i < k { i } else { i + 1 };
        let oj: int = if j < k { j } else { j + 1 };
        assert(m.conns[oi].id != m.conns[oj].id);
    }
    assert(m_inv(m2));
    assert forall|x: u64| x != id && m_has(m, x) implies m_has(m2, x) by {
        let i = m_idx(m, x);
        lemma_idx_props(m, x);
        assert(i != k);
        let i2: int = if i < k { i } else { i - 1 };
        assert(m2.conns[i2].id == x);
    }
    assert(!m_has(m2, id)) by {
        if m_has(m2, id) {
            let i = m_idx(m2, id);
            lemma_idx_props(m2, id);
            let oi: int = if i < k { i } else { i + 1 };
            assert(m.conns[oi].id == id);
            lemma_idx_unique(m, id, oi);
        }
    }
    assert forall|x: u64| x != id && m_has(m2, x) implies m_has(m, x) && m_phase(m2, x)
        == m_phase(m, x) by {
        let i = m_idx(m2, x);
        lemma_idx_props(m2, x);
        let oi: int = if i < k { i } else { i + 1 };
        assert(m.conns[oi].id == x);
        assert(m_has(m, x));
        lemma_idx_unique(m, x, oi);
        assert(m2.conns[i].phase == m.conns[oi].phase);
    }
}

/// The identifier-keyed tracking of one server run.  `connections`
/// plays the connection map: each entry is keyed by its `id` field and
/// ids never repeat.  `assigned` is the history of every identifier
/// handed out, kept for reasoning only.
pub struct ConnectionManager {
    pub connections: Vec<Connection>,
    pub next_id: u64,
    pub assigned: Ghost<Seq<u64>>,
}

impl ConnectionManager {
    /// The manager as its mathematical model.
    pub open spec fn model(self) -> ServerModel {
        ServerModel {
            conns: self.connections@,
            next_id: self.next_id,
            assigned: self.assigned@,
        }
    }

    /// The bookkeeping invariant.
    pub open spec fn inv(self) -> bool {
        m_inv(self.model())
    }

    /// Whether an identifier is currently tracked.
    pub open spec fn has_conn(self, id: u64) -> bool {
        m_has(self.model(), id)
    }

    /// The phase of a tracked connection.
    pub open spec fn phase_of(self, id: u64) -> ConnPhase {
        m_phase(self.model(), id)
    }

    /// A manager for a fresh run: no connections, the first client
    /// identifier is 1, and nothing has been assigned yet.
    pub fn new() -> (mgr: ConnectionManager)
        ensures
            mgr.inv(),
            mgr.model().conns.len() == 0,
            mgr.model().next_id == 1,
            mgr.model().assigned.len() == 0,
            mgr.model() == crate::lifecycle::init_model(),
    {
        let mgr = ConnectionManager {
            connections: Vec::new(),
            next_id: 1,
            assigned: Ghost(Seq::empty()),
        };
        proof {
            assert(mgr.model() =~= crate::lifecycle::init_model());
        }
        mgr
    }

    /// One successful accept: assign the next identifier — fresh, never
    /// used before in this run — record the connection as awaiting its
    /// greeting, and advance the counter.  The event loop registers the
    /// new socket under the returned identifier with both interests.
    pub fn accept_one(&mut self) -> (id: u64)
        requires
            old(self).inv(),
            old(self).next_id < u64::MAX,
        ensures
            final(self).inv(),
            id == old(self).next_id,
            !old(self).has_conn(id),
            final(self).has_conn(id),
            final(self).phase_of(id) is AwaitingGreeting,
            final(self).model() == m_accept(old(self).model()),
            forall|x: u64|
                #[trigger] final(self).has_conn(x) == (old(self).has_conn(x)
                    || x == old(self).next_id),
            forall|x: u64|
                x != old(self).next_id && old(self).has_conn(x)
                    ==> #[trigger] final(self).phase_of(x) == old(self).phase_of(x),
    {
        let id = self.next_id;
        self.next_id = self.next_id + 1;
        self.connections.push(Connection { id, phase: ConnPhase::AwaitingGreeting });
        proof {
            self.assigned@ = self.assigned@.push(id);
            lemma_accept_props(old(self).model());
            assert(self.model() =~= m_accept(old(self).model()));
        }
        id
    }

    /// Linear scan for the position of an identifier.
    fn find_index(&self, id: u64) -> (r: Option<usize>)
        ensures
            match r {
                Some(i) => 0 <= i < self.connections@.len() && self.connections@[i as int].id
                    == id,
                None => !self.has_conn(id),
            },
    {
        let mut i: usize = 0;
        while i < self.connections.len()
            invariant
                i <= self.connections@.len(),
                forall|j: int| 0 <= j < i ==> #[trigger] self.connections@[j].id != id,
            decreases self.connections@.len() - i,
        {
            if self.connections[i].id == id {
                return Some(i);
            }
            i = i + 1;
        }
        None
    }

    /// Decide one write attempt of the greeting for a connection that
    /// still owes it.  A full write drops writable interest — the
    /// connection moves to `Established` and the event loop
    /// reregisters it readable-only; every other outcome leaves the
    /// manager untouched and the returned step says whether to wait,
    /// retry at once, or close the connection.
    pub fn handle_writable(&mut self, id: u64, result: &WriteResult, msg_len: usize) -> (step:
        WriteStep)
        requires
            old(self).inv(),
            old(self).has_conn(id),
            old(self).phase_of(id) is AwaitingGreeting,
        ensures
            final(self).inv(),
            step == write_decision(*result, msg_len),
            step is Downgrade ==> final(self).model() == m_downgrade(old(self).model(), id),
            step is Downgrade ==> final(self).has_conn(id) && final(self).phase_of(id)
                is Established,
            !(step is Downgrade) ==> *final(self) == *old(self),
            forall|x: u64| #[trigger] final(self).has_conn(x) == old(self).has_conn(x),
            forall|x: u64|
                x != id && old(self).has_conn(x)
                    ==> #[trigger] final(self).phase_of(x) == old(self).phase_of(x),
    {
        match *result {
            WriteResult::Wrote(n) => {
                if n < msg_len {
                    WriteStep::Close
                } else {
                    match self.find_index(id) {
                        Some(i) => {
                            self.connections[i] = Connection {
                                id,
                                phase: ConnPhase::Established,
                            };
                            proof {
                                lemma_idx_unique(old(self).model(), id, i as int);
                                lemma_downgrade_props(old(self).model(), id);
                                assert(self.model() =~= m_downgrade(old(self).model(), id));
                            }
                            WriteStep::Downgrade
                        },
                        None => {
                            proof {
                                assert(false);
                            }
                            WriteStep::Close
                        },
                    }
                }
            },
            WriteResult::Failed(k) => match k {
                ErrKind::WouldBlock => WriteStep::AwaitWritable,
                ErrKind::Interrupted => WriteStep::RetryWrite,
                ErrKind::Other => WriteStep::Close,
            },
        }
    }

    /// The unique exit point of a connection's lifecycle: take the
    /// identifier out of the map.  The event loop deregisters the
    /// source in the same step and then releases the socket; the
    /// identifier stays dead for the rest of the run, and no other
    /// connection is affected.
    pub fn close_connection(&mut self, id: u64)
        requires
            old(self).inv(),
            old(self).has_conn(id),
        ensures
            final(self).inv(),
            !final(self).has_conn(id),
            final(self).model() == m_remove(old(self).model(), id),
            forall|x: u64|
                x != id ==> #[trigger] final(self).has_conn(x) == old(self).has_conn(x),
            forall|x: u64|
                x != id && old(self).has_conn(x)
                    ==> #[trigger] final(self).phase_of(x) == old(self).phase_of(x),
    {
        match self.find_index(id) {
            Some(i) => {
                self.connections.remove(i);
                proof {
                    lemma_idx_unique(old(self).model(), id, i as int);
                    lemma_remove_props(old(self).model(), id);
                    assert(self.model() =~= m_remove(old(self).model(), id));
                }
            },
            None => {
                proof {
                    assert(false);
                }
            },
        }
    }

    /// Whether a connection still owes its greeting.  The writable
    /// phase of event handling runs exactly while this holds, which is
    /// also exactly while writable interest is registered.
    pub fn wants_greeting(&self, id: u64) -> (w: bool)
        requires
            self.inv(),
        ensures
            w == (self.has_conn(id) && self.phase_of(id) is AwaitingGreeting),
    {
        match self.find_index(id) {
            Some(i) => {
                proof {
                    assert(self.connections@[i as int].id == id);
                    lemma_idx_unique(self.model(), id, i as int);
                }
                match self.connections[i].phase {
                    ConnPhase::AwaitingGreeting => true,
                    ConnPhase::Established => false,
                }
            },
            None => false,
        }
    }

    /// Route one delivered readiness event by its identifier: the
    /// reserved listener identifier takes the accept path, a live
    /// connection takes the per-connection path, and an identifier
    /// absent from the map — a stale event — is ignored entirely.
    pub fn route_event(&self, id: u64) -> (r: EventRoute)
        ensures
            (r is AcceptPath) == (id == LISTENER_ID),
            (r is ConnectionPath) == (id != LISTENER_ID && self.has_conn(id)),
            (r is Ignore) == (id != LISTENER_ID && !self.has_conn(id)),
    {
        if id == LISTENER_ID {
            EventRoute::AcceptPath
        } else if self.event_is_live(id) {
            EventRoute::ConnectionPath
        } else {
            EventRoute::Ignore
        }
    }

    /// Whether a delivered event's identifier still names a live
    /// connection.  Every per-connection event must pass this check
    /// before it is acted on: an identifier removed from the map stays
    /// dead for the rest of the run.
    pub fn event_is_live(&self, id: u64) -> (live: bool)
        ensures
            live == self.has_conn(id),
    {
        match self.find_index(id) {
            Some(i) => {
                proof {
                    assert(self.connections@[i as int].id == id);
                }
                true
            },
            None => false,
        }
    }
}

} // verus!
