//! Plain-value descriptions of socket-operation outcomes, and the
//! decisions the server takes on each of them.

use vstd::prelude::*;

verus! {

/// The kind of a failed non-blocking socket operation.  The two
/// retryable kinds are not errors semantically: they drive the
/// readiness-retry and immediate-retry control flow.  Every other
/// failure is folded into `Other`.
#[derive(Clone, Copy, Debug, PartialEq, Eq, Structural)]
pub enum ErrKind {
    WouldBlock,
    Interrupted,
    Other,
}

/// What one attempt to write the greeting returned.
#[derive(Clone, Copy, Debug, PartialEq, Eq, Structural)]
pub enum WriteResult {
    /// The transport accepted this many bytes.
    Wrote(usize),
    /// The write failed with the given kind.
    Failed(ErrKind),
}

/// What one attempt to read into the buffer's unfilled tail returned.
#[derive(Clone, Copy, Debug, PartialEq, Eq, Structural)]
pub enum ReadOutcome {
    /// The transport delivered this many bytes (at least one).
    Data(usize),
    /// A read of zero bytes: the peer shut its write side down.
    Eof,
    /// The read failed with the given kind.
    Failed(ErrKind),
}

/// The action the event loop must take after one write attempt.
#[derive(Clone, Copy, Debug, PartialEq, Eq, Structural)]
pub enum WriteStep {
    /// The whole greeting went out: reregister with readable interest
    /// only, dropping writable.
    Downgrade,
    /// The transport would block: leave interests unchanged and wait
    /// for the next writable event.
    AwaitWritable,
    /// The write was interrupted: attempt the same write again now.
    RetryWrite,
    /// Fatal for this connection: deregister it, remove it from the
    /// map and release the socket.
    Close,
}

/// The action the event loop must take after one read attempt.
#[derive(Clone, Copy, Debug, PartialEq, Eq, Structural)]
pub enum ReadStep {
    /// Keep draining: bytes arrived, or the read was interrupted.
    Continue,
    /// The socket would block: it is drained for this event.
    Stop,
    /// End of stream: the connection is finished and must be closed.
    Finished,
    /// Fatal for this connection: close it as failed.
    Close,
}

/// The decision on an accept attempt that failed.
#[derive(Clone, Copy, Debug, PartialEq, Eq, Structural)]
pub enum AcceptDecision {
    /// Would block: no connection is pending any more, the drain is
    /// complete.
    StopDraining,
    /// Anything else is fatal for the whole server: a broken listening
    /// source cannot heal itself.
    FatalServer,
}

/// The decision on a failed accept: only would-block ends the drain
/// loop normally; every other failure stops the server.
pub open spec fn accept_error_decision(k: ErrKind) -> AcceptDecision {
    if k is WouldBlock {
        AcceptDecision::StopDraining
    } else {
        AcceptDecision::FatalServer
    }
}

/// Decide what a failed accept means for the accept drain loop.
pub fn on_accept_error(err: &ErrKind) -> (d: AcceptDecision)
    ensures
        d == accept_error_decision(*err),
{
    match err {
        ErrKind::WouldBlock => AcceptDecision::StopDraining,
        _ => AcceptDecision::FatalServer,
    }
}

/// True exactly on the would-block kind: the operation cannot complete
/// now and should be retried once the source reports ready again.
pub fn would_block(err: &ErrKind) -> (b: bool)
    ensures
        b == (*err is WouldBlock),
{
    match err {
        ErrKind::WouldBlock => true,
        _ => false,
    }
}

/// True exactly on the interrupted kind: the operation was cut short by
/// a signal and should be retried immediately at the same call site.
pub fn interrupted(err: &ErrKind) -> (b: bool)
    ensures
        b == (*err is Interrupted),
{
    match err {
        ErrKind::Interrupted => true,
        _ => false,
    }
}

} // verus!
