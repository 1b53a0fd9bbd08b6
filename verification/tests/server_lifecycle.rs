use greeter::events::{AcceptDecision, ErrKind, WriteResult, WriteStep};
use greeter::events::{interrupted, on_accept_error, would_block};
use greeter::manager::{interest_set_for, ConnPhase, ConnectionManager, EventRoute, LISTENER_ID};

const MSG_LEN: usize = 15;

#[test]
fn accept_drains_all_pending() {
    // Three connections pending behind one listener event: the drain
    // loop accepts every one of them before it stops.
    let mut mgr = ConnectionManager::new();
    let a = mgr.accept_one();
    let b = mgr.accept_one();
    let c = mgr.accept_one();
    assert_eq!(a, 1);
    assert_eq!(b, 2);
    assert_eq!(c, 3);
    assert!(mgr.event_is_live(1));
    assert!(mgr.event_is_live(2));
    assert!(mgr.event_is_live(3));
    assert_eq!(mgr.connections.len(), 3);
    // The drain stops only on would-block.
    assert_eq!(on_accept_error(&ErrKind::WouldBlock), AcceptDecision::StopDraining);
    assert_eq!(on_accept_error(&ErrKind::Interrupted), AcceptDecision::FatalServer);
    assert_eq!(on_accept_error(&ErrKind::Other), AcceptDecision::FatalServer);
}

#[test]
fn accepted_connection_starts_with_both_interests() {
    let mut mgr = ConnectionManager::new();
    let id = mgr.accept_one();
    assert_eq!(mgr.connections[0].id, id);
    assert_eq!(mgr.connections[0].phase, ConnPhase::AwaitingGreeting);
    let interests = interest_set_for(&mgr.connections[0].phase);
    assert!(interests.readable);
    assert!(interests.writable);
}

#[test]
fn write_then_downgrade() {
    // Once the full greeting is accepted, writable interest is gone.
    let mut mgr = ConnectionManager::new();
    let id = mgr.accept_one();
    let step = mgr.handle_writable(id, &WriteResult::Wrote(MSG_LEN), MSG_LEN);
    assert_eq!(step, WriteStep::Downgrade);
    assert_eq!(mgr.connections[0].phase, ConnPhase::Established);
    let interests = interest_set_for(&mgr.connections[0].phase);
    assert!(interests.readable);
    assert!(!interests.writable);
}

#[test]
fn overlong_write_count_also_downgrades() {
    let mut mgr = ConnectionManager::new();
    let id = mgr.accept_one();
    let step = mgr.handle_writable(id, &WriteResult::Wrote(MSG_LEN + 1), MSG_LEN);
    assert_eq!(step, WriteStep::Downgrade);
}

#[test]
fn partial_write_is_fatal() {
    // Fewer bytes accepted than the greeting: close, no retry.
    let mut mgr = ConnectionManager::new();
    let id = mgr.accept_one();
    let step = mgr.handle_writable(id, &WriteResult::Wrote(5), MSG_LEN);
    assert_eq!(step, WriteStep::Close);
    // The connection is still awaiting its greeting when the event
    // loop performs the close.
    assert_eq!(mgr.connections[0].phase, ConnPhase::AwaitingGreeting);
    mgr.close_connection(id);
    assert!(!mgr.event_is_live(id));
    assert_eq!(mgr.connections.len(), 0);
}

#[test]
fn zero_byte_write_is_fatal() {
    let mut mgr = ConnectionManager::new();
    let id = mgr.accept_one();
    let step = mgr.handle_writable(id, &WriteResult::Wrote(0), MSG_LEN);
    assert_eq!(step, WriteStep::Close);
}

#[test]
fn would_block_write_leaves_interests() {
    let mut mgr = ConnectionManager::new();
    let id = mgr.accept_one();
    let step = mgr.handle_writable(id, &WriteResult::Failed(ErrKind::WouldBlock), MSG_LEN);
    assert_eq!(step, WriteStep::AwaitWritable);
    assert_eq!(mgr.connections[0].phase, ConnPhase::AwaitingGreeting);
}

#[test]
fn interrupted_write_retries_at_once() {
    let mut mgr = ConnectionManager::new();
    let id = mgr.accept_one();
    let step = mgr.handle_writable(id, &WriteResult::Failed(ErrKind::Interrupted), MSG_LEN);
    assert_eq!(step, WriteStep::RetryWrite);
    // The retry runs against an unchanged connection.
    assert_eq!(mgr.connections[0].phase, ConnPhase::AwaitingGreeting);
}

#[test]
fn failed_write_closes_connection() {
    let mut mgr = ConnectionManager::new();
    let id = mgr.accept_one();
    let step = mgr.handle_writable(id, &WriteResult::Failed(ErrKind::Other), MSG_LEN);
    assert_eq!(step, WriteStep::Close);
}

#[test]
fn identifier_never_reused() {
    // Even when a connection closes before the next accept, its
    // identifier is gone for good.
    let mut mgr = ConnectionManager::new();
    let first = mgr.accept_one();
    assert_eq!(first, 1);
    mgr.close_connection(first);
    let second = mgr.accept_one();
    assert_eq!(second, 2);
    assert_ne!(first, second);
    mgr.close_connection(second);
    let third = mgr.accept_one();
    assert_eq!(third, 3);
}

#[test]
fn listener_identifier_reserved() {
    // Identifier 0 belongs to the listening source; client ids start
    // at 1.
    let mut mgr = ConnectionManager::new();
    let id = mgr.accept_one();
    assert_eq!(LISTENER_ID, 0);
    assert!(id > LISTENER_ID);
    assert!(!mgr.event_is_live(LISTENER_ID));
}

#[test]
fn stale_event_is_not_dispatched() {
    // After close-and-remove the identifier is absent from the map, so
    // a stale event for it fails the liveness check.
    let mut mgr = ConnectionManager::new();
    let id = mgr.accept_one();
    let other = mgr.accept_one();
    mgr.close_connection(id);
    assert!(!mgr.event_is_live(id));
    // No other connection is affected.
    assert!(mgr.event_is_live(other));
    assert_eq!(mgr.connections.len(), 1);
}

#[test]
fn events_route_by_identifier() {
    let mut mgr = ConnectionManager::new();
    let id = mgr.accept_one();
    assert_eq!(mgr.route_event(LISTENER_ID), EventRoute::AcceptPath);
    assert_eq!(mgr.route_event(id), EventRoute::ConnectionPath);
    // A stale identifier — closed, or never assigned — is ignored.
    mgr.close_connection(id);
    assert_eq!(mgr.route_event(id), EventRoute::Ignore);
    assert_eq!(mgr.route_event(77), EventRoute::Ignore);
    assert_eq!(mgr.route_event(LISTENER_ID), EventRoute::AcceptPath);
}

#[test]
fn retryable_kind_predicates() {
    assert!(would_block(&ErrKind::WouldBlock));
    assert!(!would_block(&ErrKind::Interrupted));
    assert!(!would_block(&ErrKind::Other));
    assert!(interrupted(&ErrKind::Interrupted));
    assert!(!interrupted(&ErrKind::WouldBlock));
    assert!(!interrupted(&ErrKind::Other));
}
