use greeter::buffer::{ReadBuffer, GROWTH_INCREMENT, INITIAL_CAPACITY};
use greeter::events::{ErrKind, ReadOutcome, ReadStep, WriteResult, WriteStep};
use greeter::manager::{ConnPhase, ConnectionManager};

#[test]
fn fresh_buffer_shape() {
    let buf = ReadBuffer::new();
    assert_eq!(buf.filled, 0);
    assert_eq!(buf.bytes.len(), INITIAL_CAPACITY);
    assert_eq!(INITIAL_CAPACITY, 4096);
    assert_eq!(GROWTH_INCREMENT, 1024);
    assert!(buf.bytes.iter().all(|b| *b == 0));
}

#[test]
fn data_advances_cursor() {
    let mut buf = ReadBuffer::new();
    let step = buf.apply_read(&ReadOutcome::Data(10));
    assert_eq!(step, ReadStep::Continue);
    assert_eq!(buf.filled, 10);
    assert_eq!(buf.bytes.len(), INITIAL_CAPACITY);
}

#[test]
fn full_buffer_grows_by_fixed_increment() {
    // More data than the initial capacity: the buffer grows 1024 bytes
    // at a time, exactly when it becomes full.
    let mut buf = ReadBuffer::new();
    buf.apply_read(&ReadOutcome::Data(4096));
    assert_eq!(buf.filled, 4096);
    assert_eq!(buf.bytes.len(), 4096 + 1024);
    buf.apply_read(&ReadOutcome::Data(1024));
    assert_eq!(buf.filled, 5120);
    assert_eq!(buf.bytes.len(), 4096 + 2 * 1024);
    buf.apply_read(&ReadOutcome::Data(100));
    assert_eq!(buf.filled, 5220);
    assert_eq!(buf.bytes.len(), 4096 + 2 * 1024);
}

#[test]
fn growth_preserves_received_bytes() {
    // Bytes already read survive every growth step.
    let mut buf = ReadBuffer::new();
    for i in 0..buf.bytes.len() {
        buf.bytes[i] = (i % 251) as u8;
    }
    buf.apply_read(&ReadOutcome::Data(4096));
    assert_eq!(buf.bytes.len(), 5120);
    for i in 0..4096 {
        assert_eq!(buf.bytes[i], (i % 251) as u8);
    }
    // The appended region is fresh and zeroed.
    for i in 4096..5120 {
        assert_eq!(buf.bytes[i], 0);
    }
}

#[test]
fn eof_marks_finished() {
    let mut buf = ReadBuffer::new();
    buf.apply_read(&ReadOutcome::Data(3));
    let step = buf.apply_read(&ReadOutcome::Eof);
    assert_eq!(step, ReadStep::Finished);
    // The payload read before the end of stream is still there.
    assert_eq!(buf.filled, 3);
}

#[test]
fn would_block_stops_drain() {
    let mut buf = ReadBuffer::new();
    let step = buf.apply_read(&ReadOutcome::Failed(ErrKind::WouldBlock));
    assert_eq!(step, ReadStep::Stop);
    assert_eq!(buf.filled, 0);
}

#[test]
fn interrupted_read_continues() {
    let mut buf = ReadBuffer::new();
    let step = buf.apply_read(&ReadOutcome::Failed(ErrKind::Interrupted));
    assert_eq!(step, ReadStep::Continue);
    assert_eq!(buf.filled, 0);
}

#[test]
fn failed_read_closes() {
    let mut buf = ReadBuffer::new();
    let step = buf.apply_read(&ReadOutcome::Failed(ErrKind::Other));
    assert_eq!(step, ReadStep::Close);
}

#[test]
fn greeting_then_ping_then_close() {
    // Whole-lifecycle walk: the client connects, the server sends its
    // 15-byte greeting in full and downgrades, the client sends
    // "ping", then closes its write side; the server reads the text,
    // sees end of stream on the next readable event, and removes the
    // connection.
    let greeting: &[u8] = b"Hello from mio\n";
    let mut mgr = ConnectionManager::new();
    let id = mgr.accept_one();

    let step = mgr.handle_writable(id, &WriteResult::Wrote(greeting.len()), greeting.len());
    assert_eq!(step, WriteStep::Downgrade);
    assert_eq!(mgr.connections[0].phase, ConnPhase::Established);

    // First readable event: "ping" arrives, then the socket would
    // block.
    let mut buf = ReadBuffer::new();
    let payload = b"ping";
    for (i, b) in payload.iter().enumerate() {
        buf.bytes[buf.filled + i] = *b;
    }
    assert_eq!(buf.apply_read(&ReadOutcome::Data(payload.len())), ReadStep::Continue);
    assert_eq!(buf.apply_read(&ReadOutcome::Failed(ErrKind::WouldBlock)), ReadStep::Stop);
    assert_eq!(&buf.bytes[..buf.filled], b"ping");
    assert!(mgr.event_is_live(id));

    // Second readable event: zero bytes — end of stream.
    let mut buf2 = ReadBuffer::new();
    assert_eq!(buf2.apply_read(&ReadOutcome::Eof), ReadStep::Finished);
    mgr.close_connection(id);
    assert!(!mgr.event_is_live(id));
    assert_eq!(mgr.connections.len(), 0);
}
