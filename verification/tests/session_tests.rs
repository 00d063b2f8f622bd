use neorelay::errors::NeoError;
use neorelay::session::{ReadWait, ReaderEvent, Session};

// Once closed, a session stays closed and a write fails with
// SessionClosed.
#[test]
fn close_is_final_and_rejects_writes() {
    let mut s = Session::new();
    assert!(!s.is_closed());
    s.close();
    assert!(s.is_closed());
    let r = s.write_async(true);
    assert!(matches!(r, Err(NeoError::SessionClosed)));
    assert!(s.is_closed());
    // further transitions keep it closed
    let r2 = s.read_async(Vec::new(), ReadWait::NotAwaited);
    assert!(matches!(r2, Err(NeoError::SessionClosed)));
    assert!(s.is_closed());
}

#[test]
fn write_on_open_session_is_accepted() {
    let mut s = Session::new();
    let r = s.write_async(true);
    assert!(r.is_ok());
    assert!(!s.is_closed());
}

#[test]
fn failed_queue_handoff_closes_the_session() {
    let mut s = Session::new();
    let r = s.write_async(false);
    match r {
        Err(NeoError::Other(m)) => assert_eq!(m, b"Send failed".to_vec()),
        other => panic!("unexpected result: {:?}", other.is_ok()),
    }
    assert!(s.is_closed());
}

// A read on an idle, open session comes back Ok and empty, and leaves
// the session open for future bytes.
#[test]
fn idle_read_returns_empty_ok() {
    let mut s = Session::new();
    let r = s.read_async(Vec::new(), ReadWait::TimedOut);
    assert_eq!(r.unwrap(), Vec::<u8>::new());
    assert!(!s.is_closed());
    // bytes arriving later are still delivered
    let r2 = s.read_async(b"later".to_vec(), ReadWait::NotAwaited);
    assert_eq!(r2.unwrap(), b"later".to_vec());
}

#[test]
fn read_returns_buffered_bytes() {
    let mut s = Session::new();
    let r = s.read_async(b"ping".to_vec(), ReadWait::NotAwaited);
    assert_eq!(r.unwrap(), b"ping".to_vec());
    assert!(!s.is_closed());
}

#[test]
fn read_returns_freshly_awaited_chunk() {
    let mut s = Session::new();
    let r = s.read_async(Vec::new(), ReadWait::Chunk(b"fresh".to_vec()));
    assert_eq!(r.unwrap(), b"fresh".to_vec());
    assert!(!s.is_closed());
}

#[test]
fn queue_closing_during_read_closes_the_session() {
    let mut s = Session::new();
    let r = s.read_async(Vec::new(), ReadWait::ChannelClosed);
    assert!(matches!(r, Err(NeoError::SessionClosed)));
    assert!(s.is_closed());
}

// A closed session still hands out what was buffered before failing
// further reads.
#[test]
fn closed_session_drains_buffer_then_fails() {
    let mut s = Session::new();
    s.close();
    let r = s.read_async(b"leftover".to_vec(), ReadWait::NotAwaited);
    assert_eq!(r.unwrap(), b"leftover".to_vec());
    let r2 = s.read_async(Vec::new(), ReadWait::NotAwaited);
    assert!(matches!(r2, Err(NeoError::SessionClosed)));
}

// Upstream EOF closes the session on the reader worker's next turn.
#[test]
fn reader_eof_closes_the_session() {
    let mut s = Session::new();
    let cont = s.reader_step(ReaderEvent::Data, true);
    assert!(cont);
    assert!(!s.is_closed());
    let cont2 = s.reader_step(ReaderEvent::Eof, true);
    assert!(!cont2);
    assert!(s.is_closed());
}

#[test]
fn reader_error_and_push_failure_close_the_session() {
    let mut s = Session::new();
    assert!(!s.reader_step(ReaderEvent::IoError, true));
    assert!(s.is_closed());

    let mut s2 = Session::new();
    assert!(!s2.reader_step(ReaderEvent::Data, false));
    assert!(s2.is_closed());
}

#[test]
fn writer_worker_steps() {
    // inbox closed: quiet exit, session untouched
    let mut s = Session::new();
    assert!(!s.writer_step(false, true));
    assert!(!s.is_closed());

    // healthy write: loop continues
    assert!(s.writer_step(true, true));
    assert!(!s.is_closed());

    // failed write: session closes, loop ends
    assert!(!s.writer_step(true, false));
    assert!(s.is_closed());

    // closed session: exit without writing
    let mut s2 = Session::new();
    s2.close();
    assert!(!s2.writer_step(true, true));
    assert!(s2.is_closed());
}
