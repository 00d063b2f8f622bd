//! The per-session byte-stream state machine.
//!
//! A live session owns one upstream TCP connection, bridged to the
//! request path by two bounded chunk queues and two workers. The queues,
//! sockets and waits live outside the library; this module holds the
//! session's one piece of state — the monotonic closed flag — and every
//! decision the session takes on it, as functions from state and event
//! to next state and result.

use vstd::prelude::*;

use crate::errors::NeoError;

verus! {

/// The capacity, in chunks, of each of a session's two queues.
pub const CHANNEL_CAPACITY: usize = 1024;

/// The upstream read buffer size, and so the largest chunk a reader
/// worker pushes at once.
pub const BUFFER_SIZE: usize = 1024;

/// The ceiling, in milliseconds, on waiting for fresh data in a read.
pub const TIMEOUT_MS: u64 = 10;

/// The bytes of `"Send failed"`.
pub open spec fn send_failed_text() -> Seq<u8> {
    seq![83u8, 101u8, 110u8, 100u8, 32u8, 102u8, 97u8, 105u8, 108u8, 101u8, 100u8]
}

fn send_failed_vec() -> (r: Vec<u8>)
    ensures
        r@ == send_failed_text(),
{
    let mut v: Vec<u8> = Vec::new();
    v.push(83);
    v.push(101);
    v.push(110);
    v.push(100);
    v.push(32);
    v.push(102);
    v.push(97);
    v.push(105);
    v.push(108);
    v.push(101);
    v.push(100);
    proof {
        assert(v@ =~= send_failed_text());
    }
    v
}

/// What the bounded wait of a read produced.
pub enum ReadWait {
    /// A fresh chunk arrived within the window.
    Chunk(Vec<u8>),
    /// The read outbox closed during the wait.
    ChannelClosed,
    /// The window elapsed with nothing.
    TimedOut,
    /// No wait took place: chunks were already drained, or the session
    /// was closed at snapshot time.
    NotAwaited,
}

/// What one upstream read handed the reader worker.
pub enum ReaderEvent {
    /// Fresh bytes arrived.
    Data,
    /// The upstream closed cleanly.
    Eof,
    /// The upstream read failed.
    IoError,
}

/// The verified core of a session: its closed flag.
///
/// The flag moves one way. Every transition below keeps a closed session
/// closed; nothing reopens one.
pub struct Session {
    closed: bool,
}

impl Session {
    /// Whether the session is closed.
    pub closed spec fn view(&self) -> bool {
        self.closed
    }

    /// A fresh session over a just-connected upstream: open.
    pub fn new() -> (r: Session)
        ensures
            !r@,
    {
        Session { closed: false }
    }

    /// Marks the session closed. There is no way back.
    pub fn close(&mut self)
        ensures
            final(self)@,
    {
        self.closed = true;
    }

    /// The current closed flag.
    pub fn is_closed(&self) -> (r: bool)
        ensures
            r == self@,
    {
        self.closed
    }

    /// A write attempt. On a closed session it fails with
    /// `SessionClosed` before anything is sent. On an open one the
    /// caller has offered the chunk to the write inbox and reports
    /// whether the hand-off worked: success accepts the write without
    /// waiting for the wire; a failed hand-off closes the session and
    /// fails with `"Send failed"`.
    pub fn write_async(&mut self, send_ok: bool) -> (r: Result<(), NeoError>)
        ensures
            old(self)@ ==> final(self)@ && (r matches Err(e) && e is SessionClosed),
            !old(self)@ && send_ok ==> !final(self)@ && r is Ok,
            !old(self)@ && !send_ok ==> final(self)@ && (r matches Err(e) && e matches
                NeoError::Other(m) && m@ == send_failed_text()),
    {
        if self.closed {
            return Err(NeoError::SessionClosed);
        }
        if send_ok {
            Ok(())
        } else {
            self.closed = true;
            Err(NeoError::Other(send_failed_vec()))
        }
    }

    /// A read. The caller has drained every chunk already buffered into
    /// `drained`; only when that was empty and the snapshot said open
    /// has it then waited (up to [`TIMEOUT_MS`]) for one more chunk,
    /// reporting the wait's outcome in `wait`.
    ///
    /// A chunk that arrived is returned; a wait that timed out returns
    /// empty bytes with the session untouched (an idle open session is
    /// not an error); a queue that closed during the wait closes the
    /// session and fails with `SessionClosed`; and a session that was
    /// already closed fails with `SessionClosed` once its buffer is
    /// drained dry, but still hands out what was buffered.
    pub fn read_async(&mut self, drained: Vec<u8>, wait: ReadWait) -> (r: Result<Vec<u8>, NeoError>)
        requires
            (wait is NotAwaited) <==> (drained@.len() > 0 || old(self)@),
        ensures
            match wait {
                ReadWait::Chunk(c) => *final(self) == *old(self) && (r matches Ok(v) && v@ == c@),
                ReadWait::ChannelClosed => final(self)@ && (r matches Err(e)
                    && e is SessionClosed),
                ReadWait::TimedOut => *final(self) == *old(self) && (r matches Ok(v) && v@.len()
                    == 0),
                ReadWait::NotAwaited => *final(self) == *old(self) && if drained@.len() == 0 {
                    r matches Err(e) && e is SessionClosed
                } else {
                    r matches Ok(v) && v@ == drained@
                },
            },
    {
        match wait {
            ReadWait::Chunk(c) => Ok(c),
            ReadWait::ChannelClosed => {
                self.closed = true;
                Err(NeoError::SessionClosed)
            },
            ReadWait::TimedOut => {
                let empty: Vec<u8> = Vec::new();
                Ok(empty)
            },
            ReadWait::NotAwaited => {
                if drained.len() == 0 {
                    Err(NeoError::SessionClosed)
                } else {
                    Ok(drained)
                }
            },
        }
    }

    /// One reader-worker turn: fresh bytes were pushed toward the read
    /// outbox with the reported outcome; EOF, an upstream error or a
    /// failed push closes the session and ends the worker.
    pub fn reader_step(&mut self, ev: ReaderEvent, push_ok: bool) -> (cont: bool)
        ensures
            ev is Data && push_ok ==> cont && *final(self) == *old(self),
            ev is Data && !push_ok ==> !cont && final(self)@,
            (ev is Eof || ev is IoError) ==> !cont && final(self)@,
    {
        match ev {
            ReaderEvent::Data => {
                if push_ok {
                    true
                } else {
                    self.closed = true;
                    false
                }
            },
            ReaderEvent::Eof => {
                self.closed = true;
                false
            },
            ReaderEvent::IoError => {
                self.closed = true;
                false
            },
        }
    }

    /// One writer-worker turn. An inbox that has closed ends the worker
    /// quietly; a session found closed ends it without writing; a
    /// chunk written with the reported outcome either continues the
    /// loop or, on failure, closes the session and ends it.
    pub fn writer_step(&mut self, popped: bool, write_ok: bool) -> (cont: bool)
        ensures
            !popped ==> !cont && *final(self) == *old(self),
            popped && old(self)@ ==> !cont && final(self)@,
            popped && !old(self)@ && write_ok ==> cont && !final(self)@,
            popped && !old(self)@ && !write_ok ==> !cont && final(self)@,
    {
        if !popped {
            return false;
        }
        if self.closed {
            return false;
        }
        if write_ok {
            true
        } else {
            self.closed = true;
            false
        }
    }
}

} // verus!
