use vstd::prelude::*;

verus! {

/// The errors surfaced by the relay core.
///
/// Message payloads are carried as raw bytes, since every place they end up
/// (the `Error` field of a reply frame) is a byte string.
#[derive(Debug)]
pub enum NeoError {
    /// An upstream network failure, carrying the stringified OS error.
    Io(Vec<u8>),
    /// An operation was attempted on a terminated session.
    SessionClosed,
    /// The payload was not structurally valid obfuscated base64.
    Base64Decode,
    /// Any other failure, carrying a human-readable description.
    Other(Vec<u8>),
}

/// The bytes of `"IO error: "`.
pub open spec fn io_error_prefix() -> Seq<u8> {
    seq![73u8, 79u8, 32u8, 101u8, 114u8, 114u8, 111u8, 114u8, 58u8, 32u8]
}

/// The bytes of `"Session is closed"`.
pub open spec fn session_closed_text() -> Seq<u8> {
    seq![
        83u8, 101u8, 115u8, 115u8, 105u8, 111u8, 110u8, 32u8, 105u8, 115u8, 32u8, 99u8, 108u8,
        111u8, 115u8, 101u8, 100u8,
    ]
}

/// The bytes of `"Base64 decode error"`.
pub open spec fn base64_decode_text() -> Seq<u8> {
    seq![
        66u8, 97u8, 115u8, 101u8, 54u8, 52u8, 32u8, 100u8, 101u8, 99u8, 111u8, 100u8, 101u8,
        32u8, 101u8, 114u8, 114u8, 111u8, 114u8,
    ]
}

/// The bytes of `"Error: "`.
pub open spec fn other_prefix() -> Seq<u8> {
    seq![69u8, 114u8, 114u8, 111u8, 114u8, 58u8, 32u8]
}

/// The human-readable description of an error, as it is placed in the
/// `Error` field of a failure reply.
pub open spec fn error_message_spec(e: &NeoError) -> Seq<u8> {
    match e {
        NeoError::Io(m) => io_error_prefix() + m@,
        NeoError::SessionClosed => session_closed_text(),
        NeoError::Base64Decode => base64_decode_text(),
        NeoError::Other(m) => other_prefix() + m@,
    }
}

/// Appends the literal bytes of `"IO error: "` to `out`.
fn push_io_error_prefix(out: &mut Vec<u8>)
    ensures
        final(out)@ == old(out)@ + io_error_prefix(),
{
    out.push(73);
    out.push(79);
    out.push(32);
    out.push(101);
    out.push(114);
    out.push(114);
    out.push(111);
    out.push(114);
    out.push(58);
    out.push(32);
    proof {
        assert(out@ =~= old(out)@ + io_error_prefix());
    }
}

/// Appends the literal bytes of `"Error: "` to `out`.
fn push_other_prefix(out: &mut Vec<u8>)
    ensures
        final(out)@ == old(out)@ + other_prefix(),
{
    out.push(69);
    out.push(114);
    out.push(114);
    out.push(111);
    out.push(114);
    out.push(58);
    out.push(32);
    proof {
        assert(out@ =~= old(out)@ + other_prefix());
    }
}

impl NeoError {
    /// The description of this error, byte for byte what a failure reply's
    /// `Error` field holds.
    pub fn message(&self) -> (r: Vec<u8>)
        ensures
            r@ == error_message_spec(self),
    {
        match self {
            NeoError::Io(m) => {
                let mut out: Vec<u8> = Vec::new();
                push_io_error_prefix(&mut out);
                let mut i: usize = 0;
                while i < m.len()
                    invariant
                        i <= m.len(),
                        out@ == io_error_prefix() + m@.take(i as int),
                    decreases m.len() - i,
                {
                    out.push(m[i]);
                    i = i + 1;
                    proof {
                        assert(out@ =~= io_error_prefix() + m@.take(i as int));
                    }
                }
                proof {
                    assert(out@ =~= io_error_prefix() + m@);
                }
                out
            },
            NeoError::SessionClosed => {
                let mut out: Vec<u8> = Vec::new();
                out.push(83);
                out.push(101);
                out.push(115);
                out.push(115);
                out.push(105);
                out.push(111);
                out.push(110);
                out.push(32);
                out.push(105);
                out.push(115);
                out.push(32);
                out.push(99);
                out.push(108);
                out.push(111);
                out.push(115);
                out.push(101);
                out.push(100);
                proof {
                    assert(out@ =~= session_closed_text());
                }
                out
            },
            NeoError::Base64Decode => {
                let mut out: Vec<u8> = Vec::new();
                out.push(66);
                out.push(97);
                out.push(115);
                out.push(101);
                out.push(54);
                out.push(52);
                out.push(32);
                out.push(100);
                out.push(101);
                out.push(99);
                out.push(111);
                out.push(100);
                out.push(101);
                out.push(32);
                out.push(101);
                out.push(114);
                out.push(114);
                out.push(111);
                out.push(114);
                proof {
                    assert(out@ =~= base64_decode_text());
                }
                out
            },
            NeoError::Other(m) => {
                let mut out: Vec<u8> = Vec::new();
                push_other_prefix(&mut out);
                let mut i: usize = 0;
                while i < m.len()
                    invariant
                        i <= m.len(),
                        out@ == other_prefix() + m@.take(i as int),
                    decreases m.len() - i,
                {
                    out.push(m[i]);
                    i = i + 1;
                    proof {
                        assert(out@ =~= other_prefix() + m@.take(i as int));
                    }
                }
                proof {
                    assert(out@ =~= other_prefix() + m@);
                }
                out
            },
        }
    }
}

} // verus!
