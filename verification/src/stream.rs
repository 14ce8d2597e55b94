//! The stream adapter's decision logic: pure functions a connection
//! handler calls between transport reads and writes. The handler owns the
//! receive buffer and the socket; this module decides, from plain values,
//! what one read step means and which bytes a reply occupies.

use vstd::prelude::*;
use crate::parse::{parse_message, spec_decode, RespError, MAX_DEPTH};
use crate::value::Value;

verus! {

/// What one read step of a connection means.
#[derive(Debug, PartialEq)]
pub enum ReadOutcome {
    /// The peer closed the connection: zero bytes were read. A distinct
    /// "no value" outcome, not an error.
    Closed,
    /// The buffer does not yet hold one complete frame; read more bytes
    /// and step again.
    NeedMore,
    /// One complete value, and how many buffered bytes it occupied; the
    /// caller discards that many bytes from the front of its buffer.
    Complete(Value, usize),
    /// The buffer can never become a valid frame; the connection's framing
    /// is poisoned and the caller should close it.
    Failed(RespError),
}

/// The decode errors that mean "the frame may merely be incomplete": a
/// header whose delimiter has not arrived yet, or a declared length whose
/// payload has not arrived yet. Every other error is permanent.
pub open spec fn spec_resumable(e: RespError) -> bool {
    e == RespError::MalformedHeader || e == RespError::TruncatedFrame
}

/// Decide what one read step means: `bytes_read` is what the transport
/// just appended to `buffer` (zero meaning the peer closed), and the
/// outcome classifies the decode of the accumulated buffer.
pub fn read_step(buffer: &[u8], bytes_read: usize) -> (r: ReadOutcome)
    ensures
        bytes_read == 0 ==> r == ReadOutcome::Closed,
        bytes_read > 0 ==> match spec_decode(buffer@, MAX_DEPTH as nat) {
            Ok((m, c)) => r matches ReadOutcome::Complete(v, n) && v@ == m && n as int == c,
            Err(e) => if spec_resumable(e) {
                r == ReadOutcome::NeedMore
            } else {
                r == ReadOutcome::Failed(e)
            },
        },
{
    if bytes_read == 0 {
        return ReadOutcome::Closed;
    }
    match parse_message(buffer) {
        Ok((v, c)) => ReadOutcome::Complete(v, c),
        Err(e) => {
            if e == RespError::MalformedHeader || e == RespError::TruncatedFrame {
                ReadOutcome::NeedMore
            } else {
                ReadOutcome::Failed(e)
            }
        },
    }
}

} // verus!
