//! Error kinds for the download core.
//!
//! Peer-local failures (transport, handshake, protocol) drop that peer and
//! never abort the whole download by themselves; integrity and unschedulable
//! failures are surfaced per piece as part of a structured result.

use vstd::prelude::*;

verus! {

/// A protocol violation observed on one peer's framed stream.
#[derive(Debug, Clone, PartialEq, Eq, Structural)]
pub enum ProtocolError {
    /// A frame declared a length above the fixed maximum frame size.
    FrameTooLong,
    /// The tag byte of a frame was outside the valid range.
    UnknownTag,
    /// A message arrived out of the expected order.
    UnexpectedMessage,
    /// A block response did not match the request it answers.
    MismatchedResponse,
    /// A block response carried no payload at all.
    EmptyPayload,
}

/// Why one live peer connection was dropped.
#[derive(Debug, Clone, PartialEq, Eq, Structural)]
pub enum PeerError {
    /// Connect, read or write on the transport failed.
    Transport,
    /// The peer's handshake did not have the fixed 68-byte length.
    Handshake,
    /// The peer violated the framed protocol.
    Protocol(ProtocolError),
}

/// Why one piece ended in the Failed state instead of Verified.
#[derive(Debug, Clone, PartialEq, Eq, Structural)]
pub enum PieceFailure {
    /// Fewer bytes were collected than the piece length requires.
    Incomplete,
    /// The whole-piece hash did not match the expected hash.
    Integrity,
    /// No eligible peer held this piece when scheduling began.
    Unschedulable,
}

} // verus!
