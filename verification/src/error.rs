//! The errors of the protocol engine.

use vstd::prelude::*;

verus! {

/// A violation of the protocol by the peer, or a misuse of a message.
#[derive(Debug, PartialEq, Eq, Clone, Copy, Structural)]
pub enum ProtocolError {
    /// A close code outside 1000 to 4999.
    InvalidCloseCode,
    /// A close payload of a single byte.
    InvalidCloseSequence,
    /// An opcode that the protocol does not define.
    InvalidOpcode,
    /// A reserved bit was set.
    InvalidRsv,
    /// A payload length that no frame may declare.
    InvalidPayloadLength,
    /// Text that is not valid UTF-8.
    InvalidUtf8,
    /// A continuation where a message was expected.
    DisallowedOpcode,
    /// A close code that may not appear on the wire.
    DisallowedCloseCode,
    /// The message is neither text nor binary data.
    MessageCannotBeText,
    /// A client received a masked frame.
    ServerMaskedData,
    /// A control frame that declares more than 125 bytes.
    InvalidControlFrameLength,
    /// A control frame without the final flag.
    FragmentedControlFrame,
    /// A continuation frame while no message is in progress.
    UnexpectedContinuation,
    /// A new data frame while a message is still in progress.
    UnfinishedMessage,
}

/// Why an operation of the engine did not succeed.
#[derive(Debug, PartialEq, Eq, Clone, Copy, Structural)]
pub enum Error {
    /// The connection had been terminated before the operation.
    AlreadyClosed,
    /// The write completed the close handshake on the server's side: the
    /// transport is to be torn down.
    ConnectionClosed,
    /// The peer violated the protocol.
    Protocol(ProtocolError),
}

} // verus!
