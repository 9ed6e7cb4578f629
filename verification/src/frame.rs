//! Frames and their form on the wire.
//!
//! A frame on the wire is a header of two bytes, an extended length of two or
//! eight bytes where the payload is longer than 125 bytes, a masking key of
//! four bytes where the frame is masked, and the payload. The functions here
//! say, over plain sequences of bytes, which bytes a frame is written as and
//! which frame a sequence of bytes begins with.

use crate::buffer::{be_bytes, be_value};
use crate::error::ProtocolError;
use crate::mask::masked;
use crate::opcode::{opcode_of, OpCode};
use crate::utf8::completable;
use vstd::prelude::*;
use vstd::slice::slice_to_vec;

verus! {

/// The side of a connection that an endpoint is on. Clients mask the frames
/// that they send, servers do not.
#[derive(Debug, PartialEq, Eq, Clone, Copy, Structural)]
pub enum Role {
    Client,
    Server,
}

/// One frame: its opcode, whether it is the last frame of its message, and
/// its payload with the mask removed.
#[derive(Debug, PartialEq, Eq)]
pub struct Frame {
    pub opcode: OpCode,
    pub is_final: bool,
    pub payload: Vec<u8>,
}

/// A frame as a mathematical value.
pub struct FrameView {
    pub opcode: OpCode,
    pub is_final: bool,
    pub payload: Seq<u8>,
}

impl View for Frame {
    type V = FrameView;

    open spec fn view(&self) -> FrameView {
        FrameView { opcode: self.opcode, is_final: self.is_final, payload: self.payload@ }
    }
}

impl FrameView {
    /// A control frame is final and carries at most 125 bytes.
    pub open spec fn well_formed(self) -> bool {
        self.opcode.is_control() ==> self.is_final && self.payload.len() <= 125
    }
}

impl Clone for Frame {
    fn clone(&self) -> (copy: Self)
        ensures
            copy@ == self@,
    {
        Frame {
            opcode: self.opcode,
            is_final: self.is_final,
            payload: slice_to_vec(self.payload.as_slice()),
        }
    }
}

impl Frame {
    /// A frame of the given parts.
    pub fn new(opcode: OpCode, is_final: bool, payload: Vec<u8>) -> (frame: Frame)
        ensures
            frame@ == (FrameView { opcode, is_final, payload: payload@ }),
    {
        Frame { opcode, is_final, payload }
    }
}

/// The greatest payload length that a frame may declare: the greatest size
/// that memory can hold. On a 64-bit machine these are the lengths whose most
/// significant bit is clear.
pub open spec fn max_payload_len() -> nat {
    isize::MAX as nat
}

/// What stands before the payload of a frame.
pub struct Header {
    pub is_final: bool,
    pub opcode: OpCode,
    /// The masking key, where the frame is masked.
    pub key: Option<Seq<u8>>,
    /// The declared length of the payload.
    pub payload_len: nat,
    /// The number of bytes before the payload.
    pub offset: nat,
}

/// What the front of a byte sequence holds of a header.
pub enum HeaderParse {
    /// Too few bytes to tell.
    Incomplete,
    /// Bytes that begin no acceptable frame.
    Invalid(ProtocolError),
    /// A whole header.
    Complete(Header),
}

/// The number of bytes of the extended length that a 7-bit length announces.
pub open spec fn extended_len(short: u8) -> nat {
    if short == 126 {
        2
    } else if short == 127 {
        8
    } else {
        0
    }
}

/// Reads the header of the frame that `bytes` begins with, as an endpoint of
/// the given role receives it. The checks are made in the order in which the
/// fields arrive.
pub open spec fn parse_header(role: Role, bytes: Seq<u8>) -> HeaderParse {
    if bytes.len() < 2 {
        HeaderParse::Incomplete
    } else {
        let first = bytes[0];
        let second = bytes[1];
        let is_final = first >= 128;
        let is_masked = second >= 128;
        let short = (second % 128) as u8;
        let extended = extended_len(short);
        if (first / 16) % 8 != 0 {
            HeaderParse::Invalid(ProtocolError::InvalidRsv)
        } else {
            match opcode_of((first % 16) as u8) {
                None => HeaderParse::Invalid(ProtocolError::InvalidOpcode),
                Some(opcode) => {
                    if !is_final && opcode.is_control() {
                        HeaderParse::Invalid(ProtocolError::FragmentedControlFrame)
                    } else if is_masked && role == Role::Client {
                        HeaderParse::Invalid(ProtocolError::ServerMaskedData)
                    } else if short > 125 && opcode.is_control() {
                        HeaderParse::Invalid(ProtocolError::InvalidControlFrameLength)
                    } else if bytes.len() < 2 + extended {
                        HeaderParse::Incomplete
                    } else {
                        let payload_len = if extended == 0 {
                            short as nat
                        } else {
                            be_value(bytes.subrange(2, 2 + extended as int))
                        };
                        if payload_len > max_payload_len() {
                            HeaderParse::Invalid(ProtocolError::InvalidPayloadLength)
                        } else if !is_masked {
                            HeaderParse::Complete(
                                Header {
                                    is_final,
                                    opcode,
                                    key: None,
                                    payload_len,
                                    offset: 2 + extended,
                                },
                            )
                        } else if bytes.len() < 2 + extended + 4 {
                            HeaderParse::Incomplete
                        } else {
                            HeaderParse::Complete(
                                Header {
                                    is_final,
                                    opcode,
                                    key: Some(
                                        bytes.subrange(2 + extended as int, 6 + extended as int),
                                    ),
                                    payload_len,
                                    offset: 6 + extended,
                                },
                            )
                        }
                    }
                },
            }
        }
    }
}

impl Header {
    /// The first `count` bytes of the payload that follows this header in
    /// `bytes`, with the mask removed.
    pub open spec fn payload(self, bytes: Seq<u8>, count: nat) -> Seq<u8> {
        let raw = bytes.subrange(self.offset as int, (self.offset + count) as int);
        match self.key {
            Some(key) => masked(key, raw),
            None => raw,
        }
    }

    /// The number of payload bytes that `bytes` holds.
    pub open spec fn received(self, bytes: Seq<u8>) -> nat {
        if bytes.len() - self.offset >= self.payload_len {
            self.payload_len
        } else {
            (bytes.len() - self.offset) as nat
        }
    }
}

/// What the front of a byte sequence holds of a frame.
pub enum Parsed {
    /// The beginning of a frame: more bytes are needed.
    Incomplete,
    /// Bytes that begin no acceptable frame.
    Invalid(ProtocolError),
    /// A whole frame, and the number of bytes that it takes.
    Complete(FrameView, nat),
}

/// Reads the frame that `bytes` begins with, as an endpoint of the given role
/// receives it.
///
/// While the payload of a text frame is arriving, what has arrived must be
/// the beginning of valid UTF-8. A close frame carries no payload, or at
/// least the two bytes of a close code.
pub open spec fn parse_frame(role: Role, bytes: Seq<u8>) -> Parsed {
    match parse_header(role, bytes) {
        HeaderParse::Incomplete => Parsed::Incomplete,
        HeaderParse::Invalid(e) => Parsed::Invalid(e),
        HeaderParse::Complete(header) => {
            let received = header.received(bytes);
            let payload = header.payload(bytes, received);
            if received < header.payload_len {
                if header.opcode == OpCode::Text && !completable(payload) {
                    Parsed::Invalid(ProtocolError::InvalidUtf8)
                } else {
                    Parsed::Incomplete
                }
            } else if header.opcode == OpCode::Close && header.payload_len == 1 {
                Parsed::Invalid(ProtocolError::InvalidCloseSequence)
            } else {
                Parsed::Complete(
                    FrameView { opcode: header.opcode, is_final: header.is_final, payload },
                    header.offset + header.payload_len,
                )
            }
        },
    }
}

/// The bytes that stand before the payload and the masking key of a frame.
/// The length is written in the shortest of the three forms that holds it.
pub open spec fn header_bytes(
    is_final: bool,
    opcode: OpCode,
    payload_len: nat,
    is_masked: bool,
) -> Seq<u8> {
    let first = (opcode.value() + if is_final {
        128int
    } else {
        0int
    }) as u8;
    let mask_bit = if is_masked {
        128int
    } else {
        0int
    };
    if payload_len > 65535 {
        seq![first, (127 + mask_bit) as u8] + be_bytes(payload_len, 8)
    } else if payload_len > 125 {
        seq![first, (126 + mask_bit) as u8] + be_bytes(payload_len, 2)
    } else {
        seq![first, (payload_len + mask_bit) as u8]
    }
}

/// The bytes that an endpoint of the given role writes a frame as. A client
/// masks the payload with `key` and sends the key before it; a server sends
/// the payload as it is, and `key` plays no part.
pub open spec fn frame_bytes(role: Role, frame: FrameView, key: Seq<u8>) -> Seq<u8> {
    header_bytes(frame.is_final, frame.opcode, frame.payload.len(), role == Role::Client) + (
    if role == Role::Client {
        key + masked(key, frame.payload)
    } else {
        frame.payload
    })
}

/// A header that is all there stays what it is when bytes are added behind
/// it, and so does a header that is refused.
pub proof fn lemma_header_extended(role: Role, bytes: Seq<u8>, more: Seq<u8>)
    requires
        !(parse_header(role, bytes) is Incomplete),
    ensures
        parse_header(role, bytes + more) == parse_header(role, bytes),
{
    let longer = bytes + more;
    assert(longer[0] == bytes[0]);
    assert(longer[1] == bytes[1]);
    let extended = extended_len((bytes[1] % 128) as u8);
    if bytes.len() >= 2 + extended {
        assert(longer.subrange(2, 2 + extended as int) =~= bytes.subrange(2, 2 + extended as int));
    }
    if bytes.len() >= 6 + extended {
        assert(longer.subrange(2 + extended as int, 6 + extended as int) =~= bytes.subrange(
            2 + extended as int,
            6 + extended as int,
        ));
    }
}

} // verus!
