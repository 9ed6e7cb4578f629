//! Frame opcodes and their numbers on the wire.

use crate::error::ProtocolError;
use vstd::prelude::*;
use vstd::std_specs::convert::{FromSpecImpl, TryFromSpecImpl};

verus! {

/// The kind of a frame, carried in the low four bits of its first byte.
#[derive(Debug, PartialEq, Eq, Clone, Copy, Structural)]
pub enum OpCode {
    Continuation,
    Text,
    Binary,
    Close,
    Ping,
    Pong,
}

/// The opcode that a number stands for, if any.
pub open spec fn opcode_of(value: u8) -> Option<OpCode> {
    if value == 0 {
        Some(OpCode::Continuation)
    } else if value == 1 {
        Some(OpCode::Text)
    } else if value == 2 {
        Some(OpCode::Binary)
    } else if value == 8 {
        Some(OpCode::Close)
    } else if value == 9 {
        Some(OpCode::Ping)
    } else if value == 10 {
        Some(OpCode::Pong)
    } else {
        None
    }
}

impl OpCode {
    /// Control frames are `Close`, `Ping` and `Pong`.
    pub open spec fn spec_is_control(self) -> bool {
        self == OpCode::Close || self == OpCode::Ping || self == OpCode::Pong
    }

    /// The number that stands for the opcode on the wire.
    pub open spec fn value(self) -> u8 {
        match self {
            OpCode::Continuation => 0,
            OpCode::Text => 1,
            OpCode::Binary => 2,
            OpCode::Close => 8,
            OpCode::Ping => 9,
            OpCode::Pong => 10,
        }
    }

    /// Whether the opcode is that of a control frame.
    #[verifier::when_used_as_spec(spec_is_control)]
    pub fn is_control(self) -> (r: bool)
        ensures
            r == self.spec_is_control(),
    {
        matches!(self, OpCode::Close | OpCode::Ping | OpCode::Pong)
    }
}

impl TryFrom<u8> for OpCode {
    type Error = ProtocolError;

    /// The opcode with the given number; `InvalidOpcode` where there is none.
    fn try_from(value: u8) -> (r: Result<Self, Self::Error>)
    {
        match value {
            0 => Ok(OpCode::Continuation),
            1 => Ok(OpCode::Text),
            2 => Ok(OpCode::Binary),
            8 => Ok(OpCode::Close),
            9 => Ok(OpCode::Ping),
            10 => Ok(OpCode::Pong),
            _ => Err(ProtocolError::InvalidOpcode),
        }
    }
}

impl TryFromSpecImpl<u8> for OpCode {
    open spec fn obeys_try_from_spec() -> bool {
        true
    }

    open spec fn try_from_spec(value: u8) -> Result<Self, Self::Error> {
        match opcode_of(value) {
            Some(opcode) => Ok(opcode),
            None => Err(ProtocolError::InvalidOpcode),
        }
    }
}

impl From<OpCode> for u8 {
    /// The number of the opcode.
    fn from(value: OpCode) -> (r: Self)
    {
        match value {
            OpCode::Continuation => 0,
            OpCode::Text => 1,
            OpCode::Binary => 2,
            OpCode::Close => 8,
            OpCode::Ping => 9,
            OpCode::Pong => 10,
        }
    }
}

impl FromSpecImpl<OpCode> for u8 {
    open spec fn obeys_from_spec() -> bool {
        true
    }

    open spec fn from_spec(value: OpCode) -> Self {
        value.value()
    }
}

/// An opcode is found again from its number, and only the six numbers that
/// stand for an opcode are accepted.
pub proof fn lemma_opcode_numbers(opcode: OpCode, value: u8)
    ensures
        opcode_of(opcode.value()) == Some(opcode),
        opcode_of(value) matches Some(found) ==> found.value() == value,
        opcode.value() < 16,
{
}

} // verus!
