//! Close codes.

use crate::error::ProtocolError;
use vstd::prelude::*;
use vstd::std_specs::convert::{FromSpecImpl, TryFromSpecImpl};

verus! {

/// The reason that a close frame gives, as a number from 1000 to 4999.
#[derive(Debug, PartialEq, Eq, Clone, Copy, Structural)]
pub enum CloseCode {
    /// 1000
    NormalClosure,
    /// 1001
    GoingAway,
    /// 1002
    ProtocolError,
    /// 1003
    UnsupportedData,
    /// 1004
    Reserved,
    /// 1005
    NoStatusReceived,
    /// 1006
    AbnormalClosure,
    /// 1007
    InvalidFramePayloadData,
    /// 1008
    PolicyViolation,
    /// 1009
    MessageTooBig,
    /// 1010
    MandatoryExtension,
    /// 1011
    InternalServerError,
    /// 1015
    TlsHandshake,
    /// 1012 to 1014 and 1016 to 2999
    ReservedForStandards(u16),
    /// 3000 to 3999
    Libraries(u16),
    /// 4000 to 4999
    Private(u16),
}

/// The close code that a number stands for, if any.
pub open spec fn close_code_of(value: u16) -> Option<CloseCode> {
    if value == 1000 {
        Some(CloseCode::NormalClosure)
    } else if value == 1001 {
        Some(CloseCode::GoingAway)
    } else if value == 1002 {
        Some(CloseCode::ProtocolError)
    } else if value == 1003 {
        Some(CloseCode::UnsupportedData)
    } else if value == 1004 {
        Some(CloseCode::Reserved)
    } else if value == 1005 {
        Some(CloseCode::NoStatusReceived)
    } else if value == 1006 {
        Some(CloseCode::AbnormalClosure)
    } else if value == 1007 {
        Some(CloseCode::InvalidFramePayloadData)
    } else if value == 1008 {
        Some(CloseCode::PolicyViolation)
    } else if value == 1009 {
        Some(CloseCode::MessageTooBig)
    } else if value == 1010 {
        Some(CloseCode::MandatoryExtension)
    } else if value == 1011 {
        Some(CloseCode::InternalServerError)
    } else if value == 1015 {
        Some(CloseCode::TlsHandshake)
    } else if 1012 <= value <= 2999 {
        Some(CloseCode::ReservedForStandards(value))
    } else if 3000 <= value <= 3999 {
        Some(CloseCode::Libraries(value))
    } else if 4000 <= value <= 4999 {
        Some(CloseCode::Private(value))
    } else {
        None
    }
}

/// The numbers that may stand in a close frame: 1000 to 1003, 1007 to 1011
/// and 3000 to 4999.
pub open spec fn allowed_on_wire(value: u16) -> bool {
    1000 <= value <= 1003 || 1007 <= value <= 1011 || 3000 <= value <= 4999
}

impl CloseCode {
    /// The number of the close code.
    pub open spec fn value(self) -> u16 {
        match self {
            CloseCode::NormalClosure => 1000,
            CloseCode::GoingAway => 1001,
            CloseCode::ProtocolError => 1002,
            CloseCode::UnsupportedData => 1003,
            CloseCode::Reserved => 1004,
            CloseCode::NoStatusReceived => 1005,
            CloseCode::AbnormalClosure => 1006,
            CloseCode::InvalidFramePayloadData => 1007,
            CloseCode::PolicyViolation => 1008,
            CloseCode::MessageTooBig => 1009,
            CloseCode::MandatoryExtension => 1010,
            CloseCode::InternalServerError => 1011,
            CloseCode::TlsHandshake => 1015,
            CloseCode::ReservedForStandards(value) => value,
            CloseCode::Libraries(value) => value,
            CloseCode::Private(value) => value,
        }
    }

    /// The codes that may not stand in a close frame are left out.
    pub open spec fn spec_is_allowed(&self) -> bool {
        !(*self is Reserved || *self is NoStatusReceived || *self is AbnormalClosure
            || *self is TlsHandshake || *self is ReservedForStandards)
    }

    /// Whether the code may stand in a close frame: not 1004, 1005, 1006 or
    /// 1015, and not one that is reserved for standards.
    #[verifier::when_used_as_spec(spec_is_allowed)]
    pub fn is_allowed(&self) -> (r: bool)
        ensures
            r == self.spec_is_allowed(),
    {
        !matches!(
            self,
            CloseCode::Reserved | CloseCode::NoStatusReceived | CloseCode::AbnormalClosure
                | CloseCode::TlsHandshake | CloseCode::ReservedForStandards(_)
        )
    }
}

impl TryFrom<u16> for CloseCode {
    type Error = ProtocolError;

    /// The close code with the given number; `InvalidCloseCode` where the
    /// number is not one from 1000 to 4999.
    fn try_from(value: u16) -> (r: Result<Self, Self::Error>) {
        match value {
            1000 => Ok(CloseCode::NormalClosure),
            1001 => Ok(CloseCode::GoingAway),
            1002 => Ok(CloseCode::ProtocolError),
            1003 => Ok(CloseCode::UnsupportedData),
            1004 => Ok(CloseCode::Reserved),
            1005 => Ok(CloseCode::NoStatusReceived),
            1006 => Ok(CloseCode::AbnormalClosure),
            1007 => Ok(CloseCode::InvalidFramePayloadData),
            1008 => Ok(CloseCode::PolicyViolation),
            1009 => Ok(CloseCode::MessageTooBig),
            1010 => Ok(CloseCode::MandatoryExtension),
            1011 => Ok(CloseCode::InternalServerError),
            1015 => Ok(CloseCode::TlsHandshake),
            1012..=1014 | 1016..=2999 => Ok(CloseCode::ReservedForStandards(value)),
            3000..=3999 => Ok(CloseCode::Libraries(value)),
            4000..=4999 => Ok(CloseCode::Private(value)),
            _ => Err(ProtocolError::InvalidCloseCode),
        }
    }
}

impl TryFromSpecImpl<u16> for CloseCode {
    open spec fn obeys_try_from_spec() -> bool {
        true
    }

    open spec fn try_from_spec(value: u16) -> Result<Self, Self::Error> {
        match close_code_of(value) {
            Some(code) => Ok(code),
            None => Err(ProtocolError::InvalidCloseCode),
        }
    }
}

impl From<CloseCode> for u16 {
    /// The number of the close code.
    fn from(value: CloseCode) -> (r: Self) {
        match value {
            CloseCode::NormalClosure => 1000,
            CloseCode::GoingAway => 1001,
            CloseCode::ProtocolError => 1002,
            CloseCode::UnsupportedData => 1003,
            CloseCode::Reserved => 1004,
            CloseCode::NoStatusReceived => 1005,
            CloseCode::AbnormalClosure => 1006,
            CloseCode::InvalidFramePayloadData => 1007,
            CloseCode::PolicyViolation => 1008,
            CloseCode::MessageTooBig => 1009,
            CloseCode::MandatoryExtension => 1010,
            CloseCode::InternalServerError => 1011,
            CloseCode::TlsHandshake => 1015,
            CloseCode::ReservedForStandards(value)
            | CloseCode::Libraries(value)
            | CloseCode::Private(value) => value,
        }
    }
}

impl FromSpecImpl<CloseCode> for u16 {
    open spec fn obeys_from_spec() -> bool {
        true
    }

    open spec fn from_spec(value: CloseCode) -> Self {
        value.value()
    }
}

/// A number that stands for a close code is the number of that code, and
/// the code may stand in a close frame exactly when the number may.
pub proof fn lemma_close_code_numbers(value: u16)
    ensures
        close_code_of(value) is Some <==> 1000 <= value <= 4999,
        close_code_of(value) matches Some(code) ==> code.value() == value && (code.is_allowed()
            <==> allowed_on_wire(value)),
{
}

} // verus!
