//! Messages: what an application sends and receives.

use crate::buffer::{be_bytes, be_value};
use crate::close_code::{close_code_of, CloseCode};
use crate::error::ProtocolError;
use crate::opcode::OpCode;
use crate::utf8;
use vstd::prelude::*;
use vstd::slice::{slice_subrange, slice_to_vec};
use vstd::string::{StrSliceExecFns, StringExecFns};
use vstd::utf8::{decode_utf8, encode_utf8, valid_utf8};

verus! {

/// A message of the application, or one of the control messages that pass
/// between the endpoints.
#[derive(Debug, PartialEq, Eq)]
pub enum Message {
    Text(String),
    Binary(Vec<u8>),
    /// The close code and the reason that goes with it. A reason without a
    /// code is not sent.
    Close(Option<CloseCode>, Option<String>),
    Ping(Vec<u8>),
    Pong(Vec<u8>),
}

/// A message as a mathematical value.
pub enum MessageView {
    Text(Seq<char>),
    Binary(Seq<u8>),
    Close(Option<CloseCode>, Option<Seq<char>>),
    Ping(Seq<u8>),
    Pong(Seq<u8>),
}

impl View for Message {
    type V = MessageView;

    open spec fn view(&self) -> MessageView {
        match self {
            Message::Text(text) => MessageView::Text(text@),
            Message::Binary(data) => MessageView::Binary(data@),
            Message::Close(code, reason) => MessageView::Close(
                *code,
                match reason {
                    Some(reason) => Some(reason@),
                    None => None,
                },
            ),
            Message::Ping(data) => MessageView::Ping(data@),
            Message::Pong(data) => MessageView::Pong(data@),
        }
    }
}

/// The message that an opcode and a payload make.
///
/// Text must be valid UTF-8. A close payload is empty, or it holds a close
/// code that may stand on the wire, in two bytes, and after it a reason in
/// valid UTF-8, which is absent where the payload ends with the code.
pub open spec fn message_of(opcode: OpCode, data: Seq<u8>) -> Result<MessageView, ProtocolError> {
    match opcode {
        OpCode::Continuation => Err(ProtocolError::DisallowedOpcode),
        OpCode::Text => if valid_utf8(data) {
            Ok(MessageView::Text(decode_utf8(data)))
        } else {
            Err(ProtocolError::InvalidUtf8)
        },
        OpCode::Binary => Ok(MessageView::Binary(data)),
        OpCode::Ping => Ok(MessageView::Ping(data)),
        OpCode::Pong => Ok(MessageView::Pong(data)),
        OpCode::Close => if data.len() == 0 {
            Ok(MessageView::Close(None, None))
        } else if data.len() == 1 {
            Err(ProtocolError::InvalidCloseSequence)
        } else {
            match close_code_of(be_value(data.take(2)) as u16) {
                None => Err(ProtocolError::InvalidCloseCode),
                Some(code) => if !code.is_allowed() {
                    Err(ProtocolError::DisallowedCloseCode)
                } else if data.len() == 2 {
                    Ok(MessageView::Close(Some(code), None))
                } else if valid_utf8(data.skip(2)) {
                    Ok(MessageView::Close(Some(code), Some(decode_utf8(data.skip(2)))))
                } else {
                    Err(ProtocolError::InvalidUtf8)
                },
            }
        },
    }
}

impl MessageView {
    /// The opcode that the message is sent with.
    pub open spec fn opcode(self) -> OpCode {
        match self {
            MessageView::Text(_) => OpCode::Text,
            MessageView::Binary(_) => OpCode::Binary,
            MessageView::Close(_, _) => OpCode::Close,
            MessageView::Ping(_) => OpCode::Ping,
            MessageView::Pong(_) => OpCode::Pong,
        }
    }

    /// The payload that the message is sent with. A close message without a
    /// code has an empty payload; with a code, the payload is the two bytes
    /// of the code and the bytes of the reason, if there is one.
    pub open spec fn payload(self) -> Seq<u8> {
        match self {
            MessageView::Text(text) => encode_utf8(text),
            MessageView::Binary(data) => data,
            MessageView::Close(None, _) => Seq::empty(),
            MessageView::Close(Some(code), None) => be_bytes(code.value() as nat, 2),
            MessageView::Close(Some(code), Some(reason)) => be_bytes(code.value() as nat, 2)
                + encode_utf8(reason),
            MessageView::Ping(data) => data,
            MessageView::Pong(data) => data,
        }
    }
}

/// The close message that answers a protocol error: code 1007 for text that
/// is not valid UTF-8, code 1002 for everything else.
pub open spec fn close_for(error: ProtocolError) -> MessageView {
    if error == ProtocolError::InvalidUtf8 {
        MessageView::Close(Some(CloseCode::InvalidFramePayloadData), Some("invalid utf8"@))
    } else {
        MessageView::Close(Some(CloseCode::ProtocolError), Some("protocol violation"@))
    }
}

impl ProtocolError {
    /// The close message that is sent to the peer on this error.
    pub fn to_close(&self) -> (message: Message)
        ensures
            message@ == close_for(*self),
    {
        match self {
            ProtocolError::InvalidUtf8 => Message::Close(
                Some(CloseCode::InvalidFramePayloadData),
                Some(String::from_str("invalid utf8")),
            ),
            _ => Message::Close(
                Some(CloseCode::ProtocolError),
                Some(String::from_str("protocol violation")),
            ),
        }
    }
}

impl Clone for Message {
    fn clone(&self) -> (copy: Self)
        ensures
            copy@ == self@,
    {
        match self {
            Message::Text(text) => Message::Text(text.clone()),
            Message::Binary(data) => Message::Binary(slice_to_vec(data.as_slice())),
            Message::Close(code, reason) => Message::Close(
                *code,
                match reason {
                    Some(reason) => Some(reason.clone()),
                    None => None,
                },
            ),
            Message::Ping(data) => Message::Ping(slice_to_vec(data.as_slice())),
            Message::Pong(data) => Message::Pong(slice_to_vec(data.as_slice())),
        }
    }
}

impl Message {
    /// Makes the message that was received with `opcode` and `data`.
    pub fn from_raw(opcode: OpCode, data: Vec<u8>) -> (r: Result<Self, ProtocolError>)
        ensures
            match r {
                Ok(message) => message_of(opcode, data@) == Ok::<MessageView, ProtocolError>(
                    message@,
                ),
                Err(e) => message_of(opcode, data@) == Err::<MessageView, ProtocolError>(e),
            },
    {
        match opcode {
            OpCode::Continuation => Err(ProtocolError::DisallowedOpcode),
            OpCode::Text => match utf8::parse(data) {
                Ok(text) => Ok(Message::Text(text)),
                Err(e) => Err(e),
            },
            OpCode::Binary => Ok(Message::Binary(data)),
            OpCode::Close => {
                if data.len() == 0 {
                    Ok(Message::Close(None, None))
                } else if data.len() == 1 {
                    Err(ProtocolError::InvalidCloseSequence)
                } else {
                    let close_code_value: u16 = (data[0] as u16) * 256 + data[1] as u16;
                    proof {
                        let code_bytes = data@.take(2);
                        assert(code_bytes.drop_last().drop_last() =~= Seq::<u8>::empty());
                        reveal_with_fuel(be_value, 3);
                        assert(be_value(code_bytes) == close_code_value);
                    }
                    let close_code = match CloseCode::try_from(close_code_value) {
                        Ok(close_code) => close_code,
                        Err(e) => {
                            return Err(e);
                        },
                    };
                    if !close_code.is_allowed() {
                        return Err(ProtocolError::DisallowedCloseCode);
                    }
                    if data.len() == 2 {
                        return Ok(Message::Close(Some(close_code), None));
                    }
                    let reason_bytes = slice_to_vec(slice_subrange(data.as_slice(), 2, data.len()));
                    assert(reason_bytes@ =~= data@.skip(2));
                    match utf8::parse(reason_bytes) {
                        Ok(reason) => Ok(Message::Close(Some(close_code), Some(reason))),
                        Err(e) => Err(e),
                    }
                }
            },
            OpCode::Ping => Ok(Message::Ping(data)),
            OpCode::Pong => Ok(Message::Pong(data)),
        }
    }

    /// The opcode and the payload that the message is sent with.
    pub fn into_raw(self) -> (r: (OpCode, Vec<u8>))
        ensures
            r.0 == self@.opcode(),
            r.1@ == self@.payload(),
    {
        match self {
            Message::Text(text) => (OpCode::Text, text.as_str().as_bytes_vec()),
            Message::Binary(data) => (OpCode::Binary, data),
            Message::Close(close_code, reason) => {
                if let Some(close_code) = close_code {
                    let close_code_value = u16::from(close_code);
                    let mut body: Vec<u8> = Vec::new();
                    body.push((close_code_value / 256) as u8);
                    body.push((close_code_value % 256) as u8);
                    proof {
                        reveal_with_fuel(be_bytes, 3);
                        assert(body@ =~= be_bytes(close_code_value as nat, 2));
                    }
                    if let Some(reason) = reason {
                        let mut reason_bytes = reason.as_str().as_bytes_vec();
                        body.append(&mut reason_bytes);
                    }
                    (OpCode::Close, body)
                } else {
                    (OpCode::Close, Vec::new())
                }
            },
            Message::Ping(data) => (OpCode::Ping, data),
            Message::Pong(data) => (OpCode::Pong, data),
        }
    }

    /// Whether the message is text.
    #[must_use]
    pub fn is_text(&self) -> (r: bool)
        ensures
            r == (self@ is Text),
    {
        matches!(self, Message::Text(_))
    }

    /// Whether the message is binary data.
    #[must_use]
    pub fn is_binary(&self) -> (r: bool)
        ensures
            r == (self@ is Binary),
    {
        matches!(self, Message::Binary(_))
    }

    /// Whether the message is a close message.
    #[must_use]
    pub fn is_close(&self) -> (r: bool)
        ensures
            r == (self@ is Close),
    {
        matches!(self, Message::Close(_, _))
    }

    /// Whether the message is a ping.
    #[must_use]
    pub fn is_ping(&self) -> (r: bool)
        ensures
            r == (self@ is Ping),
    {
        matches!(self, Message::Ping(_))
    }

    /// Whether the message is a pong.
    #[must_use]
    pub fn is_pong(&self) -> (r: bool)
        ensures
            r == (self@ is Pong),
    {
        matches!(self, Message::Pong(_))
    }

    /// The text of a text message, or the text that binary data encodes.
    /// Binary data that is not valid UTF-8 gives `InvalidUtf8`, any other
    /// message `MessageCannotBeText`.
    pub fn into_text(self) -> (r: Result<String, ProtocolError>)
        ensures
            match self@ {
                MessageView::Text(text) => r matches Ok(found) && found@ == text,
                MessageView::Binary(data) => if valid_utf8(data) {
                    r matches Ok(found) && found@ == decode_utf8(data)
                } else {
                    r == Err::<String, ProtocolError>(ProtocolError::InvalidUtf8)
                },
                _ => r == Err::<String, ProtocolError>(ProtocolError::MessageCannotBeText),
            },
    {
        match self {
            Message::Text(text) => Ok(text),
            Message::Binary(data) => utf8::parse(data),
            _ => Err(ProtocolError::MessageCannotBeText),
        }
    }
}

} // verus!
