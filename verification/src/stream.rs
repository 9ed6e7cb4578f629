//! The connection: message assembly and the close handshake.
//!
//! A `WebsocketStream` stands between a transport and an application. The
//! transport's bytes are handed to it with `feed`, and the bytes that it
//! wants sent are collected with `take_outgoing`; it performs no input or
//! output itself. `read_message` and `write_message` are the two halves of
//! the protocol.

use crate::buffer;
use crate::buffer::contents;
use crate::close_code::CloseCode;
use crate::codec::WebsocketProtocol;
use crate::error::{Error, ProtocolError};
use crate::frame::{frame_bytes, parse_frame, Frame, FrameView, Parsed, Role};
use crate::message::{close_for, message_of, Message, MessageView};
use crate::opcode::OpCode;
use crate::utf8;
use crate::utf8::{lemma_after_valid, lemma_valid_prefix_len_longest, rejects};
use bytes::BytesMut;
use vstd::prelude::*;
use vstd::slice::{slice_subrange, slice_to_vec};
use vstd::utf8::{valid_utf8, valid_utf8_concat};

verus! {

/// The greatest number of payload bytes that a frame written by
/// `write_message` carries.
pub const FRAME_SIZE: usize = 4096;

/// Where a connection stands in the close handshake.
#[derive(Debug, PartialEq, Eq, Clone, Copy, Structural)]
pub enum StreamState {
    /// Neither side has sent a close message.
    Active,
    /// The peer has sent a close message.
    ClosedByPeer,
    /// This side has sent a close message and waits for the peer's.
    ClosedByUs,
    /// This side has sent a close message and the peer has answered it.
    CloseAcknowledged,
    /// Nothing more is read or written.
    Terminated,
}

impl StreamState {
    /// Messages of the peer are expected in the states `Active` and
    /// `ClosedByUs`.
    pub open spec fn spec_can_read(&self) -> bool {
        *self == StreamState::Active || *self == StreamState::ClosedByUs
    }

    /// Whether messages of the peer are still expected.
    #[verifier::when_used_as_spec(spec_can_read)]
    pub fn can_read(&self) -> (r: bool)
        ensures
            r == self.spec_can_read(),
    {
        matches!(self, StreamState::Active | StreamState::ClosedByUs)
    }

    /// `AlreadyClosed` once the connection is terminated.
    pub fn check_active(&self) -> (r: Result<(), Error>)
        ensures
            r == if *self == StreamState::Terminated {
                Err::<(), Error>(Error::AlreadyClosed)
            } else {
                Ok::<(), Error>(())
            },
    {
        match self {
            StreamState::Terminated => Err(Error::AlreadyClosed),
            _ => Ok(()),
        }
    }
}

/// The number of frames that a payload of `len` bytes is written as.
pub open spec fn frame_count(len: nat) -> nat {
    if len == 0 {
        1
    } else {
        ((len + FRAME_SIZE - 1) / (FRAME_SIZE as int)) as nat
    }
}

/// The frames that a message is written as: the payload in pieces of
/// `FRAME_SIZE` bytes, the last one shorter where it does not divide. The
/// first frame carries the opcode of the message, the others are
/// continuations, and the last one is final. An empty payload makes one
/// empty frame.
pub open spec fn message_frames(opcode: OpCode, payload: Seq<u8>) -> Seq<FrameView> {
    let count = frame_count(payload.len());
    Seq::new(
        count,
        |i: int|
            FrameView {
                opcode: if i == 0 {
                    opcode
                } else {
                    OpCode::Continuation
                },
                is_final: i == count - 1,
                payload: payload.subrange(
                    i * FRAME_SIZE,
                    if (i + 1) * FRAME_SIZE < payload.len() {
                        (i + 1) * FRAME_SIZE
                    } else {
                        payload.len() as int
                    },
                ),
            },
    )
}

/// The bytes that a run of frames is written as, frame `i` masked with
/// `keys[i]` where the writer is a client.
pub open spec fn frames_bytes(role: Role, frames: Seq<FrameView>, keys: Seq<Seq<u8>>) -> Seq<u8>
    decreases frames.len(),
{
    if frames.len() == 0 {
        Seq::empty()
    } else {
        frames_bytes(role, frames.drop_last(), keys.drop_last()) + frame_bytes(
            role,
            frames.last(),
            keys.last(),
        )
    }
}

/// Writing one more frame adds its bytes behind those of the others.
pub proof fn lemma_frames_bytes_push(
    role: Role,
    frames: Seq<FrameView>,
    keys: Seq<Seq<u8>>,
    frame: FrameView,
    key: Seq<u8>,
)
    ensures
        frames_bytes(role, frames.push(frame), keys.push(key)) == frames_bytes(role, frames, keys)
            + frame_bytes(role, frame, key),
{
    assert(frames.push(frame).drop_last() =~= frames);
    assert(keys.push(key).drop_last() =~= keys);
}

/// Frame `index` of a message carries the piece of the payload that begins
/// `index` times `FRAME_SIZE` bytes in; it is the last frame exactly when
/// that piece reaches the end of the payload.
pub proof fn lemma_frame_at(opcode: OpCode, payload: Seq<u8>, index: int)
    requires
        0 <= index < message_frames(opcode, payload).len(),
    ensures
        message_frames(opcode, payload).len() == frame_count(payload.len()),
        index * FRAME_SIZE <= payload.len(),
        (index == frame_count(payload.len()) - 1) == (payload.len() - index * FRAME_SIZE
            <= FRAME_SIZE),
        message_frames(opcode, payload)[index] == (FrameView {
            opcode: if index == 0 {
                opcode
            } else {
                OpCode::Continuation
            },
            is_final: payload.len() - index * FRAME_SIZE <= FRAME_SIZE,
            payload: payload.subrange(
                index * FRAME_SIZE,
                if payload.len() - index * FRAME_SIZE > FRAME_SIZE {
                    index * FRAME_SIZE + FRAME_SIZE
                } else {
                    payload.len() as int
                },
            ),
        }),
{
}

/// `keys` holds a masking key of four bytes for each of `count` frames.
pub open spec fn keys_for(count: nat, keys: Seq<Seq<u8>>) -> bool {
    keys.len() == count && forall|i: int| 0 <= i < count ==> (#[trigger] keys[i]).len() == 4
}

/// `after` is `before` with `message` written behind it by an endpoint of
/// the given role, under some masking keys.
pub open spec fn sent(role: Role, before: Seq<u8>, after: Seq<u8>, message: MessageView) -> bool {
    let frames = message_frames(message.opcode(), message.payload());
    exists|keys: Seq<Seq<u8>>|
        keys_for(frames.len(), keys) && after == before + #[trigger] frames_bytes(
            role,
            frames,
            keys,
        )
}

/// What a write does to the connection: the state after it and what the
/// caller is told.
///
/// Nothing is written once the connection is terminated. A close message
/// that is written while the connection is active makes it `ClosedByUs`. A
/// server that has written while no more messages of the peer are expected
/// has completed the handshake: the connection is terminated and the caller
/// is told `ConnectionClosed`.
pub open spec fn write_step(role: Role, state: StreamState, message: MessageView) -> (
    StreamState,
    Result<(), Error>,
) {
    if state == StreamState::Terminated {
        (state, Err(Error::AlreadyClosed))
    } else {
        let next = if message is Close && state == StreamState::Active {
            StreamState::ClosedByUs
        } else {
            state
        };
        if role == Role::Server && !next.can_read() {
            (StreamState::Terminated, Err(Error::ConnectionClosed))
        } else {
            (next, Ok(()))
        }
    }
}

/// A message in the making: the opcode of its first frame, the payload so
/// far, and whether its last frame has been seen. `Continuation` as the
/// opcode says that no message is in the making.
pub struct Assembly {
    pub opcode: OpCode,
    pub payload: Seq<u8>,
    pub is_final: bool,
}

impl Assembly {
    /// No message is in the making.
    pub open spec fn idle() -> Assembly {
        Assembly { opcode: OpCode::Continuation, payload: Seq::empty(), is_final: false }
    }

    /// A message in the making is text or binary data, and where none is in
    /// the making nothing is held of one.
    pub open spec fn well_formed(self) -> bool {
        &&& !self.opcode.is_control()
        &&& self.opcode == OpCode::Continuation ==> self.payload.len() == 0 && !self.is_final
    }
}

/// What the received bytes amount to, frame by frame.
pub enum Gathered {
    /// More bytes are needed.
    Pending,
    /// The peer violated the protocol.
    Failed(ProtocolError),
    /// A whole message: the opcode of its first frame and its payload.
    Message(OpCode, Seq<u8>),
}

/// The end of reading frames off the received bytes: what was found, the
/// message that is then in the making, and the bytes that are left.
pub struct Gathering {
    pub outcome: Gathered,
    pub assembly: Assembly,
    pub rest: Seq<u8>,
}

/// Takes one data frame into the message in the making.
pub open spec fn joined(assembly: Assembly, frame: FrameView) -> Assembly {
    Assembly {
        opcode: if assembly.opcode == OpCode::Continuation {
            frame.opcode
        } else {
            assembly.opcode
        },
        payload: assembly.payload + frame.payload,
        is_final: frame.is_final,
    }
}

/// Reads frames off `bytes` until a message is whole, a frame is cut short
/// or the peer is found in error.
///
/// A control frame is a message of its own, whatever is in the making. A
/// message begins with a text or a binary frame and goes on with
/// continuation frames up to a final frame; a continuation frame that goes
/// on with nothing, and a text or binary frame while a message is in the
/// making, are errors. The payload of a text message must be valid UTF-8,
/// and before its last frame the beginning of valid UTF-8.
pub open spec fn gather(role: Role, assembly: Assembly, bytes: Seq<u8>) -> Gathering
    decreases bytes.len(),
    via gather_decreases
{
    if assembly.is_final {
        Gathering {
            outcome: Gathered::Message(assembly.opcode, assembly.payload),
            assembly: Assembly::idle(),
            rest: bytes,
        }
    } else {
        match parse_frame(role, bytes) {
            Parsed::Incomplete => Gathering { outcome: Gathered::Pending, assembly, rest: bytes },
            Parsed::Invalid(e) => Gathering { outcome: Gathered::Failed(e), assembly, rest: bytes },
            Parsed::Complete(frame, used) => {
                let rest = bytes.skip(used as int);
                if frame.opcode.is_control() {
                    Gathering {
                        outcome: Gathered::Message(frame.opcode, frame.payload),
                        assembly,
                        rest,
                    }
                } else if assembly.opcode == OpCode::Continuation && frame.opcode
                    == OpCode::Continuation {
                    Gathering {
                        outcome: Gathered::Failed(ProtocolError::UnexpectedContinuation),
                        assembly,
                        rest,
                    }
                } else if assembly.opcode != OpCode::Continuation && frame.opcode
                    != OpCode::Continuation {
                    Gathering {
                        outcome: Gathered::Failed(ProtocolError::UnfinishedMessage),
                        assembly,
                        rest,
                    }
                } else {
                    let next = joined(assembly, frame);
                    if next.opcode == OpCode::Text && rejects(next.payload, next.is_final) {
                        Gathering {
                            outcome: Gathered::Failed(ProtocolError::InvalidUtf8),
                            assembly: next,
                            rest,
                        }
                    } else {
                        gather(role, next, rest)
                    }
                }
            },
        }
    }
}

#[via_fn]
proof fn gather_decreases(role: Role, assembly: Assembly, bytes: Seq<u8>) {
    lemma_frame_extent(role, bytes);
}

/// A whole frame takes at least two bytes, and no more than there are.
pub proof fn lemma_frame_extent(role: Role, bytes: Seq<u8>)
    ensures
        parse_frame(role, bytes) matches Parsed::Complete(_, used) ==> 2 <= used <= bytes.len(),
{
}

/// What `read_message` hands to its caller, as a mathematical value.
pub enum ReadOutcomeView {
    Pending,
    Message(MessageView),
    Closed,
    Failed(Error),
}

/// What `read_message` hands to its caller.
#[derive(Debug, PartialEq, Eq)]
pub enum ReadOutcome {
    /// No whole message has been received yet: more bytes are needed.
    Pending,
    /// A message of the peer.
    Message(Message),
    /// The close handshake is over: no more messages will come.
    Closed,
    /// The connection has failed, or had been terminated before.
    Failed(Error),
}

impl View for ReadOutcome {
    type V = ReadOutcomeView;

    open spec fn view(&self) -> ReadOutcomeView {
        match self {
            ReadOutcome::Pending => ReadOutcomeView::Pending,
            ReadOutcome::Message(message) => ReadOutcomeView::Message(message@),
            ReadOutcome::Closed => ReadOutcomeView::Closed,
            ReadOutcome::Failed(e) => ReadOutcomeView::Failed(*e),
        }
    }
}

/// What a read comes to: what the caller is handed, the state of the
/// connection after it, and the message that is written to the peer.
pub struct ReadStep {
    pub outcome: ReadOutcomeView,
    pub state: StreamState,
    pub reply: Option<MessageView>,
}

/// The answer to a protocol error: the close message for the error is
/// written as by `write_message`, and the caller is handed the error, or
/// the failure of that write in its place.
pub open spec fn fail_step(role: Role, state: StreamState, error: ProtocolError) -> ReadStep {
    let written = write_step(role, state, close_for(error));
    ReadStep {
        outcome: ReadOutcomeView::Failed(
            match written.1 {
                Err(e) => e,
                Ok(_) => Error::Protocol(error),
            },
        ),
        state: written.0,
        reply: Some(close_for(error)),
    }
}

/// The answer to a message of the peer.
///
/// The first close message of the peer is sent back as it came and handed
/// to the caller, and the connection is `ClosedByPeer`; it takes the next
/// write to complete the handshake. A close message that answers ours makes
/// the connection `CloseAcknowledged`. Any further close message ends the
/// stream. A ping is answered by a pong with the same payload, written as
/// by `write_message`, before it is handed to the caller.
pub open spec fn message_step(role: Role, state: StreamState, message: MessageView) -> ReadStep {
    match message {
        MessageView::Close(_, _) => if state == StreamState::Active {
            ReadStep {
                outcome: ReadOutcomeView::Message(message),
                state: StreamState::ClosedByPeer,
                reply: Some(message),
            }
        } else if state == StreamState::ClosedByUs {
            ReadStep {
                outcome: ReadOutcomeView::Message(message),
                state: StreamState::CloseAcknowledged,
                reply: None,
            }
        } else {
            ReadStep { outcome: ReadOutcomeView::Closed, state, reply: None }
        },
        MessageView::Ping(data) => {
            let written = write_step(role, state, MessageView::Pong(data));
            ReadStep {
                outcome: match written.1 {
                    Err(e) => ReadOutcomeView::Failed(e),
                    Ok(_) => ReadOutcomeView::Message(message),
                },
                state: written.0,
                reply: Some(MessageView::Pong(data)),
            }
        },
        _ => ReadStep { outcome: ReadOutcomeView::Message(message), state, reply: None },
    }
}

/// What a read comes to, given what the received bytes amount to.
pub open spec fn read_step(role: Role, state: StreamState, gathered: Gathered) -> ReadStep {
    match gathered {
        Gathered::Pending => ReadStep { outcome: ReadOutcomeView::Pending, state, reply: None },
        Gathered::Failed(e) => fail_step(role, state, e),
        Gathered::Message(opcode, payload) => match message_of(opcode, payload) {
            Err(e) => fail_step(role, state, e),
            Ok(message) => message_step(role, state, message),
        },
    }
}

/// A connection as a mathematical value.
pub struct StreamView {
    pub role: Role,
    pub state: StreamState,
    /// The bytes that were received and not yet taken as frames.
    pub received: Seq<u8>,
    /// The bytes that are to be sent.
    pub outgoing: Seq<u8>,
    pub assembly: Assembly,
}

/// One endpoint of a connection, past the opening handshake.
pub struct WebsocketStream {
    protocol: WebsocketProtocol,
    read_buf: BytesMut,
    write_buf: BytesMut,
    state: StreamState,
    framing_payload: Vec<u8>,
    framing_opcode: OpCode,
    framing_final: bool,
    utf8_valid_up_to: usize,
}

impl View for WebsocketStream {
    type V = StreamView;

    closed spec fn view(&self) -> StreamView {
        StreamView {
            role: self.protocol.role(),
            state: self.state,
            received: contents(self.read_buf),
            outgoing: contents(self.write_buf),
            assembly: Assembly {
                opcode: self.framing_opcode,
                payload: self.framing_payload@,
                is_final: self.framing_final,
            },
        }
    }
}

impl WebsocketStream {
    /// What the engine keeps true of itself: the codec has taken what it
    /// holds from the bytes that were received, and of a text in the making
    /// a prefix has been validated.
    pub closed spec fn wf(&self) -> bool {
        &&& self.protocol.resumes(contents(self.read_buf))
        &&& self@.assembly.well_formed()
        &&& self.utf8_valid_up_to <= self.framing_payload@.len()
        &&& self.framing_opcode == OpCode::Text ==> valid_utf8(
            self.framing_payload@.take(self.utf8_valid_up_to as int),
        )
    }

    /// An engine of the given role for a raw stream on which the opening
    /// handshake is done. The stream itself stays with the caller.
    pub fn from_raw_stream(role: Role) -> (stream: Self)
        ensures
            stream.wf(),
            stream@ == (StreamView {
                role,
                state: StreamState::Active,
                received: Seq::empty(),
                outgoing: Seq::empty(),
                assembly: Assembly::idle(),
            }),
    {
        let mut read_buf = buffer::empty();
        buffer::reserve(&mut read_buf, 4 * 1024);
        Self::from_parts(role, read_buf, buffer::empty())
    }

    /// An engine of the given role that takes over the buffers of the
    /// opening handshake: bytes that were read past its end, and bytes that
    /// it has left to send.
    pub fn from_parts(role: Role, read_buf: BytesMut, write_buf: BytesMut) -> (stream: Self)
        ensures
            stream.wf(),
            stream@ == (StreamView {
                role,
                state: StreamState::Active,
                received: contents(read_buf),
                outgoing: contents(write_buf),
                assembly: Assembly::idle(),
            }),
    {
        let protocol = WebsocketProtocol::new(role);
        proof {
            protocol.lemma_idle_resumes(contents(read_buf));
        }
        let stream = Self {
            protocol,
            read_buf,
            write_buf,
            state: StreamState::Active,
            framing_payload: Vec::new(),
            framing_opcode: OpCode::Continuation,
            framing_final: false,
            utf8_valid_up_to: 0,
        };
        assert(stream@.assembly.payload =~= Seq::<u8>::empty());
        stream
    }

    /// The message in the making of an engine is well formed.
    pub proof fn lemma_assembly_well_formed(&self)
        requires
            self.wf(),
        ensures
            self@.assembly.well_formed(),
    {
    }

    /// The role of this endpoint.
    pub fn role(&self) -> (role: Role)
        ensures
            role == self@.role,
    {
        self.protocol.role()
    }

    /// Where the connection stands in the close handshake.
    pub fn state(&self) -> (state: StreamState)
        ensures
            state == self@.state,
    {
        self.state
    }

    /// Hands bytes of the transport to the engine.
    pub fn feed(&mut self, bytes: &[u8])
        requires
            old(self).wf(),
        ensures
            final(self).wf(),
            final(self)@ == (StreamView { received: old(self)@.received + bytes@, ..old(self)@ }),
    {
        proof {
            self.protocol.lemma_resumes_extended(contents(self.read_buf), bytes@);
        }
        buffer::extend_from_slice(&mut self.read_buf, bytes);
    }

    /// Hands out the bytes that are to be sent, and keeps none of them.
    pub fn take_outgoing(&mut self) -> (bytes: Vec<u8>)
        requires
            old(self).wf(),
        ensures
            final(self).wf(),
            bytes@ == old(self)@.outgoing,
            final(self)@ == (StreamView { outgoing: Seq::empty(), ..old(self)@ }),
    {
        let bytes = slice_to_vec(buffer::as_slice(&self.write_buf));
        let count = buffer::len(&self.write_buf);
        buffer::advance(&mut self.write_buf, count);
        assert(contents(self.write_buf) =~= Seq::<u8>::empty());
        bytes
    }

    /// Takes what has been put together of a message and starts afresh.
    fn take_assembled(&mut self) -> (r: (OpCode, Vec<u8>))
        requires
            old(self).wf(),
        ensures
            final(self).wf(),
            r.0 == old(self)@.assembly.opcode,
            r.1@ == old(self)@.assembly.payload,
            final(self)@ == (StreamView { assembly: Assembly::idle(), ..old(self)@ }),
    {
        let opcode = self.framing_opcode;
        let mut payload = Vec::new();
        std::mem::swap(&mut self.framing_payload, &mut payload);
        self.framing_opcode = OpCode::Continuation;
        self.framing_final = false;
        self.utf8_valid_up_to = 0;
        assert(self@.assembly.payload =~= Seq::<u8>::empty());
        (opcode, payload)
    }

    /// Takes a data frame into the message in the making. Returns whether
    /// the text that it makes has to be refused.
    fn join(&mut self, frame: Frame) -> (refused: bool)
        requires
            old(self).wf(),
            !frame@.opcode.is_control(),
            (old(self)@.assembly.opcode == OpCode::Continuation) != (frame@.opcode
                == OpCode::Continuation),
        ensures
            final(self).wf(),
            final(self)@ == (StreamView {
                assembly: joined(old(self)@.assembly, frame@),
                ..old(self)@
            }),
            refused == (final(self)@.assembly.opcode == OpCode::Text && rejects(
                final(self)@.assembly.payload,
                final(self)@.assembly.is_final,
            )),
    {
        let mut frame = frame;
        if self.framing_opcode == OpCode::Continuation {
            self.framing_opcode = frame.opcode;
            assert(self.framing_payload@.take(0) =~= Seq::<u8>::empty());
        }
        self.framing_final = frame.is_final;
        let ghost before = self.framing_payload@;
        self.framing_payload.append(&mut frame.payload);
        assert(self.framing_payload@.take(self.utf8_valid_up_to as int) =~= before.take(
            self.utf8_valid_up_to as int,
        ));
        if self.framing_opcode == OpCode::Text {
            let (should_fail, valid_up_to) = utf8::should_fail_fast(
                slice_subrange(
                    self.framing_payload.as_slice(),
                    self.utf8_valid_up_to,
                    self.framing_payload.len(),
                ),
                self.framing_final,
            );
            proof {
                let checked = self.framing_payload@.take(self.utf8_valid_up_to as int);
                let fresh = self.framing_payload@.skip(self.utf8_valid_up_to as int);
                assert(checked + fresh =~= self.framing_payload@);
                assert(fresh =~= self.framing_payload@.subrange(
                    self.utf8_valid_up_to as int,
                    self.framing_payload@.len() as int,
                ));
                lemma_after_valid(checked, fresh);
                lemma_valid_prefix_len_longest(fresh);
                valid_utf8_concat(checked, fresh.take(valid_up_to as int));
                assert(checked + fresh.take(valid_up_to as int) =~= self.framing_payload@.take(
                    self.utf8_valid_up_to + valid_up_to,
                ));
            }
            if should_fail {
                return true;
            }
            self.utf8_valid_up_to = self.utf8_valid_up_to + valid_up_to;
        }
        false
    }

    /// Reads frames off the received bytes until a message is whole, more
    /// bytes are needed or the peer is found in error.
    fn read_full_message(&mut self) -> (r: Result<Option<(OpCode, Vec<u8>)>, Error>)
        requires
            old(self).wf(),
        ensures
            final(self).wf(),
            final(self)@ == (StreamView {
                assembly: gather(old(self)@.role, old(self)@.assembly, old(self)@.received).assembly,
                received: gather(old(self)@.role, old(self)@.assembly, old(self)@.received).rest,
                ..old(self)@
            }),
            match gather(old(self)@.role, old(self)@.assembly, old(self)@.received).outcome {
                Gathered::Pending => r == Ok::<Option<(OpCode, Vec<u8>)>, Error>(None),
                Gathered::Failed(e) => r == Err::<Option<(OpCode, Vec<u8>)>, Error>(
                    Error::Protocol(e),
                ),
                Gathered::Message(opcode, payload) => r matches Ok(Some(raw)) && raw.0 == opcode
                    && raw.1@ == payload,
            },
    {
        let ghost role = self@.role;
        let ghost goal = gather(role, self@.assembly, self@.received);
        while !self.framing_final
            invariant
                self.wf(),
                role == old(self)@.role,
                goal == gather(role, old(self)@.assembly, old(self)@.received),
                goal == gather(role, self@.assembly, self@.received),
                self@ == (StreamView {
                    assembly: self@.assembly,
                    received: self@.received,
                    ..old(self)@
                }),
            decreases self@.received.len(),
        {
            proof {
                lemma_frame_extent(role, self@.received);
            }
            let frame = match self.protocol.decode(&mut self.read_buf) {
                Ok(Some(frame)) => frame,
                Ok(None) => {
                    return Ok(None);
                },
                Err(e) => {
                    return Err(e);
                },
            };
            if frame.opcode.is_control() {
                return Ok(Some((frame.opcode, frame.payload)));
            }
            if self.framing_opcode == OpCode::Continuation {
                if frame.opcode == OpCode::Continuation {
                    return Err(Error::Protocol(ProtocolError::UnexpectedContinuation));
                }
            } else if frame.opcode != OpCode::Continuation {
                return Err(Error::Protocol(ProtocolError::UnfinishedMessage));
            }
            if self.join(frame) {
                return Err(Error::Protocol(ProtocolError::InvalidUtf8));
            }
        }
        Ok(Some(self.take_assembled()))
    }

    /// Answers a protocol error: writes the close message for it and says
    /// what the caller is to be told.
    fn fail(&mut self, error: ProtocolError) -> (r: ReadOutcome)
        requires
            old(self).wf(),
            old(self)@.state != StreamState::Terminated,
        ensures
            final(self).wf(),
            r@ == fail_step(old(self)@.role, old(self)@.state, error).outcome,
            final(self)@ == (StreamView {
                state: fail_step(old(self)@.role, old(self)@.state, error).state,
                outgoing: final(self)@.outgoing,
                ..old(self)@
            }),
            sent(old(self)@.role, old(self)@.outgoing, final(self)@.outgoing, close_for(error)),
    {
        let close_msg = error.to_close();
        match self.write_message(close_msg) {
            Err(e) => ReadOutcome::Failed(e),
            Ok(()) => ReadOutcome::Failed(Error::Protocol(error)),
        }
    }

    /// Receives a message.
    ///
    /// Frames are taken off the received bytes until a message is whole;
    /// `Pending` says that more bytes are needed first. What the received
    /// bytes amount to is told by `gather`, and what is made of it, with the
    /// state of the connection and the message that is written to the peer
    /// in answer, by `read_step`. Once the connection is terminated the call
    /// fails with `AlreadyClosed` and changes nothing.
    pub fn read_message(&mut self) -> (r: ReadOutcome)
        requires
            old(self).wf(),
        ensures
            final(self).wf(),
            final(self)@.role == old(self)@.role,
            old(self)@.state == StreamState::Terminated ==> r@ == ReadOutcomeView::Failed(
                Error::AlreadyClosed,
            ) && final(self)@ == old(self)@,
            old(self)@.state != StreamState::Terminated ==> ({
                let gathering = gather(old(self)@.role, old(self)@.assembly, old(self)@.received);
                let step = read_step(old(self)@.role, old(self)@.state, gathering.outcome);
                &&& r@ == step.outcome
                &&& final(self)@.state == step.state
                &&& final(self)@.assembly == gathering.assembly
                &&& final(self)@.received == gathering.rest
                &&& match step.reply {
                    Some(reply) => sent(
                        old(self)@.role,
                        old(self)@.outgoing,
                        final(self)@.outgoing,
                        reply,
                    ),
                    None => final(self)@.outgoing == old(self)@.outgoing,
                }
            }),
    {
        match self.state.check_active() {
            Ok(()) => {},
            Err(e) => {
                return ReadOutcome::Failed(e);
            },
        }
        let (opcode, payload) = match self.read_full_message() {
            Ok(Some(raw)) => raw,
            Ok(None) => {
                return ReadOutcome::Pending;
            },
            Err(Error::Protocol(e)) => {
                return self.fail(e);
            },
            Err(e) => {
                return ReadOutcome::Failed(e);
            },
        };
        let message = match Message::from_raw(opcode, payload) {
            Ok(message) => message,
            Err(e) => {
                return self.fail(e);
            },
        };
        match &message {
            Message::Close(_, _) => match self.state {
                StreamState::Active => {
                    self.state = StreamState::ClosedByPeer;
                    self.send(message.clone());
                },
                StreamState::ClosedByUs => {
                    self.state = StreamState::CloseAcknowledged;
                },
                _ => {
                    return ReadOutcome::Closed;
                },
            },
            Message::Ping(data) => {
                let pong = Message::Pong(slice_to_vec(data.as_slice()));
                match self.write_message(pong) {
                    Ok(()) => {},
                    Err(e) => {
                        return ReadOutcome::Failed(e);
                    },
                }
            },
            _ => {},
        }
        ReadOutcome::Message(message)
    }

    /// Writes the frames of `message` to the bytes that are to be sent.
    fn send(&mut self, message: Message)
        requires
            old(self).wf(),
        ensures
            final(self).wf(),
            sent(old(self)@.role, old(self)@.outgoing, final(self)@.outgoing, message@),
            final(self)@ == (StreamView { outgoing: final(self)@.outgoing, ..old(self)@ }),
    {
        let ghost role = self@.role;
        let ghost before = self@.outgoing;
        let (opcode, data) = message.into_raw();
        let ghost frames = message_frames(opcode, data@);
        let total = data.len();
        let ghost mut keys: Seq<Seq<u8>> = Seq::empty();
        let mut start: usize = 0;
        let mut index: usize = 0;
        assert(frames.take(0) =~= Seq::<FrameView>::empty());
        loop
            invariant_except_break
                index < frames.len(),
                start == index * FRAME_SIZE,
                keys_for(index as nat, keys),
                self@.outgoing == before + frames_bytes(role, frames.take(index as int), keys),
            invariant
                self.wf(),
                total == data@.len(),
                frames == message_frames(opcode, data@),
                role == self@.role,
                self@ == (StreamView { outgoing: self@.outgoing, ..old(self)@ }),
            ensures
                keys_for(frames.len(), keys),
                self@.outgoing == before + frames_bytes(role, frames, keys),
            decreases frames.len() - index,
        {
            proof {
                lemma_frame_at(opcode, data@, index as int);
            }
            let end = if total - start > FRAME_SIZE {
                start + FRAME_SIZE
            } else {
                total
            };
            let is_final = end == total;
            let frame = Frame {
                opcode: if index == 0 {
                    opcode
                } else {
                    OpCode::Continuation
                },
                is_final,
                payload: slice_to_vec(slice_subrange(data.as_slice(), start, end)),
            };
            let ghost written = self@.outgoing;
            let ghost model = frame@;
            let _ = self.protocol.encode(frame, &mut self.write_buf);
            proof {
                let key = choose|key: Seq<u8>|
                    key.len() == 4 && self@.outgoing == written + #[trigger] frame_bytes(
                        role,
                        model,
                        key,
                    );
                lemma_frames_bytes_push(role, frames.take(index as int), keys, model, key);
                assert(frames.take(index + 1) =~= frames.take(index as int).push(model));
                keys = keys.push(key);
            }
            index = index + 1;
            if is_final {
                assert(frames.take(index as int) =~= frames);
                break;
            }
            start = end;
        }
    }

    /// Sends a message.
    ///
    /// Fails with `AlreadyClosed`, and writes nothing, once the connection
    /// is terminated. Otherwise the frames of the message are added to the
    /// bytes that are to be sent: the payload in pieces of `FRAME_SIZE`
    /// bytes, an empty payload as one empty frame. What becomes of the
    /// connection, and what is returned, is told by `write_step`.
    pub fn write_message(&mut self, message: Message) -> (r: Result<(), Error>)
        requires
            old(self).wf(),
        ensures
            final(self).wf(),
            r == write_step(old(self)@.role, old(self)@.state, message@).1,
            final(self)@ == (StreamView {
                state: write_step(old(self)@.role, old(self)@.state, message@).0,
                outgoing: final(self)@.outgoing,
                ..old(self)@
            }),
            if old(self)@.state == StreamState::Terminated {
                final(self)@.outgoing == old(self)@.outgoing
            } else {
                sent(old(self)@.role, old(self)@.outgoing, final(self)@.outgoing, message@)
            },
    {
        match self.state.check_active() {
            Ok(()) => {},
            Err(e) => {
                return Err(e);
            },
        }
        if message.is_close() && self.state == StreamState::Active {
            self.state = StreamState::ClosedByUs;
        }
        self.send(message);
        if self.protocol.role() == Role::Server && !self.state.can_read() {
            self.state = StreamState::Terminated;
            Err(Error::ConnectionClosed)
        } else {
            Ok(())
        }
    }

    /// Sends a close message with the given code and reason.
    pub fn close(&mut self, close_code: Option<CloseCode>, reason: Option<String>) -> (r: Result<
        (),
        Error,
    >)
        requires
            old(self).wf(),
        ensures
            final(self).wf(),
            r == write_step(
                old(self)@.role,
                old(self)@.state,
                Message::Close(close_code, reason)@,
            ).1,
            final(self)@ == (StreamView {
                state: write_step(
                    old(self)@.role,
                    old(self)@.state,
                    Message::Close(close_code, reason)@,
                ).0,
                outgoing: final(self)@.outgoing,
                ..old(self)@
            }),
            if old(self)@.state == StreamState::Terminated {
                final(self)@.outgoing == old(self)@.outgoing
            } else {
                sent(
                    old(self)@.role,
                    old(self)@.outgoing,
                    final(self)@.outgoing,
                    Message::Close(close_code, reason)@,
                )
            },
    {
        self.write_message(Message::Close(close_code, reason))
    }
}

} // verus!
