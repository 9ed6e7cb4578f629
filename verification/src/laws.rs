//! What holds of the codec, of messages and of the connection, whatever the
//! frames and the bytes.

use crate::buffer::{be_bytes, be_value, lemma_be_round_trip, pow256};
use crate::close_code::{allowed_on_wire, close_code_of, lemma_close_code_numbers, CloseCode};
use crate::error::{Error, ProtocolError};
use crate::frame::{
    extended_len, frame_bytes, header_bytes, lemma_header_extended, max_payload_len, parse_frame,
    parse_header, FrameView, Header, HeaderParse, Parsed, Role,
};
use crate::mask::{lemma_masked_split, lemma_masked_twice, masked};
use crate::opcode::{lemma_opcode_numbers, opcode_of, OpCode};
use crate::message::{close_for, message_of, MessageView};
use crate::stream::{
    frame_count, frames_bytes, gather, joined, keys_for, lemma_frame_at, lemma_frame_extent,
    message_frames, read_step, sent, write_step, Assembly, Gathered, Gathering, ReadOutcomeView,
    StreamState, FRAME_SIZE,
};
use crate::utf8::{completable, rejects};
use vstd::prelude::*;
use vstd::utf8::{
    decode_utf8_encode_utf8, encode_utf8, encode_utf8_decode_utf8, encode_utf8_valid_utf8,
    valid_utf8,
};

verus! {

/// The number of bytes that stand before the payload of a frame as it is
/// written.
pub open spec fn written_offset(payload_len: nat, is_masked: bool) -> nat {
    let extended: nat = if payload_len > 65535 {
        8
    } else if payload_len > 125 {
        2
    } else {
        0
    };
    if is_masked {
        6 + extended
    } else {
        2 + extended
    }
}

/// The header that a frame is written with is read back as the header of
/// that frame, whatever follows it. A client does not take the header of a
/// masked frame, and no endpoint that of a control frame which is not final
/// or longer than 125 bytes.
pub proof fn lemma_header_round_trip(
    reader: Role,
    is_final: bool,
    opcode: OpCode,
    payload_len: nat,
    key: Option<Seq<u8>>,
    rest: Seq<u8>,
)
    requires
        opcode.is_control() ==> is_final && payload_len <= 125,
        payload_len <= max_payload_len(),
        key matches Some(k) ==> k.len() == 4 && reader == Role::Server,
    ensures
        parse_header(
            reader,
            header_bytes(is_final, opcode, payload_len, key is Some) + match key {
                Some(k) => k,
                None => Seq::empty(),
            } + rest,
        ) == HeaderParse::Complete(
            Header {
                is_final,
                opcode,
                key,
                payload_len,
                offset: written_offset(payload_len, key is Some),
            },
        ),
        header_bytes(is_final, opcode, payload_len, key is Some).len() + match key {
            Some(k) => 4nat,
            None => 0nat,
        } == written_offset(payload_len, key is Some),
{
    let head = header_bytes(is_final, opcode, payload_len, key is Some);
    let key_bytes = match key {
        Some(k) => k,
        None => Seq::<u8>::empty(),
    };
    let bytes = head + key_bytes + rest;
    lemma_opcode_numbers(opcode, 0);
    lemma_be_round_trip(payload_len, 2);
    lemma_be_round_trip(payload_len, 8);
    assert(pow256(2) == 65536 && pow256(8) == 0x1_0000_0000_0000_0000) by {
        reveal_with_fuel(pow256, 9);
    }
    let first = bytes[0];
    let second = bytes[1];
    assert(first == head[0]);
    assert(second == head[1]);
    assert(first % 16 == opcode.value());
    assert((first / 16) % 8 == 0);
    assert((first >= 128) == is_final);
    assert((second >= 128) == (key is Some));
    let extended = extended_len((second % 128) as u8);
    if payload_len > 65535 {
        assert(extended == 8);
        assert(bytes.subrange(2, 10) =~= be_bytes(payload_len, 8));
    } else if payload_len > 125 {
        assert(extended == 2);
        assert(bytes.subrange(2, 4) =~= be_bytes(payload_len, 2));
    } else {
        assert(extended == 0);
        assert(second % 128 == payload_len);
    }
    if let Some(k) = key {
        assert(bytes.subrange(2 + extended as int, 6 + extended as int) =~= k);
    }
}

/// Behind a whole header, a payload that is all there makes a frame, unless
/// it is the single byte of a close frame.
pub proof fn lemma_frame_behind_header(role: Role, bytes: Seq<u8>)
    requires
        parse_header(role, bytes) matches HeaderParse::Complete(header) && bytes.len()
            >= header.offset + header.payload_len && !(header.opcode == OpCode::Close
            && header.payload_len == 1),
    ensures
        ({
            let header = parse_header(role, bytes)->Complete_0;
            parse_frame(role, bytes) == Parsed::Complete(
                FrameView {
                    opcode: header.opcode,
                    is_final: header.is_final,
                    payload: header.payload(bytes, header.payload_len),
                },
                header.offset + header.payload_len,
            )
        }),
{
}

/// The bytes of a frame are its header, its key where it is masked, and its
/// payload as it is sent.
proof fn lemma_wire_parts(role: Role, frame: FrameView, key: Seq<u8>, rest: Seq<u8>)
    requires
        key.len() == 4,
    ensures
        ({
            let is_masked = role == Role::Client;
            let head = header_bytes(frame.is_final, frame.opcode, frame.payload.len(), is_masked);
            let offset = written_offset(frame.payload.len(), is_masked);
            let bytes = frame_bytes(role, frame, key) + rest;
            let sent_key = if is_masked {
                key
            } else {
                Seq::<u8>::empty()
            };
            let body = if is_masked {
                masked(key, frame.payload)
            } else {
                frame.payload
            };
            &&& bytes == head + sent_key + (body + rest)
            &&& head.len() + sent_key.len() == offset
            &&& body.len() == frame.payload.len()
            &&& frame_bytes(role, frame, key).len() == offset + frame.payload.len()
            &&& bytes.subrange(offset as int, (offset + frame.payload.len()) as int) == body
        }),
{
    let is_masked = role == Role::Client;
    let len = frame.payload.len();
    let head = header_bytes(frame.is_final, frame.opcode, len, is_masked);
    let offset = written_offset(len, is_masked);
    let bytes = frame_bytes(role, frame, key) + rest;
    lemma_be_round_trip(len, 2);
    lemma_be_round_trip(len, 8);
    if is_masked {
        let body = masked(key, frame.payload);
        assert(bytes =~= head + key + (body + rest));
        assert(bytes.subrange(offset as int, (offset + len) as int) =~= body);
    } else {
        assert(bytes =~= head + Seq::<u8>::empty() + (frame.payload + rest));
        assert(bytes.subrange(offset as int, (offset + len) as int) =~= frame.payload);
    }
}

/// The header and the payload of a frame are found again in its bytes.
proof fn lemma_wire_layout(
    writer: Role,
    reader: Role,
    frame: FrameView,
    key: Seq<u8>,
    rest: Seq<u8>,
)
    requires
        frame.well_formed(),
        frame.payload.len() <= max_payload_len(),
        key.len() == 4,
        writer == Role::Client ==> reader == Role::Server,
    ensures
        ({
            let bytes = frame_bytes(writer, frame, key) + rest;
            let offset = written_offset(frame.payload.len(), writer == Role::Client);
            let header = Header {
                is_final: frame.is_final,
                opcode: frame.opcode,
                key: if writer == Role::Client {
                    Some(key)
                } else {
                    None
                },
                payload_len: frame.payload.len(),
                offset,
            };
            &&& parse_header(reader, bytes) == HeaderParse::Complete(header)
            &&& frame_bytes(writer, frame, key).len() == offset + frame.payload.len()
            &&& header.payload(bytes, frame.payload.len()) == frame.payload
        }),
{
    let len = frame.payload.len();
    lemma_wire_parts(writer, frame, key, rest);
    if writer == Role::Client {
        let body = masked(key, frame.payload);
        lemma_header_round_trip(reader, frame.is_final, frame.opcode, len, Some(key), body + rest);
        lemma_masked_twice(key, 0, frame.payload);
    } else {
        lemma_header_round_trip(
            reader,
            frame.is_final,
            frame.opcode,
            len,
            None,
            frame.payload + rest,
        );
    }
}

/// A frame that is written and read again is the frame that was written,
/// and reading takes exactly the bytes that writing made, whatever follows
/// them.
///
/// This holds of every frame that may be sent: a control frame is final and
/// carries at most 125 bytes, a close frame does not carry a single byte,
/// and the payload is no longer than memory can hold. The reader is the
/// other endpoint, or a server reading what a server wrote.
pub proof fn lemma_frame_round_trip(
    writer: Role,
    reader: Role,
    frame: FrameView,
    key: Seq<u8>,
    rest: Seq<u8>,
)
    requires
        frame.well_formed(),
        !(frame.opcode == OpCode::Close && frame.payload.len() == 1),
        frame.payload.len() <= max_payload_len(),
        key.len() == 4,
        writer == Role::Client ==> reader == Role::Server,
    ensures
        parse_frame(reader, frame_bytes(writer, frame, key) + rest) == Parsed::Complete(
            frame,
            frame_bytes(writer, frame, key).len(),
        ),
{
    lemma_wire_layout(writer, reader, frame, key, rest);
    lemma_frame_behind_header(reader, frame_bytes(writer, frame, key) + rest);
}

/// Written by a client, a frame has the mask bit set; written by a server,
/// it has the bit clear. The first byte of a frame carries the final flag
/// and the number of the opcode, and its reserved bits are clear.
pub proof fn lemma_written_header_bits(role: Role, frame: FrameView, key: Seq<u8>)
    ensures
        frame_bytes(role, frame, key).len() >= 2,
        (frame_bytes(role, frame, key)[1] >= 128) == (role == Role::Client),
        (frame_bytes(role, frame, key)[0] >= 128) == frame.is_final,
        (frame_bytes(role, frame, key)[0] / 16) % 8 == 0,
        frame_bytes(role, frame, key)[0] % 16 == frame.opcode.value(),
{
    let head = header_bytes(
        frame.is_final,
        frame.opcode,
        frame.payload.len(),
        role == Role::Client,
    );
    assert(frame_bytes(role, frame, key)[0] == head[0]);
    assert(frame_bytes(role, frame, key)[1] == head[1]);
}

/// A client refuses every frame that has the mask bit set. Where nothing
/// else is wrong with the first two bytes, the error is `ServerMaskedData`.
pub proof fn lemma_client_refuses_masked(bytes: Seq<u8>)
    requires
        bytes.len() >= 2,
        bytes[1] >= 128,
    ensures
        parse_frame(Role::Client, bytes) is Invalid,
        (bytes[0] / 16) % 8 == 0 && (opcode_of((bytes[0] % 16) as u8) matches Some(opcode) && (
        opcode.is_control() ==> bytes[0] >= 128)) ==> parse_frame(Role::Client, bytes)
            == Parsed::Invalid(ProtocolError::ServerMaskedData),
{
}

/// Bytes with a reserved bit set are refused with `InvalidRsv` as soon as
/// two of them are there, and no frame is read from such bytes.
pub proof fn lemma_reserved_bits(role: Role, bytes: Seq<u8>)
    ensures
        bytes.len() >= 2 && (bytes[0] / 16) % 8 != 0 ==> parse_frame(role, bytes)
            == Parsed::Invalid(ProtocolError::InvalidRsv),
        parse_frame(role, bytes) is Complete ==> bytes.len() >= 2 && (bytes[0] / 16) % 8 == 0,
{
}

/// A control frame that is not final is refused, and so is a control frame
/// that declares more than 125 bytes; every frame that is read is well
/// formed.
pub proof fn lemma_control_frames(role: Role, bytes: Seq<u8>)
    ensures
        parse_frame(role, bytes) matches Parsed::Complete(frame, _) ==> frame.well_formed(),
        bytes.len() >= 2 && (bytes[0] / 16) % 8 == 0 && (opcode_of((bytes[0] % 16) as u8) matches Some(
            opcode,
        ) && opcode.is_control()) ==> {
            &&& bytes[0] < 128 ==> parse_frame(role, bytes) == Parsed::Invalid(
                ProtocolError::FragmentedControlFrame,
            )
            &&& bytes[1] % 128 > 125 ==> parse_frame(role, bytes) is Invalid
            &&& bytes[0] >= 128 && bytes[1] % 128 > 125 && !(role == Role::Client && bytes[1]
                >= 128) ==> parse_frame(role, bytes) == Parsed::Invalid(
                ProtocolError::InvalidControlFrameLength,
            )
        },
{
    if let Parsed::Complete(frame, _) = parse_frame(role, bytes) {
        let header = parse_header(role, bytes)->Complete_0;
        if frame.opcode.is_control() {
            assert(bytes[1] % 128 <= 125);
            assert(header.payload_len <= 125);
            assert(frame.payload.len() == header.received(bytes));
        }
    }
}

/// A close frame that declares a payload of one byte is refused once that
/// byte is there.
pub proof fn lemma_close_frame_of_one_byte(role: Role, bytes: Seq<u8>)
    requires
        parse_header(role, bytes) matches HeaderParse::Complete(header) && header.opcode
            == OpCode::Close && header.payload_len == 1 && bytes.len() > header.offset,
    ensures
        parse_frame(role, bytes) == Parsed::Invalid(ProtocolError::InvalidCloseSequence),
{
}

/// A frame that has been read stays what it is when bytes are added behind
/// it.
pub proof fn lemma_frame_extended(role: Role, bytes: Seq<u8>, more: Seq<u8>)
    requires
        parse_frame(role, bytes) is Complete,
    ensures
        parse_frame(role, bytes + more) == parse_frame(role, bytes),
{
    lemma_header_extended(role, bytes, more);
    let header = parse_header(role, bytes)->Complete_0;
    let end = (header.offset + header.payload_len) as int;
    assert((bytes + more).subrange(header.offset as int, end) =~= bytes.subrange(
        header.offset as int,
        end,
    ));
}

/// A frame is read when its last byte has arrived, and not before: of the
/// bytes of a frame, the first `count` make the same frame where `count` is
/// the length of the frame, and no frame where it is less. Until then more
/// bytes are asked for; only a text frame may be refused early, where what
/// has arrived of its payload cannot become valid UTF-8.
pub proof fn lemma_frame_in_pieces(role: Role, bytes: Seq<u8>, count: int)
    requires
        parse_frame(role, bytes) is Complete,
        0 <= count <= parse_frame(role, bytes)->Complete_1,
    ensures
        ({
            let frame = parse_frame(role, bytes)->Complete_0;
            let used = parse_frame(role, bytes)->Complete_1;
            let offset = used - frame.payload.len();
            if count == used {
                parse_frame(role, bytes.take(count)) == parse_frame(role, bytes)
            } else {
                match parse_frame(role, bytes.take(count)) {
                    Parsed::Incomplete => true,
                    Parsed::Invalid(e) => e == ProtocolError::InvalidUtf8 && frame.opcode
                        == OpCode::Text && count > offset && !completable(
                        frame.payload.take(count - offset),
                    ),
                    Parsed::Complete(_, _) => false,
                }
            }
        }),
{
    let front = bytes.take(count);
    let back = bytes.skip(count);
    assert(front + back =~= bytes);
    let header = parse_header(role, bytes)->Complete_0;
    let offset = header.offset as int;
    let used = offset + header.payload_len;
    assert(used <= bytes.len());
    if !(parse_header(role, front) is Incomplete) {
        lemma_header_extended(role, front, back);
        if count == used {
            assert(front.subrange(offset, used) =~= bytes.subrange(offset, used));
        } else {
            let got = (count - offset) as nat;
            assert(header.received(front) == got);
            assert(front.subrange(offset, count) =~= bytes.subrange(offset, used).take(
                got as int,
            ));
            match header.key {
                Some(key) => {
                    lemma_masked_split(key, 0, bytes.subrange(offset, used), got as int);
                },
                None => {},
            }
            assert(header.payload(front, got) =~= header.payload(
                bytes,
                header.payload_len,
            ).take(got as int));
            if got == 0 {
                assert(header.payload(front, got) + Seq::<u8>::empty() =~= Seq::<u8>::empty());
                assert(vstd::utf8::valid_utf8(Seq::<u8>::empty()));
            }
        }
    }
}

/// A close payload of one byte makes no message, and neither does one whose
/// code may not stand on the wire: 1004, 1005, 1006, 1015 and the codes that
/// are reserved for standards, 1012 to 1014 and 1016 to 2999, are answered
/// with `DisallowedCloseCode`, and the numbers that are no close codes with
/// `InvalidCloseCode`.
pub proof fn lemma_close_payloads(data: Seq<u8>)
    ensures
        data.len() == 1 ==> message_of(OpCode::Close, data) == Err::<MessageView, ProtocolError>(
            ProtocolError::InvalidCloseSequence,
        ),
        data.len() >= 2 ==> ({
            let code = data[0] * 256 + data[1];
            &&& be_value(data.take(2)) == code
            &&& (1004 <= code <= 1006 || 1012 <= code <= 2999) ==> message_of(OpCode::Close, data)
                == Err::<MessageView, ProtocolError>(ProtocolError::DisallowedCloseCode)
            &&& (code < 1000 || code > 4999) ==> message_of(OpCode::Close, data) == Err::<
                MessageView,
                ProtocolError,
            >(ProtocolError::InvalidCloseCode)
            &&& message_of(OpCode::Close, data) matches Ok(MessageView::Close(found, _)) ==> found
                matches Some(close_code) && close_code.value() == code && allowed_on_wire(
                code as u16,
            )
        }),
{
    if data.len() >= 2 {
        let code_bytes = data.take(2);
        assert(code_bytes.drop_last().drop_last() =~= Seq::<u8>::empty());
        reveal_with_fuel(be_value, 3);
        let code = (data[0] * 256 + data[1]) as u16;
        lemma_close_code_numbers(code);
    }
}

/// Text is handed to the caller only where its bytes are valid UTF-8, and
/// then it is the text that those bytes encode.
pub proof fn lemma_text_is_valid(role: Role, state: StreamState, gathered: Gathered)
    requires
        read_step(role, state, gathered).outcome is Message,
        read_step(role, state, gathered).outcome->Message_0 is Text,
    ensures
        gathered matches Gathered::Message(opcode, payload) && opcode == OpCode::Text
            && valid_utf8(payload) && encode_utf8(
            read_step(role, state, gathered).outcome->Message_0->Text_0,
        ) == payload,
{
    match gathered {
        Gathered::Message(opcode, payload) => {
            if opcode == OpCode::Text && valid_utf8(payload) {
                decode_utf8_encode_utf8(payload);
            }
        },
        _ => {},
    }
}

/// Text whose bytes are not valid UTF-8 is never handed to the caller: the
/// read fails, and the peer is sent a close message with code 1007.
pub proof fn lemma_invalid_text_is_refused(role: Role, state: StreamState, payload: Seq<u8>)
    requires
        !valid_utf8(payload),
    ensures
        ({
            let step = read_step(role, state, Gathered::Message(OpCode::Text, payload));
            &&& step == read_step(role, state, Gathered::Failed(ProtocolError::InvalidUtf8))
            &&& step.outcome is Failed
            &&& step.reply == Some(
                MessageView::Close(
                    Some(CloseCode::InvalidFramePayloadData),
                    Some("invalid utf8"@),
                ),
            )
            &&& CloseCode::InvalidFramePayloadData.value() == 1007
            &&& write_step(role, state, close_for(ProtocolError::InvalidUtf8)).1 is Ok
                ==> step.outcome == ReadOutcomeView::Failed(
                Error::Protocol(ProtocolError::InvalidUtf8),
            )
        }),
{
}

/// What frames put together is a message of text or of binary data, or a
/// control message, and text that they put together is valid UTF-8.
pub proof fn lemma_gather_sound(role: Role, assembly: Assembly, bytes: Seq<u8>)
    requires
        assembly.well_formed(),
        assembly.is_final && assembly.opcode == OpCode::Text ==> valid_utf8(assembly.payload),
    ensures
        gather(role, assembly, bytes).assembly.well_formed(),
        gather(role, assembly, bytes).rest.len() <= bytes.len(),
        gather(role, assembly, bytes).outcome matches Gathered::Message(opcode, payload) ==> opcode
            != OpCode::Continuation && (opcode == OpCode::Text ==> valid_utf8(payload)) && (
        opcode.is_control() ==> payload.len() <= 125),
    decreases bytes.len(),
{
    if !assembly.is_final {
        lemma_frame_extent(role, bytes);
        lemma_control_frames(role, bytes);
        match parse_frame(role, bytes) {
            Parsed::Complete(frame, used) => {
                let rest = bytes.skip(used as int);
                let next = joined(assembly, frame);
                if !frame.opcode.is_control() && (assembly.opcode == OpCode::Continuation)
                    != (frame.opcode == OpCode::Continuation) {
                    if !(next.opcode == OpCode::Text && rejects(next.payload, next.is_final)) {
                        lemma_gather_sound(role, next, rest);
                    }
                }
            },
            _ => {},
        }
    }
}

/// A continuation frame that goes on with nothing is an error, and so is a
/// text or binary frame that arrives while a message is in the making: only
/// continuation frames go on with a message, up to its final frame. A frame
/// that is in order is taken into the message, and reading goes on behind
/// it unless the text so far has to be refused.
pub proof fn lemma_fragmentation(role: Role, assembly: Assembly, bytes: Seq<u8>)
    requires
        !assembly.is_final,
        parse_frame(role, bytes) is Complete,
        !parse_frame(role, bytes)->Complete_0.opcode.is_control(),
    ensures
        ({
            let frame = parse_frame(role, bytes)->Complete_0;
            let rest = bytes.skip(parse_frame(role, bytes)->Complete_1 as int);
            let next = joined(assembly, frame);
            let result = gather(role, assembly, bytes);
            if assembly.opcode == OpCode::Continuation && frame.opcode == OpCode::Continuation {
                result.outcome == Gathered::Failed(ProtocolError::UnexpectedContinuation)
            } else if assembly.opcode != OpCode::Continuation && frame.opcode
                != OpCode::Continuation {
                result.outcome == Gathered::Failed(ProtocolError::UnfinishedMessage)
            } else if next.opcode == OpCode::Text && rejects(next.payload, next.is_final) {
                result.outcome == Gathered::Failed(ProtocolError::InvalidUtf8)
            } else {
                result == gather(role, next, rest)
            }
        }),
{
    lemma_frame_extent(role, bytes);
}

/// The payloads of a run of frames, one behind the other.
pub open spec fn payloads(frames: Seq<FrameView>) -> Seq<u8>
    decreases frames.len(),
{
    if frames.len() == 0 {
        Seq::empty()
    } else {
        payloads(frames.drop_last()) + frames.last().payload
    }
}

/// A message of `N` bytes is written as one frame where `N` is 0, and as
/// `N / FRAME_SIZE` frames, rounded up, where it is not. Only the first
/// frame carries the opcode of the message and only the last one is final;
/// every frame but the last carries `FRAME_SIZE` bytes, and the payloads of
/// the frames, one behind the other, are the payload of the message.
pub proof fn lemma_message_frames(opcode: OpCode, payload: Seq<u8>)
    ensures
        ({
            let frames = message_frames(opcode, payload);
            let count = frames.len();
            &&& count == frame_count(payload.len())
            &&& count >= 1
            &&& payload.len() == 0 ==> count == 1
            &&& payload.len() > 0 ==> (count - 1) * FRAME_SIZE < payload.len() <= count
                * FRAME_SIZE
            &&& frames[0].opcode == opcode
            &&& forall|i: int| 0 < i < count ==> (#[trigger] frames[i]).opcode == OpCode::Continuation
            &&& forall|i: int| 0 <= i < count ==> (#[trigger] frames[i]).is_final == (i == count - 1)
            &&& forall|i: int| 0 <= i < count - 1 ==> (#[trigger] frames[i]).payload.len() == FRAME_SIZE
            &&& frames[count - 1].payload.len() == payload.len() - (count - 1) * FRAME_SIZE
            &&& payloads(frames) == payload
        }),
{
    let frames = message_frames(opcode, payload);
    let count = frames.len() as int;
    lemma_payloads_of_frames(opcode, payload, count);
    assert(frames.take(count) =~= frames);
    assert(payload.take(payload.len() as int) =~= payload);
}

/// The payloads of the first `upto` frames of a message are the payload of
/// the message up to where frame `upto` begins.
proof fn lemma_payloads_of_frames(opcode: OpCode, payload: Seq<u8>, upto: int)
    requires
        0 <= upto <= message_frames(opcode, payload).len(),
    ensures
        payloads(message_frames(opcode, payload).take(upto)) == payload.take(
            if upto * FRAME_SIZE < payload.len() {
                upto * FRAME_SIZE
            } else {
                payload.len() as int
            },
        ),
    decreases upto,
{
    let frames = message_frames(opcode, payload);
    if upto == 0 {
        assert(frames.take(0) =~= Seq::<FrameView>::empty());
        assert(payload.take(0) =~= Seq::<u8>::empty());
    } else {
        lemma_payloads_of_frames(opcode, payload, upto - 1);
        let front = frames.take(upto);
        assert(front.drop_last() =~= frames.take(upto - 1));
        assert(front.last() == frames[upto - 1]);
        let from = (upto - 1) * FRAME_SIZE;
        let to = if upto * FRAME_SIZE < payload.len() {
            upto * FRAME_SIZE
        } else {
            payload.len() as int
        };
        assert(payload.take(from) + payload.subrange(from, to) =~= payload.take(to));
    }
}

/// The bytes of a run of frames are the bytes of the first frame and,
/// behind them, the bytes of the others.
pub proof fn lemma_frames_bytes_first(role: Role, frames: Seq<FrameView>, keys: Seq<Seq<u8>>)
    requires
        frames.len() >= 1,
        keys.len() == frames.len(),
    ensures
        frames_bytes(role, frames, keys) == frame_bytes(role, frames[0], keys[0]) + frames_bytes(
            role,
            frames.skip(1),
            keys.skip(1),
        ),
    decreases frames.len(),
{
    if frames.len() == 1 {
        assert(frames.drop_last() =~= Seq::<FrameView>::empty());
        assert(frames.skip(1) =~= Seq::<FrameView>::empty());
        assert(frames_bytes(role, frames.skip(1), keys.skip(1)) =~= Seq::<u8>::empty());
        assert(frames_bytes(role, frames.drop_last(), keys.drop_last()) =~= Seq::<u8>::empty());
    } else {
        lemma_frames_bytes_first(role, frames.drop_last(), keys.drop_last());
        assert(frames.drop_last().skip(1) =~= frames.skip(1).drop_last());
        assert(keys.drop_last().skip(1) =~= keys.skip(1).drop_last());
        assert(frames.skip(1).last() == frames.last());
        assert(keys.skip(1).last() == keys.last());
        let first = frame_bytes(role, frames[0], keys[0]);
        let middle = frames_bytes(role, frames.skip(1).drop_last(), keys.skip(1).drop_last());
        let last = frame_bytes(role, frames.last(), keys.last());
        assert((first + middle) + last =~= first + (middle + last));
    }
}

/// The message in the making after the first `index` frames of a message
/// have been taken.
pub open spec fn assembly_after(opcode: OpCode, payload: Seq<u8>, index: int) -> Assembly {
    if index == 0 {
        Assembly::idle()
    } else {
        Assembly { opcode, payload: payload.take(index * FRAME_SIZE), is_final: false }
    }
}

/// The bytes of the frames of a message from frame `index` on.
#[verifier::opaque]
pub open spec fn bytes_from(
    writer: Role,
    opcode: OpCode,
    payload: Seq<u8>,
    keys: Seq<Seq<u8>>,
    index: int,
) -> Seq<u8> {
    frames_bytes(writer, message_frames(opcode, payload).skip(index), keys.skip(index))
}

/// The bytes of the frames from `index` on are the bytes of frame `index`
/// and, behind them, those of the frames that follow; behind the last frame
/// there are none.
proof fn lemma_bytes_from(
    writer: Role,
    opcode: OpCode,
    payload: Seq<u8>,
    keys: Seq<Seq<u8>>,
    index: int,
)
    requires
        keys_for(frame_count(payload.len()), keys),
        0 <= index < frame_count(payload.len()),
    ensures
        bytes_from(writer, opcode, payload, keys, index) == frame_bytes(
            writer,
            message_frames(opcode, payload)[index],
            keys[index],
        ) + bytes_from(writer, opcode, payload, keys, index + 1),
        index == frame_count(payload.len()) - 1 ==> bytes_from(
            writer,
            opcode,
            payload,
            keys,
            index + 1,
        ) == Seq::<u8>::empty(),
{
    reveal(bytes_from);
    let frames = message_frames(opcode, payload);
    let here = frames.skip(index);
    let here_keys = keys.skip(index);
    lemma_frames_bytes_first(writer, here, here_keys);
    assert(here.skip(1) =~= frames.skip(index + 1));
    assert(here_keys.skip(1) =~= keys.skip(index + 1));
    if index == frame_count(payload.len()) - 1 {
        assert(frames.skip(index + 1) =~= Seq::<FrameView>::empty());
    }
}

/// Frame `index` of a message of text or binary data goes on with the
/// message that the frames before it have begun.
proof fn lemma_data_frame_joined(opcode: OpCode, payload: Seq<u8>, index: int)
    requires
        opcode == OpCode::Text || opcode == OpCode::Binary,
        0 <= index < frame_count(payload.len()),
    ensures
        ({
            let frame = message_frames(opcode, payload)[index];
            let last = index == frame_count(payload.len()) - 1;
            &&& frame.well_formed()
            &&& !frame.opcode.is_control()
            &&& frame.payload.len() <= FRAME_SIZE
            &&& (frame.opcode == OpCode::Continuation) == (index != 0)
            &&& joined(assembly_after(opcode, payload, index), frame) == if last {
                Assembly { opcode, payload, is_final: true }
            } else {
                assembly_after(opcode, payload, index + 1)
            }
        }),
{
    lemma_frame_at(opcode, payload, index);
    let frame = message_frames(opcode, payload)[index];
    let end = if payload.len() - index * FRAME_SIZE > FRAME_SIZE {
        index * FRAME_SIZE + FRAME_SIZE
    } else {
        payload.len() as int
    };
    let joined_payload = assembly_after(opcode, payload, index).payload + frame.payload;
    assert(joined_payload =~= payload.take(end));
    assert(payload.take(payload.len() as int) =~= payload);
}

/// Valid text is accepted whole, and every beginning of it is accepted as a
/// piece that more will follow.
pub proof fn lemma_valid_text_accepted(payload: Seq<u8>, upto: int)
    requires
        valid_utf8(payload),
        0 <= upto <= payload.len(),
    ensures
        !rejects(payload, true),
        !rejects(payload.take(upto), false),
{
    assert(payload.take(upto) + payload.skip(upto) =~= payload);
}

/// The frames of a message of text or binary data, from frame `index` on,
/// complete the message that the frames before them have begun.
proof fn lemma_data_frames_gathered(
    writer: Role,
    reader: Role,
    opcode: OpCode,
    payload: Seq<u8>,
    keys: Seq<Seq<u8>>,
    rest: Seq<u8>,
    index: int,
)
    requires
        opcode == OpCode::Text || opcode == OpCode::Binary,
        opcode == OpCode::Text ==> valid_utf8(payload),
        keys_for(frame_count(payload.len()), keys),
        writer == Role::Client ==> reader == Role::Server,
        0 <= index < frame_count(payload.len()),
    ensures
        gather(
            reader,
            assembly_after(opcode, payload, index),
            bytes_from(writer, opcode, payload, keys, index) + rest,
        ) == (Gathering {
            outcome: Gathered::Message(opcode, payload),
            assembly: Assembly::idle(),
            rest,
        }),
    decreases frame_count(payload.len()) - index,
{
    let last = index == frame_count(payload.len()) - 1;
    let frame = message_frames(opcode, payload)[index];
    let wire = frame_bytes(writer, frame, keys[index]);
    let later = bytes_from(writer, opcode, payload, keys, index + 1);
    let bytes = bytes_from(writer, opcode, payload, keys, index) + rest;
    let assembly = assembly_after(opcode, payload, index);
    let next = joined(assembly, frame);
    let target = Gathering {
        outcome: Gathered::Message(opcode, payload),
        assembly: Assembly::idle(),
        rest,
    };
    lemma_data_frame_joined(opcode, payload, index);
    assert(parse_frame(reader, bytes) == Parsed::Complete(frame, wire.len()) && bytes.skip(
        wire.len() as int,
    ) == later + rest) by {
        lemma_bytes_from(writer, opcode, payload, keys, index);
        assert(bytes =~= wire + (later + rest));
        lemma_frame_round_trip(writer, reader, frame, keys[index], later + rest);
        assert((wire + (later + rest)).skip(wire.len() as int) =~= later + rest);
    }
    assert(!(next.opcode == OpCode::Text && rejects(next.payload, next.is_final))) by {
        if opcode == OpCode::Text {
            lemma_valid_text_accepted(
                payload,
                if last {
                    payload.len() as int
                } else {
                    (index + 1) * FRAME_SIZE
                },
            );
            assert(payload.take(payload.len() as int) =~= payload);
            lemma_frame_at(opcode, payload, index + 1 - if last {
                1int
            } else {
                0int
            });
        }
    }
    assert(gather(reader, next, later + rest) == target) by {
        if last {
            lemma_bytes_from(writer, opcode, payload, keys, index);
            assert(later + rest =~= rest);
        } else {
            lemma_data_frames_gathered(writer, reader, opcode, payload, keys, rest, index + 1);
        }
    }
    assert(gather(reader, assembly, bytes) == gather(reader, next, later + rest)) by {
        lemma_frame_extent(reader, bytes);
    }
}

/// What is written as a message is read as that message: the frames that
/// stand for an opcode and a payload are put together again to the same
/// opcode and payload, and reading ends behind them with no message in the
/// making.
///
/// This holds of text that is valid UTF-8, of binary data, and of control
/// messages of at most 125 bytes, but for a close payload of a single byte.
pub proof fn lemma_written_is_gathered(
    writer: Role,
    reader: Role,
    opcode: OpCode,
    payload: Seq<u8>,
    keys: Seq<Seq<u8>>,
    rest: Seq<u8>,
)
    requires
        opcode != OpCode::Continuation,
        opcode.is_control() ==> payload.len() <= 125,
        !(opcode == OpCode::Close && payload.len() == 1),
        opcode == OpCode::Text ==> valid_utf8(payload),
        keys_for(frame_count(payload.len()), keys),
        writer == Role::Client ==> reader == Role::Server,
    ensures
        gather(
            reader,
            Assembly::idle(),
            frames_bytes(writer, message_frames(opcode, payload), keys) + rest,
        ) == (Gathering {
            outcome: Gathered::Message(opcode, payload),
            assembly: Assembly::idle(),
            rest,
        }),
{
    let frames = message_frames(opcode, payload);
    assert(frames.skip(0) =~= frames);
    assert(keys.skip(0) =~= keys);
    if opcode.is_control() {
        let bytes = frames_bytes(writer, frames, keys) + rest;
        let wire = frame_bytes(writer, frames[0], keys[0]);
        lemma_frame_at(opcode, payload, 0);
        assert(frames[0].payload =~= payload);
        assert(bytes == wire + rest) by {
            lemma_frames_bytes_first(writer, frames, keys);
            assert(frames.skip(1) =~= Seq::<FrameView>::empty());
            assert(frames_bytes(writer, frames.skip(1), keys.skip(1)) =~= Seq::<u8>::empty());
            assert(wire + Seq::<u8>::empty() =~= wire);
        }
        lemma_frame_round_trip(writer, reader, frames[0], keys[0], rest);
        assert(bytes.skip(wire.len() as int) =~= rest);
    } else {
        lemma_data_frames_gathered(writer, reader, opcode, payload, keys, rest, 0);
        reveal(bytes_from);
    }
}

impl MessageView {
    /// The message is read as it was written: text and binary data always,
    /// a ping or a pong of at most 125 bytes, and a close message whose
    /// payload is at most 125 bytes and that either has neither code nor
    /// reason, or has a code that may stand on the wire and no empty reason.
    pub open spec fn survives(self) -> bool {
        match self {
            MessageView::Text(_) => true,
            MessageView::Binary(_) => true,
            MessageView::Ping(data) => data.len() <= 125,
            MessageView::Pong(data) => data.len() <= 125,
            MessageView::Close(None, reason) => reason is None,
            MessageView::Close(Some(code), reason) => {
                &&& close_code_of(code.value()) == Some(code)
                &&& code.is_allowed()
                &&& reason matches Some(text) ==> text.len() > 0
                &&& self.payload().len() <= 125
            },
        }
    }
}

/// The opcode and the payload of a message make that message again.
pub proof fn lemma_message_of_payload(message: MessageView)
    requires
        message.survives(),
    ensures
        message_of(message.opcode(), message.payload()) == Ok::<MessageView, ProtocolError>(
            message,
        ),
        message.opcode() != OpCode::Continuation,
        message.opcode().is_control() ==> message.payload().len() <= 125,
        !(message.opcode() == OpCode::Close && message.payload().len() == 1),
        message.opcode() == OpCode::Text ==> valid_utf8(message.payload()),
{
    match message {
        MessageView::Text(text) => {
            encode_utf8_valid_utf8(text);
            encode_utf8_decode_utf8(text);
        },
        MessageView::Close(Some(code), reason) => {
            let head = be_bytes(code.value() as nat, 2);
            let data = message.payload();
            lemma_be_round_trip(code.value() as nat, 2);
            assert(pow256(2) == 65536) by {
                reveal_with_fuel(pow256, 3);
            }
            assert(data.take(2) =~= head);
            match reason {
                Some(text) => {
                    encode_utf8_valid_utf8(text);
                    encode_utf8_decode_utf8(text);
                    assert(data.skip(2) =~= encode_utf8(text));
                    lemma_encoding_is_not_empty(text);
                },
                None => {},
            }
        },
        _ => {},
    }
}

/// Text that is not empty has an encoding that is not empty.
proof fn lemma_encoding_is_not_empty(text: Seq<char>)
    requires
        text.len() > 0,
    ensures
        encode_utf8(text).len() > 0,
{
    vstd::utf8::encode_utf8_first_scalar(text);
}

/// A message that one endpoint has written is the message that the other
/// endpoint reads: its frames are taken off the bytes that were written, and
/// they make the message that was sent.
pub proof fn lemma_message_round_trip(
    writer: Role,
    reader: Role,
    message: MessageView,
    before: Seq<u8>,
    after: Seq<u8>,
    rest: Seq<u8>,
)
    requires
        message.survives(),
        sent(writer, before, after, message),
        writer == Role::Client ==> reader == Role::Server,
    ensures
        after.len() >= before.len(),
        after.take(before.len() as int) == before,
        gather(reader, Assembly::idle(), after.skip(before.len() as int) + rest) == (Gathering {
            outcome: Gathered::Message(message.opcode(), message.payload()),
            assembly: Assembly::idle(),
            rest,
        }),
        message_of(message.opcode(), message.payload()) == Ok::<MessageView, ProtocolError>(
            message,
        ),
{
    let frames = message_frames(message.opcode(), message.payload());
    let keys = choose|keys: Seq<Seq<u8>>|
        keys_for(frames.len(), keys) && after == before + #[trigger] frames_bytes(
            writer,
            frames,
            keys,
        );
    let wire = frames_bytes(writer, frames, keys);
    assert(after.take(before.len() as int) =~= before);
    assert(after.skip(before.len() as int) =~= wire);
    lemma_message_of_payload(message);
    lemma_frame_at(message.opcode(), message.payload(), 0);
    lemma_written_is_gathered(writer, reader, message.opcode(), message.payload(), keys, rest);
}

} // verus!
