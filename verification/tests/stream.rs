use bytes::BytesMut;
use websocket_proto::close_code::CloseCode;
use websocket_proto::codec::WebsocketProtocol;
use websocket_proto::error::{Error, ProtocolError};
use websocket_proto::frame::{Frame, Role};
use websocket_proto::message::Message;
use websocket_proto::opcode::OpCode;
use websocket_proto::stream::{ReadOutcome, StreamState, WebsocketStream, FRAME_SIZE};

fn frames_of(reader: Role, bytes: &[u8]) -> Vec<Frame> {
    let mut codec = WebsocketProtocol::new(reader);
    let mut buf = BytesMut::from(bytes);
    let mut frames = Vec::new();
    while let Some(frame) = codec.decode(&mut buf).unwrap() {
        frames.push(frame);
    }
    assert!(buf.is_empty());
    frames
}

fn invalid_utf8_close() -> Vec<u8> {
    [&[0x88u8, 14, 0x03, 0xEF][..], b"invalid utf8"].concat()
}

fn protocol_violation_close() -> Vec<u8> {
    [&[0x88u8, 20, 0x03, 0xEA][..], b"protocol violation"].concat()
}

#[test]
fn new_stream_is_active_and_empty() {
    let mut stream = WebsocketStream::from_raw_stream(Role::Client);
    assert_eq!(stream.role(), Role::Client);
    assert_eq!(WebsocketStream::from_raw_stream(Role::Server).role(), Role::Server);
    assert_eq!(stream.state(), StreamState::Active);
    assert_eq!(stream.take_outgoing(), Vec::<u8>::new());
    assert_eq!(stream.read_message(), ReadOutcome::Pending);
}

#[test]
fn stream_takes_over_buffers() {
    let read = BytesMut::from(&[0x81u8, 0x02, b'h', b'i'][..]);
    let write = BytesMut::from(&b"left over"[..]);
    let mut stream = WebsocketStream::from_parts(Role::Client, read, write);
    assert_eq!(stream.read_message(), ReadOutcome::Message(Message::Text(String::from("hi"))));
    assert_eq!(stream.take_outgoing(), b"left over".to_vec());
    assert_eq!(stream.take_outgoing(), Vec::<u8>::new());
}

#[test]
fn ping_is_answered_by_pong() {
    let mut stream = WebsocketStream::from_raw_stream(Role::Server);
    stream.feed(&[0x89, 0x00]);
    assert_eq!(stream.read_message(), ReadOutcome::Message(Message::Ping(vec![])));
    assert_eq!(stream.take_outgoing(), vec![0x8A, 0x00]);
    assert_eq!(stream.state(), StreamState::Active);
}

#[test]
fn pong_carries_the_payload_of_the_ping() {
    let mut stream = WebsocketStream::from_raw_stream(Role::Server);
    stream.feed(&[0x89, 0x03, 1, 2, 3]);
    assert_eq!(stream.read_message(), ReadOutcome::Message(Message::Ping(vec![1, 2, 3])));
    assert_eq!(stream.take_outgoing(), vec![0x8A, 0x03, 1, 2, 3]);
}

#[test]
fn client_answers_ping_with_masked_pong() {
    let mut stream = WebsocketStream::from_raw_stream(Role::Client);
    stream.feed(&[0x89, 0x02, 7, 8]);
    assert_eq!(stream.read_message(), ReadOutcome::Message(Message::Ping(vec![7, 8])));
    let out = stream.take_outgoing();
    assert_eq!(out.len(), 8);
    assert_eq!(out[1], 0x82);
    assert_eq!(frames_of(Role::Server, &out), vec![Frame::new(OpCode::Pong, true, vec![7, 8])]);
}

#[test]
fn simple_text() {
    let mut stream = WebsocketStream::from_raw_stream(Role::Client);
    stream.feed(&[0x81, 0x05, 0x48, 0x65, 0x6C, 0x6C, 0x6F]);
    assert_eq!(stream.read_message(), ReadOutcome::Message(Message::Text(String::from("Hello"))));
    assert_eq!(stream.take_outgoing(), Vec::<u8>::new());
    assert_eq!(stream.read_message(), ReadOutcome::Pending);
}

#[test]
fn masked_client_frame() {
    let mut stream = WebsocketStream::from_raw_stream(Role::Server);
    stream.feed(&[0x81, 0x85, 0x37, 0xFA, 0x21, 0x3D, 0x7F, 0x9F, 0x4D, 0x51, 0x58]);
    assert_eq!(stream.read_message(), ReadOutcome::Message(Message::Text(String::from("Hello"))));
}

#[test]
fn fragmented_binary() {
    let mut stream = WebsocketStream::from_raw_stream(Role::Client);
    stream.feed(&[0x02, 0x03, b'A', b'B', b'C']);
    stream.feed(&[0x80, 0x02, b'D', b'E']);
    assert_eq!(
        stream.read_message(),
        ReadOutcome::Message(Message::Binary(b"ABCDE".to_vec()))
    );
    assert_eq!(stream.read_message(), ReadOutcome::Pending);
}

#[test]
fn fragments_may_arrive_one_read_at_a_time() {
    let mut stream = WebsocketStream::from_raw_stream(Role::Client);
    stream.feed(&[0x02, 0x03, b'A', b'B', b'C']);
    assert_eq!(stream.read_message(), ReadOutcome::Pending);
    stream.feed(&[0x00, 0x01, b'D']);
    assert_eq!(stream.read_message(), ReadOutcome::Pending);
    stream.feed(&[0x80, 0x01]);
    assert_eq!(stream.read_message(), ReadOutcome::Pending);
    stream.feed(&[b'E']);
    assert_eq!(
        stream.read_message(),
        ReadOutcome::Message(Message::Binary(b"ABCDE".to_vec()))
    );
}

#[test]
fn control_frame_between_fragments() {
    let mut stream = WebsocketStream::from_raw_stream(Role::Client);
    stream.feed(&[0x01, 0x02, b'a', b'b', 0x89, 0x01, b'!', 0x80, 0x01, b'c']);
    assert_eq!(stream.read_message(), ReadOutcome::Message(Message::Ping(vec![b'!'])));
    assert_eq!(stream.read_message(), ReadOutcome::Message(Message::Text(String::from("abc"))));
    let out = stream.take_outgoing();
    assert_eq!(frames_of(Role::Server, &out), vec![Frame::new(OpCode::Pong, true, vec![b'!'])]);
}

#[test]
fn text_split_inside_a_character() {
    let mut stream = WebsocketStream::from_raw_stream(Role::Client);
    stream.feed(&[0x01, 0x02, b'a', 0xE2]);
    stream.feed(&[0x00, 0x01, 0x82]);
    stream.feed(&[0x80, 0x02, 0xAC, b'b']);
    assert_eq!(stream.read_message(), ReadOutcome::Message(Message::Text(String::from("a€b"))));
}

#[test]
fn text_cut_short_at_the_last_frame_is_refused() {
    let mut stream = WebsocketStream::from_raw_stream(Role::Server);
    stream.feed(&[0x01, 0x02, b'a', 0xE2, 0x80, 0x01, 0x82]);
    assert_eq!(stream.read_message(), ReadOutcome::Failed(Error::Protocol(ProtocolError::InvalidUtf8)));
    assert_eq!(stream.take_outgoing(), invalid_utf8_close());
}

#[test]
fn server_close_echo() {
    let mask = [0x11u8, 0x22, 0x33, 0x44];
    let mut stream = WebsocketStream::from_raw_stream(Role::Server);
    stream.feed(&[0x88, 0x82, mask[0], mask[1], mask[2], mask[3], 0x03 ^ mask[0], 0xE8 ^ mask[1]]);
    assert_eq!(
        stream.read_message(),
        ReadOutcome::Message(Message::Close(Some(CloseCode::NormalClosure), None))
    );
    assert_eq!(stream.state(), StreamState::ClosedByPeer);
    assert_eq!(stream.take_outgoing(), vec![0x88, 0x02, 0x03, 0xE8]);
    assert_eq!(
        stream.write_message(Message::Text(String::from("late"))),
        Err(Error::ConnectionClosed)
    );
    assert_eq!(stream.state(), StreamState::Terminated);
    assert_eq!(stream.write_message(Message::Ping(vec![])), Err(Error::AlreadyClosed));
    assert_eq!(stream.read_message(), ReadOutcome::Failed(Error::AlreadyClosed));
}

#[test]
fn close_echo_repeats_code_and_reason() {
    let mut stream = WebsocketStream::from_raw_stream(Role::Server);
    stream.feed(&[0x88, 0x05, 0x03, 0xE9, b'b', b'y', b'e']);
    assert_eq!(
        stream.read_message(),
        ReadOutcome::Message(Message::Close(Some(CloseCode::GoingAway), Some(String::from("bye"))))
    );
    assert_eq!(stream.take_outgoing(), vec![0x88, 0x05, 0x03, 0xE9, b'b', b'y', b'e']);
}

#[test]
fn client_does_not_terminate_on_write_after_peer_close() {
    let mut stream = WebsocketStream::from_raw_stream(Role::Client);
    stream.feed(&[0x88, 0x00]);
    assert_eq!(stream.read_message(), ReadOutcome::Message(Message::Close(None, None)));
    assert_eq!(stream.state(), StreamState::ClosedByPeer);
    let echo = stream.take_outgoing();
    assert_eq!(frames_of(Role::Server, &echo), vec![Frame::new(OpCode::Close, true, vec![])]);
    assert_eq!(stream.close(Some(CloseCode::NormalClosure), None), Ok(()));
    assert_eq!(stream.state(), StreamState::ClosedByPeer);
}

#[test]
fn close_that_we_started_is_acknowledged() {
    let mut stream = WebsocketStream::from_raw_stream(Role::Client);
    assert_eq!(stream.close(Some(CloseCode::NormalClosure), Some(String::from("done"))), Ok(()));
    assert_eq!(stream.state(), StreamState::ClosedByUs);
    let sent = stream.take_outgoing();
    assert_eq!(
        frames_of(Role::Server, &sent),
        vec![Frame::new(OpCode::Close, true, [&[0x03u8, 0xE8][..], b"done"].concat())]
    );
    stream.feed(&[0x88, 0x02, 0x03, 0xE8]);
    assert_eq!(
        stream.read_message(),
        ReadOutcome::Message(Message::Close(Some(CloseCode::NormalClosure), None))
    );
    assert_eq!(stream.state(), StreamState::CloseAcknowledged);
    assert_eq!(stream.take_outgoing(), Vec::<u8>::new());
    stream.feed(&[0x88, 0x00]);
    assert_eq!(stream.read_message(), ReadOutcome::Closed);
    assert_eq!(stream.state(), StreamState::CloseAcknowledged);
}

#[test]
fn server_close_is_acknowledged_and_the_next_write_terminates() {
    let mut stream = WebsocketStream::from_raw_stream(Role::Server);
    assert_eq!(stream.close(None, None), Ok(()));
    assert_eq!(stream.state(), StreamState::ClosedByUs);
    assert_eq!(stream.take_outgoing(), vec![0x88, 0x00]);
    stream.feed(&[0x88, 0x80, 1, 2, 3, 4]);
    assert_eq!(stream.read_message(), ReadOutcome::Message(Message::Close(None, None)));
    assert_eq!(stream.state(), StreamState::CloseAcknowledged);
    assert_eq!(stream.write_message(Message::Pong(vec![])), Err(Error::ConnectionClosed));
    assert_eq!(stream.take_outgoing(), vec![0x8A, 0x00]);
    assert_eq!(stream.state(), StreamState::Terminated);
}

#[test]
fn second_close_of_the_peer_ends_the_stream() {
    let mut stream = WebsocketStream::from_raw_stream(Role::Client);
    stream.feed(&[0x88, 0x00, 0x88, 0x00]);
    assert_eq!(stream.read_message(), ReadOutcome::Message(Message::Close(None, None)));
    stream.take_outgoing();
    assert_eq!(stream.read_message(), ReadOutcome::Closed);
    assert_eq!(stream.state(), StreamState::ClosedByPeer);
    assert_eq!(stream.take_outgoing(), Vec::<u8>::new());
}

#[test]
fn writing_close_twice_keeps_the_state() {
    let mut stream = WebsocketStream::from_raw_stream(Role::Server);
    assert_eq!(stream.close(None, None), Ok(()));
    assert_eq!(stream.close(None, None), Ok(()));
    assert_eq!(stream.state(), StreamState::ClosedByUs);
    assert_eq!(stream.take_outgoing(), vec![0x88, 0x00, 0x88, 0x00]);
}

#[test]
fn server_ping_after_acknowledged_close_terminates() {
    let mut stream = WebsocketStream::from_raw_stream(Role::Server);
    stream.close(None, None).unwrap();
    stream.feed(&[0x88, 0x00, 0x89, 0x00]);
    assert_eq!(stream.read_message(), ReadOutcome::Message(Message::Close(None, None)));
    stream.take_outgoing();
    assert_eq!(stream.read_message(), ReadOutcome::Failed(Error::ConnectionClosed));
    assert_eq!(stream.take_outgoing(), vec![0x8A, 0x00]);
    assert_eq!(stream.state(), StreamState::Terminated);
}

#[test]
fn invalid_utf8_mid_stream() {
    let mut stream = WebsocketStream::from_raw_stream(Role::Client);
    stream.feed(&[0x81, 0x7D, 0xC0, 0x00]);
    assert_eq!(stream.read_message(), ReadOutcome::Failed(Error::Protocol(ProtocolError::InvalidUtf8)));
    assert_eq!(stream.state(), StreamState::ClosedByUs);
    let out = stream.take_outgoing();
    assert_eq!(out[0], 0x88);
    assert_eq!(out[1], 0x80 | 14);
    assert_eq!(
        frames_of(Role::Server, &out),
        vec![Frame::new(OpCode::Close, true, [&[0x03u8, 0xEF][..], b"invalid utf8"].concat())]
    );
}

#[test]
fn invalid_utf8_in_a_whole_text_message() {
    let mut stream = WebsocketStream::from_raw_stream(Role::Server);
    stream.feed(&[0x81, 0x02, 0xC0, 0x00]);
    assert_eq!(stream.read_message(), ReadOutcome::Failed(Error::Protocol(ProtocolError::InvalidUtf8)));
    assert_eq!(stream.take_outgoing(), invalid_utf8_close());
    assert_eq!(stream.state(), StreamState::ClosedByUs);
}

#[test]
fn invalid_utf8_in_a_continuation() {
    let mut stream = WebsocketStream::from_raw_stream(Role::Server);
    stream.feed(&[0x01, 0x01, b'a', 0x00, 0x01, 0xFF]);
    assert_eq!(stream.read_message(), ReadOutcome::Failed(Error::Protocol(ProtocolError::InvalidUtf8)));
    assert_eq!(stream.take_outgoing(), invalid_utf8_close());
}

#[test]
fn binary_messages_are_not_validated() {
    let mut stream = WebsocketStream::from_raw_stream(Role::Server);
    stream.feed(&[0x02, 0x01, 0xFF, 0x80, 0x01, 0xC0]);
    assert_eq!(stream.read_message(), ReadOutcome::Message(Message::Binary(vec![0xFF, 0xC0])));
}

#[test]
fn continuation_without_a_message() {
    let mut stream = WebsocketStream::from_raw_stream(Role::Server);
    stream.feed(&[0x80, 0x01, b'x']);
    assert_eq!(
        stream.read_message(),
        ReadOutcome::Failed(Error::Protocol(ProtocolError::UnexpectedContinuation))
    );
    assert_eq!(stream.take_outgoing(), protocol_violation_close());
    assert_eq!(stream.state(), StreamState::ClosedByUs);
}

#[test]
fn data_frame_inside_a_message() {
    for second in [0x81u8, 0x82, 0x01, 0x02] {
        let mut stream = WebsocketStream::from_raw_stream(Role::Server);
        stream.feed(&[0x01, 0x01, b'a', second, 0x01, b'b']);
        assert_eq!(
            stream.read_message(),
            ReadOutcome::Failed(Error::Protocol(ProtocolError::UnfinishedMessage))
        );
        assert_eq!(stream.take_outgoing(), protocol_violation_close());
    }
}

#[test]
fn frame_errors_are_answered_with_a_close() {
    let cases: Vec<(Vec<u8>, ProtocolError)> = vec![
        (vec![0xC1, 0x00], ProtocolError::InvalidRsv),
        (vec![0x83, 0x00], ProtocolError::InvalidOpcode),
        (vec![0x09, 0x00], ProtocolError::FragmentedControlFrame),
        (vec![0x89, 0x7E], ProtocolError::InvalidControlFrameLength),
        (vec![0x88, 0x01, 0x00], ProtocolError::InvalidCloseSequence),
        (vec![0x82, 0x7F, 0x80, 0, 0, 0, 0, 0, 0, 0], ProtocolError::InvalidPayloadLength),
        (vec![0x88, 0x02, 0x03, 0xEC], ProtocolError::DisallowedCloseCode),
        (vec![0x88, 0x02, 0x00, 0x01], ProtocolError::InvalidCloseCode),
    ];
    for (bytes, error) in cases {
        let mut stream = WebsocketStream::from_raw_stream(Role::Server);
        stream.feed(&bytes);
        assert_eq!(stream.read_message(), ReadOutcome::Failed(Error::Protocol(error)));
        assert_eq!(stream.take_outgoing(), protocol_violation_close());
        assert_eq!(stream.state(), StreamState::ClosedByUs);
    }
}

#[test]
fn client_refuses_masked_frames_with_a_close() {
    let mut stream = WebsocketStream::from_raw_stream(Role::Client);
    stream.feed(&[0x81, 0x80, 0, 0, 0, 0]);
    assert_eq!(
        stream.read_message(),
        ReadOutcome::Failed(Error::Protocol(ProtocolError::ServerMaskedData))
    );
    let out = stream.take_outgoing();
    assert_eq!(
        frames_of(Role::Server, &out),
        vec![Frame::new(
            OpCode::Close,
            true,
            [&[0x03u8, 0xEA][..], b"protocol violation"].concat()
        )]
    );
}

#[test]
fn server_error_after_peer_close_reports_the_closed_connection() {
    let mut stream = WebsocketStream::from_raw_stream(Role::Server);
    stream.feed(&[0x88, 0x00, 0xC1, 0x00]);
    assert_eq!(stream.read_message(), ReadOutcome::Message(Message::Close(None, None)));
    stream.take_outgoing();
    assert_eq!(stream.read_message(), ReadOutcome::Failed(Error::ConnectionClosed));
    assert_eq!(stream.take_outgoing(), protocol_violation_close());
    assert_eq!(stream.state(), StreamState::Terminated);
}

#[test]
fn write_splits_the_payload_into_frames() {
    for (len, count) in [
        (0usize, 1usize),
        (1, 1),
        (4095, 1),
        (4096, 1),
        (4097, 2),
        (8192, 2),
        (8193, 3),
        (10000, 3),
    ] {
        let payload: Vec<u8> = (0..len).map(|i| (i % 253) as u8).collect();
        for role in [Role::Server, Role::Client] {
            let mut stream = WebsocketStream::from_raw_stream(role);
            assert_eq!(stream.write_message(Message::Binary(payload.clone())), Ok(()));
            let frames = frames_of(Role::Server, &stream.take_outgoing());
            assert_eq!(frames.len(), count, "length {}", len);
            let mut joined = Vec::new();
            for (i, frame) in frames.iter().enumerate() {
                let opcode = if i == 0 { OpCode::Binary } else { OpCode::Continuation };
                assert_eq!(frame.opcode, opcode);
                assert_eq!(frame.is_final, i == count - 1);
                assert!(frame.payload.len() <= FRAME_SIZE);
                if i + 1 < count {
                    assert_eq!(frame.payload.len(), FRAME_SIZE);
                }
                joined.extend_from_slice(&frame.payload);
            }
            assert_eq!(joined, payload);
        }
    }
}

#[test]
fn write_of_an_empty_text_is_one_final_frame() {
    let mut stream = WebsocketStream::from_raw_stream(Role::Server);
    assert_eq!(stream.write_message(Message::Text(String::new())), Ok(()));
    assert_eq!(stream.take_outgoing(), vec![0x81, 0x00]);
}

#[test]
fn written_messages_are_read_back() {
    let messages = vec![
        Message::Text("héllo ".repeat(2000)),
        Message::Binary(vec![0xAB; 9000]),
        Message::Ping(vec![1, 2, 3]),
        Message::Pong(vec![]),
        Message::Text(String::new()),
    ];
    let mut client = WebsocketStream::from_raw_stream(Role::Client);
    let mut server = WebsocketStream::from_raw_stream(Role::Server);
    for message in messages {
        assert_eq!(client.write_message(message.clone()), Ok(()));
        let wire = client.take_outgoing();
        for chunk in wire.chunks(7) {
            server.feed(chunk);
        }
        assert_eq!(server.read_message(), ReadOutcome::Message(message.clone()));
        assert_eq!(server.read_message(), ReadOutcome::Pending);
        server.take_outgoing();

        assert_eq!(server.write_message(message.clone()), Ok(()));
        client.feed(&server.take_outgoing());
        assert_eq!(client.read_message(), ReadOutcome::Message(message));
        client.take_outgoing();
    }
}

#[test]
fn terminated_stream_refuses_everything() {
    let mut stream = WebsocketStream::from_raw_stream(Role::Server);
    stream.feed(&[0x88, 0x00]);
    stream.read_message();
    assert_eq!(stream.close(None, None), Err(Error::ConnectionClosed));
    stream.take_outgoing();
    stream.feed(&[0x81, 0x00]);
    assert_eq!(stream.read_message(), ReadOutcome::Failed(Error::AlreadyClosed));
    assert_eq!(stream.write_message(Message::Text(String::new())), Err(Error::AlreadyClosed));
    assert_eq!(stream.close(None, None), Err(Error::AlreadyClosed));
    assert_eq!(stream.take_outgoing(), Vec::<u8>::new());
    assert_eq!(stream.state(), StreamState::Terminated);
}

#[test]
fn stream_states() {
    assert!(StreamState::Active.can_read());
    assert!(StreamState::ClosedByUs.can_read());
    assert!(!StreamState::ClosedByPeer.can_read());
    assert!(!StreamState::CloseAcknowledged.can_read());
    assert!(!StreamState::Terminated.can_read());
    assert_eq!(StreamState::Active.check_active(), Ok(()));
    assert_eq!(StreamState::ClosedByPeer.check_active(), Ok(()));
    assert_eq!(StreamState::ClosedByUs.check_active(), Ok(()));
    assert_eq!(StreamState::CloseAcknowledged.check_active(), Ok(()));
    assert_eq!(StreamState::Terminated.check_active(), Err(Error::AlreadyClosed));
}
