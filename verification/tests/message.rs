use websocket_proto::close_code::CloseCode;
use websocket_proto::error::ProtocolError;
use websocket_proto::message::Message;
use websocket_proto::opcode::OpCode;

#[test]
fn close_code_numbers() {
    let named = [
        (CloseCode::NormalClosure, 1000u16),
        (CloseCode::GoingAway, 1001),
        (CloseCode::ProtocolError, 1002),
        (CloseCode::UnsupportedData, 1003),
        (CloseCode::Reserved, 1004),
        (CloseCode::NoStatusReceived, 1005),
        (CloseCode::AbnormalClosure, 1006),
        (CloseCode::InvalidFramePayloadData, 1007),
        (CloseCode::PolicyViolation, 1008),
        (CloseCode::MessageTooBig, 1009),
        (CloseCode::MandatoryExtension, 1010),
        (CloseCode::InternalServerError, 1011),
        (CloseCode::TlsHandshake, 1015),
    ];
    for (code, value) in named {
        assert_eq!(u16::from(code), value);
        assert_eq!(CloseCode::try_from(value), Ok(code));
    }
    for value in [1012u16, 1013, 1014, 1016, 2000, 2999] {
        assert_eq!(CloseCode::try_from(value), Ok(CloseCode::ReservedForStandards(value)));
        assert_eq!(u16::from(CloseCode::ReservedForStandards(value)), value);
    }
    for value in [3000u16, 3500, 3999] {
        assert_eq!(CloseCode::try_from(value), Ok(CloseCode::Libraries(value)));
        assert_eq!(u16::from(CloseCode::Libraries(value)), value);
    }
    for value in [4000u16, 4321, 4999] {
        assert_eq!(CloseCode::try_from(value), Ok(CloseCode::Private(value)));
        assert_eq!(u16::from(CloseCode::Private(value)), value);
    }
}

#[test]
fn close_codes_outside_the_range_are_invalid() {
    for value in [0u16, 1, 999, 5000, 5001, 65535] {
        assert_eq!(CloseCode::try_from(value), Err(ProtocolError::InvalidCloseCode));
    }
}

#[test]
fn every_number_is_a_close_code_exactly_from_1000_to_4999() {
    for value in 0..=u16::MAX {
        match CloseCode::try_from(value) {
            Ok(code) => {
                assert!((1000..=4999).contains(&value));
                assert_eq!(u16::from(code), value);
                let allowed = (1000..=1003).contains(&value)
                    || (1007..=1011).contains(&value)
                    || (3000..=4999).contains(&value);
                assert_eq!(code.is_allowed(), allowed, "code {}", value);
            }
            Err(e) => {
                assert_eq!(e, ProtocolError::InvalidCloseCode);
                assert!(!(1000..=4999).contains(&value));
            }
        }
    }
}

#[test]
fn codes_that_may_not_stand_on_the_wire() {
    assert!(!CloseCode::Reserved.is_allowed());
    assert!(!CloseCode::NoStatusReceived.is_allowed());
    assert!(!CloseCode::AbnormalClosure.is_allowed());
    assert!(!CloseCode::TlsHandshake.is_allowed());
    assert!(!CloseCode::ReservedForStandards(1012).is_allowed());
    assert!(CloseCode::NormalClosure.is_allowed());
    assert!(CloseCode::InternalServerError.is_allowed());
    assert!(CloseCode::Libraries(3000).is_allowed());
    assert!(CloseCode::Private(4999).is_allowed());
}

#[test]
fn from_raw_makes_data_messages() {
    assert_eq!(
        Message::from_raw(OpCode::Text, b"Hello".to_vec()),
        Ok(Message::Text(String::from("Hello")))
    );
    assert_eq!(Message::from_raw(OpCode::Text, vec![]), Ok(Message::Text(String::new())));
    assert_eq!(
        Message::from_raw(OpCode::Binary, vec![0xC0, 0x00]),
        Ok(Message::Binary(vec![0xC0, 0x00]))
    );
    assert_eq!(Message::from_raw(OpCode::Ping, vec![1, 2]), Ok(Message::Ping(vec![1, 2])));
    assert_eq!(Message::from_raw(OpCode::Pong, vec![3]), Ok(Message::Pong(vec![3])));
}

#[test]
fn from_raw_refuses_continuation() {
    assert_eq!(
        Message::from_raw(OpCode::Continuation, vec![]),
        Err(ProtocolError::DisallowedOpcode)
    );
    assert_eq!(
        Message::from_raw(OpCode::Continuation, vec![1, 2, 3]),
        Err(ProtocolError::DisallowedOpcode)
    );
}

#[test]
fn from_raw_refuses_invalid_text() {
    assert_eq!(
        Message::from_raw(OpCode::Text, vec![0xC0, 0x00]),
        Err(ProtocolError::InvalidUtf8)
    );
    assert_eq!(Message::from_raw(OpCode::Text, vec![0xE2, 0x82]), Err(ProtocolError::InvalidUtf8));
}

#[test]
fn from_raw_reads_close_payloads() {
    assert_eq!(Message::from_raw(OpCode::Close, vec![]), Ok(Message::Close(None, None)));
    assert_eq!(
        Message::from_raw(OpCode::Close, vec![0x03, 0xE8]),
        Ok(Message::Close(Some(CloseCode::NormalClosure), None))
    );
    assert_eq!(
        Message::from_raw(OpCode::Close, vec![0x03, 0xE9, b'b', b'y', b'e']),
        Ok(Message::Close(Some(CloseCode::GoingAway), Some(String::from("bye"))))
    );
    assert_eq!(
        Message::from_raw(OpCode::Close, vec![0x0F, 0xA0, 0xE2, 0x82, 0xAC]),
        Ok(Message::Close(Some(CloseCode::Private(4000)), Some(String::from("€"))))
    );
}

#[test]
fn from_raw_refuses_malformed_close_payloads() {
    assert_eq!(
        Message::from_raw(OpCode::Close, vec![0x03]),
        Err(ProtocolError::InvalidCloseSequence)
    );
    assert_eq!(
        Message::from_raw(OpCode::Close, vec![0x03, 0xE7]),
        Err(ProtocolError::InvalidCloseCode)
    );
    assert_eq!(
        Message::from_raw(OpCode::Close, vec![0x13, 0x88]),
        Err(ProtocolError::InvalidCloseCode)
    );
    assert_eq!(
        Message::from_raw(OpCode::Close, vec![0x00, 0x00, b'x']),
        Err(ProtocolError::InvalidCloseCode)
    );
    assert_eq!(
        Message::from_raw(OpCode::Close, vec![0x03, 0xE8, 0xC0, 0x00]),
        Err(ProtocolError::InvalidUtf8)
    );
}

#[test]
fn from_raw_refuses_codes_that_may_not_be_received() {
    for value in [1004u16, 1005, 1006, 1015, 1012, 1013, 1014, 1016, 2000, 2999] {
        let payload = vec![(value >> 8) as u8, (value & 0xFF) as u8];
        assert_eq!(
            Message::from_raw(OpCode::Close, payload),
            Err(ProtocolError::DisallowedCloseCode),
            "code {}",
            value
        );
        let with_reason = vec![(value >> 8) as u8, (value & 0xFF) as u8, 0xFF];
        assert_eq!(
            Message::from_raw(OpCode::Close, with_reason),
            Err(ProtocolError::DisallowedCloseCode),
            "code {}",
            value
        );
    }
    for value in [1000u16, 1003, 1007, 1011, 3000, 4999] {
        let payload = vec![(value >> 8) as u8, (value & 0xFF) as u8];
        assert!(Message::from_raw(OpCode::Close, payload).is_ok(), "code {}", value);
    }
}

#[test]
fn into_raw_gives_opcode_and_payload() {
    assert_eq!(
        Message::Text(String::from("Hello")).into_raw(),
        (OpCode::Text, b"Hello".to_vec())
    );
    assert_eq!(Message::Text(String::from("€")).into_raw(), (OpCode::Text, vec![0xE2, 0x82, 0xAC]));
    assert_eq!(Message::Binary(vec![1, 2, 3]).into_raw(), (OpCode::Binary, vec![1, 2, 3]));
    assert_eq!(Message::Ping(vec![]).into_raw(), (OpCode::Ping, vec![]));
    assert_eq!(Message::Pong(vec![7]).into_raw(), (OpCode::Pong, vec![7]));
}

#[test]
fn into_raw_writes_close_payloads() {
    assert_eq!(Message::Close(None, None).into_raw(), (OpCode::Close, vec![]));
    assert_eq!(
        Message::Close(None, Some(String::from("dropped"))).into_raw(),
        (OpCode::Close, vec![])
    );
    assert_eq!(
        Message::Close(Some(CloseCode::NormalClosure), None).into_raw(),
        (OpCode::Close, vec![0x03, 0xE8])
    );
    assert_eq!(
        Message::Close(Some(CloseCode::InvalidFramePayloadData), Some(String::from("invalid utf8")))
            .into_raw(),
        (OpCode::Close, [&[0x03u8, 0xEF][..], b"invalid utf8"].concat())
    );
    assert_eq!(
        Message::Close(Some(CloseCode::Private(4999)), Some(String::new())).into_raw(),
        (OpCode::Close, vec![0x13, 0x87])
    );
}

#[test]
fn messages_survive_into_raw_and_from_raw() {
    let messages = vec![
        Message::Text(String::from("héllo")),
        Message::Text(String::new()),
        Message::Binary(vec![0, 255, 128]),
        Message::Ping(vec![1]),
        Message::Pong(vec![]),
        Message::Close(None, None),
        Message::Close(Some(CloseCode::NormalClosure), None),
        Message::Close(Some(CloseCode::Libraries(3210)), Some(String::from("why"))),
    ];
    for message in messages {
        let (opcode, payload) = message.clone().into_raw();
        assert_eq!(Message::from_raw(opcode, payload), Ok(message));
    }
}

#[test]
fn message_kinds() {
    let text = Message::Text(String::from("a"));
    let binary = Message::Binary(vec![1]);
    let close = Message::Close(None, None);
    let ping = Message::Ping(vec![]);
    let pong = Message::Pong(vec![]);
    assert!(text.is_text() && !text.is_binary() && !text.is_close() && !text.is_ping());
    assert!(binary.is_binary() && !binary.is_text() && !binary.is_pong());
    assert!(close.is_close() && !close.is_text() && !close.is_ping());
    assert!(ping.is_ping() && !ping.is_pong() && !ping.is_close());
    assert!(pong.is_pong() && !pong.is_ping() && !pong.is_binary());
}

#[test]
fn into_text_of_each_kind() {
    assert_eq!(Message::Text(String::from("Hello")).into_text(), Ok(String::from("Hello")));
    assert_eq!(Message::Binary(b"Hello".to_vec()).into_text(), Ok(String::from("Hello")));
    assert_eq!(Message::Binary(vec![0xFF]).into_text(), Err(ProtocolError::InvalidUtf8));
    assert_eq!(Message::Ping(b"Hello".to_vec()).into_text(), Err(ProtocolError::MessageCannotBeText));
    assert_eq!(Message::Pong(vec![]).into_text(), Err(ProtocolError::MessageCannotBeText));
    assert_eq!(Message::Close(None, None).into_text(), Err(ProtocolError::MessageCannotBeText));
}

#[test]
fn close_message_for_each_error() {
    assert_eq!(
        ProtocolError::InvalidUtf8.to_close(),
        Message::Close(Some(CloseCode::InvalidFramePayloadData), Some(String::from("invalid utf8")))
    );
    let others = [
        ProtocolError::InvalidCloseCode,
        ProtocolError::InvalidCloseSequence,
        ProtocolError::InvalidOpcode,
        ProtocolError::InvalidRsv,
        ProtocolError::InvalidPayloadLength,
        ProtocolError::DisallowedOpcode,
        ProtocolError::DisallowedCloseCode,
        ProtocolError::MessageCannotBeText,
        ProtocolError::ServerMaskedData,
        ProtocolError::InvalidControlFrameLength,
        ProtocolError::FragmentedControlFrame,
        ProtocolError::UnexpectedContinuation,
        ProtocolError::UnfinishedMessage,
    ];
    for error in others {
        assert_eq!(
            error.to_close(),
            Message::Close(Some(CloseCode::ProtocolError), Some(String::from("protocol violation")))
        );
    }
}

#[test]
fn clone_keeps_the_message() {
    let message = Message::Close(Some(CloseCode::GoingAway), Some(String::from("bye")));
    assert_eq!(message.clone(), message);
    let message = Message::Binary(vec![1, 2, 3]);
    assert_eq!(message.clone(), message);
}
