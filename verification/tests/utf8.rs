use websocket_proto::error::ProtocolError;
use websocket_proto::utf8::{parse, should_fail_fast};

#[test]
fn valid_text_is_accepted_whole() {
    assert_eq!(should_fail_fast(b"", true), (false, 0));
    assert_eq!(should_fail_fast(b"", false), (false, 0));
    assert_eq!(should_fail_fast(b"Hello", true), (false, 5));
    assert_eq!(should_fail_fast("héllo wörld €𝄞".as_bytes(), true), (false, 21));
    assert_eq!(should_fail_fast("héllo wörld €𝄞".as_bytes(), false), (false, 21));
}

#[test]
fn character_cut_short_is_waited_for() {
    let euro = "€".as_bytes();
    assert_eq!(euro, &[0xE2, 0x82, 0xAC]);
    assert_eq!(should_fail_fast(&[b'a', 0xE2], false), (false, 1));
    assert_eq!(should_fail_fast(&[b'a', 0xE2, 0x82], false), (false, 1));
    assert_eq!(should_fail_fast(&[b'a', 0xE2, 0x82, 0xAC], false), (false, 4));
    assert_eq!(should_fail_fast(&[0xF0], false), (false, 0));
    assert_eq!(should_fail_fast(&[0xF0, 0x9D], false), (false, 0));
    assert_eq!(should_fail_fast(&[0xF0, 0x9D, 0x84], false), (false, 0));
    assert_eq!(should_fail_fast(&[0xF0, 0x9D, 0x84, 0x9E], false), (false, 4));
}

#[test]
fn character_cut_short_fails_at_the_end() {
    assert_eq!(should_fail_fast(&[b'a', 0xE2], true), (true, 1));
    assert_eq!(should_fail_fast(&[b'a', 0xE2, 0x82], true), (true, 1));
    assert_eq!(should_fail_fast(&[0xF0, 0x9D, 0x84], true), (true, 0));
}

#[test]
fn malformed_bytes_fail_at_once() {
    for is_final in [false, true] {
        assert_eq!(should_fail_fast(&[0xC0, 0x00], is_final), (true, 0));
        assert_eq!(should_fail_fast(&[0xC0], is_final), (true, 0));
        assert_eq!(should_fail_fast(&[0xC1, 0xBF], is_final), (true, 0));
        assert_eq!(should_fail_fast(&[b'o', b'k', 0x80], is_final), (true, 2));
        assert_eq!(should_fail_fast(&[b'o', b'k', 0xFF], is_final), (true, 2));
        assert_eq!(should_fail_fast(&[0xF5, 0x80], is_final), (true, 0));
        assert_eq!(should_fail_fast(&[0xE2, 0x28, 0xA1], is_final), (true, 0));
        assert_eq!(should_fail_fast(&[0xE2, 0x82, 0x28], is_final), (true, 0));
    }
}

#[test]
fn overlong_and_surrogate_forms_are_refused() {
    for is_final in [false, true] {
        // overlong three-byte form
        assert_eq!(should_fail_fast(&[0xE0, 0x9F, 0xBF], is_final), (true, 0));
        assert_eq!(should_fail_fast(&[0xE0, 0x9F], is_final), (true, 0));
        // surrogates
        assert_eq!(should_fail_fast(&[0xED, 0xA0, 0x80], is_final), (true, 0));
        assert_eq!(should_fail_fast(&[0xED, 0xA0], is_final), (true, 0));
        // overlong four-byte form, and beyond the last code point
        assert_eq!(should_fail_fast(&[0xF0, 0x8F, 0xBF, 0xBF], is_final), (true, 0));
        assert_eq!(should_fail_fast(&[0xF4, 0x90, 0x80, 0x80], is_final), (true, 0));
        assert_eq!(should_fail_fast(&[0xF4, 0x90], is_final), (true, 0));
    }
    assert_eq!(should_fail_fast(&[0xE0, 0xA0, 0x80], true), (false, 3));
    assert_eq!(should_fail_fast(&[0xED, 0x9F, 0xBF], true), (false, 3));
    assert_eq!(should_fail_fast(&[0xF0, 0x90, 0x80, 0x80], true), (false, 4));
    assert_eq!(should_fail_fast(&[0xF4, 0x8F, 0xBF, 0xBF], true), (false, 4));
    assert_eq!(should_fail_fast(&[0xC2, 0x80], true), (false, 2));
    assert_eq!(should_fail_fast(&[0xDF, 0xBF], true), (false, 2));
}

#[test]
fn validator_agrees_with_the_standard_library() {
    let mut state: u32 = 0x2545F491;
    for _ in 0..20000 {
        let mut bytes = Vec::new();
        state ^= state << 13;
        state ^= state >> 17;
        state ^= state << 5;
        let len = (state % 6) as usize;
        for _ in 0..len {
            state ^= state << 13;
            state ^= state >> 17;
            state ^= state << 5;
            // favour the bytes where the rules change
            let pick = [
                0x00u8, 0x7F, 0x80, 0x8F, 0x90, 0x9F, 0xA0, 0xBF, 0xC0, 0xC1, 0xC2, 0xDF, 0xE0,
                0xE1, 0xEC, 0xED, 0xEE, 0xEF, 0xF0, 0xF1, 0xF3, 0xF4, 0xF5, 0xFF,
            ];
            bytes.push(pick[(state % pick.len() as u32) as usize]);
        }
        let (final_fail, valid) = should_fail_fast(&bytes, true);
        let (early_fail, early_valid) = should_fail_fast(&bytes, false);
        match std::str::from_utf8(&bytes) {
            Ok(_) => {
                assert_eq!((final_fail, valid), (false, bytes.len()), "{:x?}", bytes);
                assert_eq!((early_fail, early_valid), (false, bytes.len()), "{:x?}", bytes);
            }
            Err(e) => {
                assert_eq!((final_fail, valid), (true, e.valid_up_to()), "{:x?}", bytes);
                assert_eq!(
                    (early_fail, early_valid),
                    (e.error_len().is_some(), e.valid_up_to()),
                    "{:x?}",
                    bytes
                );
            }
        }
    }
}

#[test]
fn parse_gives_the_string() {
    assert_eq!(parse(b"Hello".to_vec()), Ok(String::from("Hello")));
    assert_eq!(parse("€".as_bytes().to_vec()), Ok(String::from("€")));
    assert_eq!(parse(vec![]), Ok(String::new()));
    assert_eq!(parse(vec![0xC0, 0x00]), Err(ProtocolError::InvalidUtf8));
    assert_eq!(parse(vec![0xE2, 0x82]), Err(ProtocolError::InvalidUtf8));
}
