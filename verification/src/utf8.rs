//! Incremental UTF-8 validation.
//!
//! Text arrives in pieces: a frame may be cut anywhere, and so may the
//! multi-byte sequence of one character. The validator therefore reports two
//! things of the bytes it is given: how many of them, from the front, are
//! complete and valid, and whether what follows them can still become valid
//! once more bytes arrive.

use crate::error::ProtocolError;
use std::string::FromUtf8Error;
use vstd::prelude::*;
use vstd::utf8::*;

verus! {

/// The number of bytes at the front of `bytes` that make up complete, valid
/// characters: characters are taken off the front until one is malformed or
/// cut short.
pub open spec fn valid_prefix_len(bytes: Seq<u8>) -> nat
    decreases bytes.len(),
{
    if bytes.len() > 0 && valid_first_scalar(bytes) && 0 < length_of_first_scalar(bytes)
        <= bytes.len() {
        length_of_first_scalar(bytes) as nat + valid_prefix_len(pop_first_scalar(bytes))
    } else {
        0
    }
}

/// Some continuation turns `bytes` into valid UTF-8.
pub open spec fn completable(bytes: Seq<u8>) -> bool {
    exists|more: Seq<u8>| valid_utf8(#[trigger] (bytes + more))
}

/// Whether text made of `bytes` has to be refused: the last piece of a text
/// must be valid as it stands, an earlier piece only has to be the beginning of
/// something valid.
pub open spec fn rejects(bytes: Seq<u8>, is_final: bool) -> bool {
    if is_final {
        !valid_utf8(bytes)
    } else {
        !completable(bytes)
    }
}

/// What stands at the front of a byte sequence.
#[derive(Debug, PartialEq, Eq, Clone, Copy, Structural)]
pub enum Lead {
    /// A complete character of this many bytes.
    Scalar(usize),
    /// The beginning of a character whose remaining bytes are missing.
    Truncated,
    /// Bytes that begin no character, whatever follows them.
    Invalid,
}

/// The number of bytes of a character that begins with `first`, or 0 where no
/// character begins with it.
pub open spec fn width_of(first: u8) -> int {
    if first < 0x80 {
        1
    } else if 0xC2 <= first <= 0xDF {
        2
    } else if 0xE0 <= first <= 0xEF {
        3
    } else if 0xF0 <= first <= 0xF4 {
        4
    } else {
        0
    }
}

/// The least second byte that may follow `first`.
pub open spec fn second_min(first: u8) -> u8 {
    if first == 0xE0 {
        0xA0
    } else if first == 0xF0 {
        0x90
    } else {
        0x80
    }
}

/// The greatest second byte that may follow `first`.
pub open spec fn second_max(first: u8) -> u8 {
    if first == 0xED {
        0x9F
    } else if first == 0xF4 {
        0x8F
    } else {
        0xBF
    }
}

/// Classifies the front of a non-empty byte sequence by the ranges that each
/// of its bytes must lie in.
pub open spec fn lead_of(s: Seq<u8>) -> Lead
    recommends
        s.len() > 0,
{
    let w = width_of(s[0]);
    if w == 0 {
        Lead::Invalid
    } else if w == 1 {
        Lead::Scalar(1)
    } else if s.len() < 2 {
        Lead::Truncated
    } else if !(second_min(s[0]) <= s[1] <= second_max(s[0])) {
        Lead::Invalid
    } else if w == 2 {
        Lead::Scalar(2)
    } else if s.len() < 3 {
        Lead::Truncated
    } else if !is_continuation_byte(s[2]) {
        Lead::Invalid
    } else if w == 3 {
        Lead::Scalar(3)
    } else if s.len() < 4 {
        Lead::Truncated
    } else if !is_continuation_byte(s[3]) {
        Lead::Invalid
    } else {
        Lead::Scalar(4)
    }
}

proof fn lemma_two_byte_codepoint(b0: u8, b1: u8)
    requires
        is_leading_byte_width_2(b0),
        is_continuation_byte(b1),
    ensures
        (codepoint_width_2(b0, b1) >= 0x80) == (b0 >= 0xC2),
        codepoint_width_2(b0, b1) < 0xD800,
{
    assert((((b0 & 0x1F) as u32) << 6 | ((b1 & 0x3F) as u32)) >= 0x80 <==> b0 >= 0xC2)
        by (bit_vector)
        requires
            0xC0 <= b0 <= 0xDF,
            0x80 <= b1 <= 0xBF,
    ;
    assert((((b0 & 0x1F) as u32) << 6 | ((b1 & 0x3F) as u32)) < 0xD800) by (bit_vector);
}

proof fn lemma_three_byte_codepoint(b0: u8, b1: u8, b2: u8)
    requires
        is_leading_byte_width_3(b0),
        is_continuation_byte(b1),
        is_continuation_byte(b2),
    ensures
        (codepoint_width_3(b0, b1, b2) >= 0x800) == !(b0 == 0xE0 && b1 < 0xA0),
        (0xD800 <= codepoint_width_3(b0, b1, b2) <= 0xDFFF) == (b0 == 0xED && b1 >= 0xA0),
{
    let cp = codepoint_width_3(b0, b1, b2);
    assert(cp == ((b0 & 0x0F) as u32) << 12 | ((b1 & 0x3F) as u32) << 6 | ((b2 & 0x3F) as u32));
    assert(cp >= 0x800 <==> !(b0 == 0xE0 && b1 < 0xA0)) by (bit_vector)
        requires
            cp == ((b0 & 0x0F) as u32) << 12 | ((b1 & 0x3F) as u32) << 6 | ((b2 & 0x3F) as u32),
            0xE0 <= b0 <= 0xEF,
            0x80 <= b1 <= 0xBF,
            0x80 <= b2 <= 0xBF,
    ;
    assert((0xD800 <= cp && cp <= 0xDFFF) <==> (b0 == 0xED && b1 >= 0xA0)) by (bit_vector)
        requires
            cp == ((b0 & 0x0F) as u32) << 12 | ((b1 & 0x3F) as u32) << 6 | ((b2 & 0x3F) as u32),
            0xE0 <= b0 <= 0xEF,
            0x80 <= b1 <= 0xBF,
            0x80 <= b2 <= 0xBF,
    ;
}

proof fn lemma_four_byte_codepoint(b0: u8, b1: u8, b2: u8, b3: u8)
    requires
        is_leading_byte_width_4(b0),
        is_continuation_byte(b1),
        is_continuation_byte(b2),
        is_continuation_byte(b3),
    ensures
        (0x10000 <= codepoint_width_4(b0, b1, b2, b3) <= 0x10FFFF) == ((b0 != 0xF0 || b1 >= 0x90)
            && b0 <= 0xF4 && (b0 != 0xF4 || b1 <= 0x8F)),
{
    let cp = codepoint_width_4(b0, b1, b2, b3);
    assert(cp == ((b0 & 0x07) as u32) << 18 | ((b1 & 0x3F) as u32) << 12 | ((b2 & 0x3F) as u32)
        << 6 | ((b3 & 0x3F) as u32));
    assert((0x10000 <= cp && cp <= 0x10FFFF) <==> ((b0 != 0xF0 || b1 >= 0x90) && b0 <= 0xF4 && (b0
        != 0xF4 || b1 <= 0x8F))) by (bit_vector)
        requires
            cp == ((b0 & 0x07) as u32) << 18 | ((b1 & 0x3F) as u32) << 12 | ((b2 & 0x3F) as u32)
                << 6 | ((b3 & 0x3F) as u32),
            0xF0 <= b0 <= 0xF7,
            0x80 <= b1 <= 0xBF,
            0x80 <= b2 <= 0xBF,
            0x80 <= b3 <= 0xBF,
    ;
}

/// The classification by byte ranges agrees with the definition of a valid
/// first character.
pub proof fn lemma_lead_of(s: Seq<u8>)
    requires
        s.len() > 0,
    ensures
        match lead_of(s) {
            Lead::Scalar(w) => valid_first_scalar(s) && length_of_first_scalar(s) == w && 1 <= w
                <= 4 && w <= s.len(),
            _ => !valid_first_scalar(s),
        },
{
    let b0 = s[0];
    if is_leading_byte_width_1(b0) {
        assert(((b0 & 0x7F) as u32) < 0xD800) by (bit_vector);
    } else if is_leading_byte_width_2(b0) {
        if s.len() >= 2 && is_continuation_byte(s[1]) {
            lemma_two_byte_codepoint(b0, s[1]);
        }
    } else if is_leading_byte_width_3(b0) {
        if s.len() >= 3 && is_continuation_byte(s[1]) && is_continuation_byte(s[2]) {
            lemma_three_byte_codepoint(b0, s[1], s[2]);
        }
    } else if is_leading_byte_width_4(b0) {
        if s.len() >= 4 && is_continuation_byte(s[1]) && is_continuation_byte(s[2])
            && is_continuation_byte(s[3]) {
            lemma_four_byte_codepoint(b0, s[1], s[2], s[3]);
        }
    }
}

/// A complete or a malformed character stays what it is when bytes are added
/// behind it.
pub proof fn lemma_lead_of_extend(s: Seq<u8>, more: Seq<u8>)
    requires
        s.len() > 0,
        !(lead_of(s) is Truncated),
    ensures
        lead_of(s + more) == lead_of(s),
{
    let t = s + more;
    assert(forall|i: int| 0 <= i < s.len() ==> t[i] == s[i]);
}

/// Bytes that complete a character which was cut short.
spec fn padding(s: Seq<u8>) -> Seq<u8> {
    let missing = (width_of(s[0]) - s.len()) as nat;
    if s.len() == 1 {
        seq![second_min(s[0])] + Seq::new((missing - 1) as nat, |i: int| 0x80u8)
    } else {
        Seq::new(missing, |i: int| 0x80u8)
    }
}

/// The beginning of a character can be completed.
pub proof fn lemma_truncated_completable(s: Seq<u8>)
    requires
        s.len() > 0,
        lead_of(s) is Truncated,
    ensures
        completable(s),
{
    let t = s + padding(s);
    let w = width_of(s[0]);
    assert(t.len() == w);
    assert(forall|i: int| 0 <= i < s.len() ==> t[i] == s[i]);
    assert(forall|i: int| s.len() <= i < w ==> t[i] == padding(s)[i - s.len()]);
    assert(lead_of(t) == Lead::Scalar(w as usize));
    lemma_lead_of(t);
    assert(pop_first_scalar(t).len() == 0);
    assert(valid_utf8(t)) by {
        reveal_with_fuel(valid_utf8, 2);
    }
}

/// Bytes that begin no character cannot be completed.
pub proof fn lemma_invalid_not_completable(s: Seq<u8>)
    requires
        s.len() > 0,
        lead_of(s) is Invalid,
    ensures
        !completable(s),
{
    assert forall|more: Seq<u8>| !valid_utf8(#[trigger] (s + more)) by {
        lemma_lead_of_extend(s, more);
        lemma_lead_of(s + more);
    }
}

/// Behind valid UTF-8, bytes are judged as they would be on their own.
pub proof fn lemma_after_valid(a: Seq<u8>, b: Seq<u8>)
    requires
        valid_utf8(a),
    ensures
        valid_utf8(a + b) == valid_utf8(b),
        completable(a + b) == completable(b),
        valid_prefix_len(a + b) == a.len() + valid_prefix_len(b),
    decreases a.len(),
{
    lemma_valid_after_valid(a, b);
    if completable(b) {
        let more = choose|more: Seq<u8>| valid_utf8(#[trigger] (b + more));
        lemma_valid_after_valid(a, b + more);
        assert((a + b) + more =~= a + (b + more));
    }
    if completable(a + b) {
        let more = choose|more: Seq<u8>| valid_utf8(#[trigger] ((a + b) + more));
        assert((a + b) + more =~= a + (b + more));
        lemma_valid_after_valid(a, b + more);
    }
    if a.len() == 0 {
        assert(a + b =~= b);
    } else {
        lemma_lead_of(a);
        lemma_lead_of_extend(a, b);
        lemma_lead_of(a + b);
        assert(pop_first_scalar(a + b) =~= pop_first_scalar(a) + b);
        lemma_after_valid(pop_first_scalar(a), b);
    }
}

/// Behind valid UTF-8, bytes are valid exactly when they are valid on their
/// own.
proof fn lemma_valid_after_valid(a: Seq<u8>, b: Seq<u8>)
    requires
        valid_utf8(a),
    ensures
        valid_utf8(a + b) == valid_utf8(b),
{
    let t = a + b;
    assert(t.subrange(0, a.len() as int) =~= a);
    assert(t.subrange(a.len() as int, t.len() as int) =~= b);
    if valid_utf8(b) {
        valid_utf8_concat(a, b);
    } else {
        partial_valid_partial_invalid_utf8(t, a.len() as int);
    }
}

/// Bytes are valid UTF-8 exactly when their valid prefix is all of them.
pub proof fn lemma_valid_iff_prefix_len(s: Seq<u8>)
    ensures
        valid_prefix_len(s) <= s.len(),
        valid_utf8(s) <==> valid_prefix_len(s) == s.len(),
    decreases s.len(),
{
    if s.len() > 0 {
        lemma_lead_of(s);
        if valid_first_scalar(s) {
            lemma_valid_iff_prefix_len(pop_first_scalar(s));
        }
    }
}

/// The valid prefix is valid, and no longer prefix is.
pub proof fn lemma_valid_prefix_len_longest(s: Seq<u8>)
    ensures
        valid_prefix_len(s) <= s.len(),
        valid_utf8(s.take(valid_prefix_len(s) as int)),
        forall|k: int| 0 <= k <= s.len() && valid_utf8(#[trigger] s.take(k)) ==> k
            <= valid_prefix_len(s),
    decreases s.len(),
{
    lemma_valid_iff_prefix_len(s);
    assert forall|k: int| 0 <= k <= s.len() && valid_utf8(#[trigger] s.take(k)) implies k
        <= valid_prefix_len(s) by {
        assert(s.take(k) + s.skip(k) =~= s);
        lemma_after_valid(s.take(k), s.skip(k));
    }
    if s.len() > 0 && valid_first_scalar(s) {
        lemma_lead_of(s);
        let w = length_of_first_scalar(s);
        let rest = pop_first_scalar(s);
        lemma_valid_prefix_len_longest(rest);
        let head = s.take(w);
        assert(valid_utf8(head)) by {
            assert(s.subrange(0, 0) =~= Seq::<u8>::empty());
            assert(s.subrange(0, s.len() as int) =~= s);
            partial_valid_utf8_extend(s, 0);
        }
        valid_utf8_concat(head, rest.take(valid_prefix_len(rest) as int));
        assert(s.take(valid_prefix_len(s) as int) =~= head + rest.take(
            valid_prefix_len(rest) as int,
        ));
    } else {
        assert(s.take(0) =~= Seq::<u8>::empty());
    }
}

/// Classifies what stands at position `at` of `input`.
fn lead_at(input: &[u8], at: usize) -> (r: Lead)
    requires
        at < input@.len(),
    ensures
        r == lead_of(input@.skip(at as int)),
{
    let ghost s = input@.skip(at as int);
    let n = input.len() - at;
    let first = input[at];
    assert(s[0] == first);
    if first < 0x80 {
        return Lead::Scalar(1);
    }
    let width: usize = if 0xC2 <= first && first <= 0xDF {
        2
    } else if 0xE0 <= first && first <= 0xEF {
        3
    } else if 0xF0 <= first && first <= 0xF4 {
        4
    } else {
        return Lead::Invalid;
    };
    if n < 2 {
        return Lead::Truncated;
    }
    let second = input[at + 1];
    assert(s[1] == second);
    let low: u8 = if first == 0xE0 {
        0xA0
    } else if first == 0xF0 {
        0x90
    } else {
        0x80
    };
    let high: u8 = if first == 0xED {
        0x9F
    } else if first == 0xF4 {
        0x8F
    } else {
        0xBF
    };
    if second < low || second > high {
        return Lead::Invalid;
    }
    if width == 2 {
        return Lead::Scalar(2);
    }
    if n < 3 {
        return Lead::Truncated;
    }
    let third = input[at + 2];
    assert(s[2] == third);
    if third < 0x80 || third > 0xBF {
        return Lead::Invalid;
    }
    if width == 3 {
        return Lead::Scalar(3);
    }
    if n < 4 {
        return Lead::Truncated;
    }
    let fourth = input[at + 3];
    assert(s[3] == fourth);
    if fourth < 0x80 || fourth > 0xBF {
        return Lead::Invalid;
    }
    Lead::Scalar(4)
}

/// Validates a piece of text.
///
/// Returns whether the text has to be refused, and the number of bytes at the
/// front of `input` that are complete and valid. With `is_final` the piece is
/// the last one and must be valid as it stands; without it, a character that
/// is cut short at the end is waited for, and only bytes that can never
/// become valid are refused.
pub fn should_fail_fast(input: &[u8], is_final: bool) -> (r: (bool, usize))
    ensures
        r.0 == rejects(input@, is_final),
        r.1 == valid_prefix_len(input@),
{
    let n = input.len();
    let mut at: usize = 0;
    proof {
        assert(input@.skip(0) =~= input@);
        assert(input@.take(0) =~= Seq::<u8>::empty());
    }
    while at < n
        invariant
            n == input@.len(),
            at <= n,
            valid_utf8(input@.take(at as int)),
            valid_prefix_len(input@) == at + valid_prefix_len(input@.skip(at as int)),
        decreases n - at,
    {
        let ghost head = input@.take(at as int);
        let ghost tail = input@.skip(at as int);
        proof {
            assert(head + tail =~= input@);
            lemma_lead_of(tail);
            lemma_after_valid(head, tail);
            lemma_valid_iff_prefix_len(input@);
        }
        match lead_at(input, at) {
            Lead::Scalar(width) => {
                proof {
                    let next = (at + width) as int;
                    assert(pop_first_scalar(tail) =~= input@.skip(next));
                    assert(input@.take(next) =~= head + tail.take(width as int));
                    lemma_valid_prefix_len_longest(tail);
                    assert(tail.take(width as int).take(width as int) =~= tail.take(width as int));
                    lemma_lead_of(tail.take(width as int));
                    assert(valid_utf8(tail.take(width as int))) by {
                        assert(lead_of(tail.take(width as int)) == lead_of(tail));
                        assert(pop_first_scalar(tail.take(width as int)).len() == 0);
                        reveal_with_fuel(valid_utf8, 2);
                    }
                    valid_utf8_concat(head, tail.take(width as int));
                }
                at = at + width;
            },
            Lead::Truncated => {
                proof {
                    lemma_truncated_completable(tail);
                }
                return (is_final, at);
            },
            Lead::Invalid => {
                proof {
                    lemma_invalid_not_completable(tail);
                }
                return (true, at);
            },
        }
    }
    proof {
        assert(input@.take(n as int) =~= input@);
        assert(input@.skip(n as int) =~= Seq::<u8>::empty());
        assert(input@ + Seq::<u8>::empty() =~= input@);
    }
    (false, n)
}

/// `std::string::FromUtf8Error`, the error of `String::from_utf8`. Nothing
/// of its inside is known here.
#[verifier::external_type_specification]
#[verifier::external_body]
pub struct ExFromUtf8Error(std::string::FromUtf8Error);

/// `String::from_utf8` succeeds on the bytes that are valid UTF-8, and the
/// string that it returns is made of those bytes.
pub assume_specification[ String::from_utf8 ](vec: Vec<u8>) -> (r: Result<String, FromUtf8Error>)
    ensures
        r is Ok <==> valid_utf8(vec@),
        r matches Ok(text) ==> text@ == decode_utf8(vec@),
;

/// The string that `bytes` encode; `InvalidUtf8` where they are not valid
/// UTF-8.
pub fn parse(bytes: Vec<u8>) -> (r: Result<String, ProtocolError>)
    ensures
        match r {
            Ok(text) => valid_utf8(bytes@) && text@ == decode_utf8(bytes@),
            Err(e) => !valid_utf8(bytes@) && e == ProtocolError::InvalidUtf8,
        },
{
    match String::from_utf8(bytes) {
        Ok(text) => Ok(text),
        Err(_) => Err(ProtocolError::InvalidUtf8),
    }
}

} // verus!
