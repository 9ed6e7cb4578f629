//! The frame codec: frames out of a growing buffer of received bytes, and
//! frames into a buffer of bytes to send.

use crate::buffer;
use crate::buffer::{
    be_value, contents, lemma_be_value_bound, lemma_be_value_push, pow256,
};
use crate::error::{Error, ProtocolError};
use crate::frame::{
    frame_bytes, header_bytes, lemma_header_extended, parse_frame, parse_header, Frame, Header,
    HeaderParse, Parsed, Role,
};
use crate::mask;
use crate::mask::{lemma_masked_split, masked, masked_from};
use crate::opcode::OpCode;
use crate::utf8;
use crate::utf8::{completable, lemma_after_valid, lemma_valid_prefix_len_longest};
use bytes::BytesMut;
use vstd::prelude::*;
use vstd::slice::slice_subrange;
use vstd::utf8::{valid_utf8, valid_utf8_concat};

verus! {

/// A header as the decoder holds it.
struct RawHeader {
    is_final: bool,
    opcode: OpCode,
    key: Option<[u8; 4]>,
    payload_len: usize,
    offset: usize,
}

impl RawHeader {
    /// The header as a mathematical value.
    spec fn model(&self) -> Header {
        Header {
            is_final: self.is_final,
            opcode: self.opcode,
            key: match self.key {
                Some(key) => Some(key@),
                None => None,
            },
            payload_len: self.payload_len as nat,
            offset: self.offset as nat,
        }
    }
}

/// What `read_header` found.
enum HeaderRead {
    /// The header is not all there: so many bytes are needed before the
    /// next step can be taken.
    Incomplete(usize),
    Invalid(ProtocolError),
    Complete(RawHeader),
}

/// Reads the big-endian number that the `count` bytes from `from` write.
fn read_be(bytes: &[u8], from: usize, count: usize) -> (value: u64)
    requires
        from + count <= bytes@.len(),
        count <= 8,
    ensures
        value == be_value(bytes@.subrange(from as int, from + count)),
{
    let total = bytes.len();
    let mut value: u64 = 0;
    let mut i: usize = 0;
    assert(bytes@.subrange(from as int, from as int) =~= Seq::<u8>::empty());
    while i < count
        invariant
            i <= count <= 8,
            total == bytes@.len(),
            from + count <= total,
            value == be_value(bytes@.subrange(from as int, from + i)),
        decreases count - i,
    {
        proof {
            let done = bytes@.subrange(from as int, from + i);
            lemma_be_value_bound(done);
            lemma_be_value_push(done, bytes@[from + i]);
            assert(bytes@.subrange(from as int, from + i + 1) =~= done.push(bytes@[from + i]));
            reveal_with_fuel(pow256, 9);
            assert(pow256(i as nat) <= pow256(7)) by {
                reveal_with_fuel(pow256, 9);
            }
        }
        value = value * 256 + bytes[from + i] as u64;
        i = i + 1;
    }
    value
}

/// Reads the header of the frame that `bytes` begins with.
fn read_header(role: Role, bytes: &[u8]) -> (r: HeaderRead)
    ensures
        match r {
            HeaderRead::Incomplete(needed) => parse_header(role, bytes@) is Incomplete
                && bytes@.len() < needed <= 14,
            HeaderRead::Invalid(e) => parse_header(role, bytes@) == HeaderParse::Invalid(e),
            HeaderRead::Complete(header) => parse_header(role, bytes@) == HeaderParse::Complete(
                header.model(),
            ) && header.offset <= bytes@.len() && header.offset <= 14 && header.payload_len
                <= isize::MAX,
        },
{
    let available = bytes.len();
    if available < 2 {
        return HeaderRead::Incomplete(2);
    }
    let first = bytes[0];
    let second = bytes[1];
    let is_final = first & 0x80 != 0;
    let reserved = first & 0x70;
    let opcode_value = first & 0x0F;
    let is_masked = second >> 7 != 0;
    let short = second & 0x7F;
    proof {
        assert((first & 0x80 != 0) == (first >= 128)) by (bit_vector);
        assert((first & 0x70 != 0) == ((first / 16) % 8 != 0)) by (bit_vector);
        assert(first & 0x0F == first % 16) by (bit_vector);
        assert((second >> 7 != 0) == (second >= 128)) by (bit_vector);
        assert(second & 0x7F == second % 128) by (bit_vector);
    }
    if reserved != 0 {
        return HeaderRead::Invalid(ProtocolError::InvalidRsv);
    }
    let opcode = match OpCode::try_from(opcode_value) {
        Ok(opcode) => opcode,
        Err(e) => {
            return HeaderRead::Invalid(e);
        },
    };
    if !is_final && opcode.is_control() {
        return HeaderRead::Invalid(ProtocolError::FragmentedControlFrame);
    }
    if is_masked && role == Role::Client {
        return HeaderRead::Invalid(ProtocolError::ServerMaskedData);
    }
    let mut payload_len: usize = short as usize;
    let mut offset: usize = 2;
    if short > 125 {
        if opcode.is_control() {
            return HeaderRead::Invalid(ProtocolError::InvalidControlFrameLength);
        }
        let extended: usize = if short == 126 {
            2
        } else {
            8
        };
        if available < 2 + extended {
            return HeaderRead::Incomplete(2 + extended);
        }
        let declared = read_be(bytes, 2, extended);
        if declared > isize::MAX as u64 {
            return HeaderRead::Invalid(ProtocolError::InvalidPayloadLength);
        }
        payload_len = declared as usize;
        offset = 2 + extended;
    }
    if !is_masked {
        return HeaderRead::Complete(
            RawHeader { is_final, opcode, key: None, payload_len, offset },
        );
    }
    if available < offset + 4 {
        return HeaderRead::Incomplete(offset + 4);
    }
    let key = [bytes[offset], bytes[offset + 1], bytes[offset + 2], bytes[offset + 3]];
    assert(key@ =~= bytes@.subrange(offset as int, offset + 4));
    HeaderRead::Complete(
        RawHeader { is_final, opcode, key: Some(key), payload_len, offset: offset + 4 },
    )
}

/// Copies `count` bytes of `src`, from `from` on, over those of `dst` from
/// `at` on.
fn copy_into(dst: &mut Vec<u8>, at: usize, src: &[u8], from: usize, count: usize)
    requires
        at + count <= old(dst)@.len(),
        from + count <= src@.len(),
    ensures
        final(dst)@ == old(dst)@.take(at as int) + src@.subrange(from as int, from + count) + old(
            dst,
        )@.skip(at + count),
{
    let room = dst.len();
    let total = src.len();
    let mut i: usize = 0;
    while i < count
        invariant
            i <= count,
            room == dst@.len(),
            total == src@.len(),
            at + count <= room,
            from + count <= total,
            dst@.len() == old(dst)@.len(),
            forall|j: int| 0 <= j < at ==> dst@[j] == old(dst)@[j],
            forall|j: int| at <= j < at + i ==> dst@[j] == src@[from + j - at],
            forall|j: int| at + i <= j < dst@.len() ==> dst@[j] == old(dst)@[j],
        decreases count - i,
    {
        dst.set(at + i, src[from + i]);
        i = i + 1;
    }
    assert(dst@ =~= old(dst)@.take(at as int) + src@.subrange(from as int, from + count) + old(
        dst,
    )@.skip(at + count));
}

/// `fastrand::u8` over all bytes: one byte of the thread's random number
/// generator. Nothing is known of the byte.
#[verifier::external_body]
fn random_byte() -> u8 {
    fastrand::u8(0..=255)
}

/// The codec of one endpoint. Between calls of `decode` it keeps what it has
/// taken of a frame whose payload has not all arrived.
pub struct WebsocketProtocol {
    role: Role,
    payload: Vec<u8>,
    payload_in: usize,
    utf8_valid_up_to: usize,
}

impl WebsocketProtocol {
    /// The role that the codec was made for.
    pub closed spec fn spec_role(&self) -> Role {
        self.role
    }

    /// The role that the codec was made for.
    #[verifier::when_used_as_spec(spec_role)]
    pub fn role(&self) -> (role: Role)
        ensures
            role == self.spec_role(),
    {
        self.role
    }

    /// The codec holds nothing of a frame.
    pub closed spec fn is_idle(&self) -> bool {
        self.payload_in == 0 && self.utf8_valid_up_to == 0
    }

    /// The codec holds the first bytes of the payload that follows `header`
    /// in `bytes`, and has validated a prefix of them where they are text.
    closed spec fn holds(&self, header: Header, bytes: Seq<u8>) -> bool {
        &&& self.payload@.len() == header.payload_len
        &&& self.utf8_valid_up_to <= self.payload_in <= header.payload_len
        &&& header.offset + self.payload_in <= bytes.len()
        &&& self.payload@.take(self.payload_in as int) == header.payload(
            bytes,
            self.payload_in as nat,
        )
        &&& header.opcode == OpCode::Text ==> valid_utf8(
            self.payload@.take(self.utf8_valid_up_to as int),
        )
    }

    /// What the codec holds was taken from the frame that `bytes` begins
    /// with: the codec is idle, or it holds the first bytes of that frame's
    /// payload. This is so of a new codec and any bytes, and `decode` keeps
    /// it so as long as the buffer it is given only grows at its end.
    pub closed spec fn resumes(&self, bytes: Seq<u8>) -> bool {
        self.is_idle() || match parse_header(self.role, bytes) {
            HeaderParse::Complete(header) => self.holds(header, bytes),
            _ => false,
        }
    }

    /// A codec for an endpoint of the given role.
    #[must_use]
    pub fn new(role: Role) -> (codec: Self)
        ensures
            codec.role() == role,
            codec.is_idle(),
    {
        Self { role, payload: Vec::new(), payload_in: 0, utf8_valid_up_to: 0 }
    }

    /// An idle codec can start on any bytes.
    pub proof fn lemma_idle_resumes(&self, bytes: Seq<u8>)
        requires
            self.is_idle(),
        ensures
            self.resumes(bytes),
    {
    }

    /// A codec that can go on with a buffer can go on with it after bytes
    /// have been added at its end.
    pub proof fn lemma_resumes_extended(&self, bytes: Seq<u8>, more: Seq<u8>)
        requires
            self.resumes(bytes),
        ensures
            self.resumes(bytes + more),
    {
        if !self.is_idle() {
            lemma_header_extended(self.role, bytes, more);
            let header = parse_header(self.role, bytes)->Complete_0;
            let count = self.payload_in as int;
            assert((bytes + more).subrange(header.offset as int, header.offset + count)
                =~= bytes.subrange(header.offset as int, header.offset + count));
        }
    }

    /// Drops progress that cannot belong to a payload of `length` bytes of
    /// which `available` have arrived, and gives the payload buffer that
    /// length. Returns the number of payload bytes held.
    fn make_room(&mut self, length: usize, available: usize) -> (start: usize)
        ensures
            final(self).role == old(self).role,
            final(self).payload@.len() == length,
            final(self).payload_in == start,
            final(self).utf8_valid_up_to <= start <= length,
            start <= available,
            final(self).payload_in == old(self).payload_in || final(self).is_idle(),
            final(self).utf8_valid_up_to == old(self).utf8_valid_up_to || final(self).is_idle(),
            old(self).payload@.len() == length ==> final(self).payload@ == old(self).payload@,
    {
        if self.payload_in > length || self.payload_in > available || self.utf8_valid_up_to
            > self.payload_in {
            self.payload_in = 0;
            self.utf8_valid_up_to = 0;
        }
        let ghost before = self.payload@;
        self.payload.resize(length, 0);
        assert(before.len() == length ==> self.payload@ =~= before);
        self.payload_in
    }

    /// Takes the payload bytes that have arrived since the last call: copies
    /// them from `input` behind those already held and removes the mask.
    /// Progress that cannot belong to the frame of `header` is dropped first.
    fn fill(&mut self, header: &RawHeader, input: &[u8])
        requires
            header.offset <= input@.len(),
        ensures
            final(self).role == old(self).role,
            final(self).payload@.len() == header.payload_len,
            final(self).payload_in == header.model().received(input@),
            final(self).utf8_valid_up_to <= final(self).payload_in,
            old(self).is_idle() || old(self).holds(header.model(), input@) ==> final(self).holds(
                header.model(),
                input@,
            ),
    {
        let ghost in_step = self.is_idle() || self.holds(header.model(), input@);
        let length = header.payload_len;
        let available = input.len() - header.offset;
        let start = self.make_room(length, available);
        let ghost sized = self.payload@;
        let missing = length - start;
        let to_read = if missing <= available - start {
            missing
        } else {
            available - start
        };
        let end = start + to_read;
        copy_into(&mut self.payload, start, input, header.offset + start, to_read);
        let ghost copied = self.payload@;
        if let Some(key) = header.key {
            mask::frame_range(key, &mut self.payload, start, end);
        }
        self.payload_in = end;
        proof {
            lemma_filled(
                header.model(),
                input@,
                sized,
                copied,
                self.payload@,
                start as nat,
                end as nat,
                self.utf8_valid_up_to as nat,
            );
            if in_step {
                assert(sized.take(0) =~= header.model().payload(input@, 0));
            }
        }
    }

    /// Validates the text that has arrived but has not been looked at yet,
    /// as a piece that more will follow. Returns whether it is to be refused.
    fn check_text(&mut self) -> (refused: bool)
        requires
            old(self).utf8_valid_up_to <= old(self).payload_in <= old(self).payload@.len(),
        ensures
            final(self).role == old(self).role,
            final(self).payload == old(self).payload,
            final(self).payload_in == old(self).payload_in,
            old(self).utf8_valid_up_to <= final(self).utf8_valid_up_to <= final(self).payload_in,
            refused ==> final(self).utf8_valid_up_to == old(self).utf8_valid_up_to,
            valid_utf8(old(self).payload@.take(old(self).utf8_valid_up_to as int)) ==> {
                &&& refused == !completable(old(self).payload@.take(old(self).payload_in as int))
                &&& valid_utf8(final(self).payload@.take(final(self).utf8_valid_up_to as int))
            },
    {
        let (refused, valid_up_to) = utf8::should_fail_fast(
            slice_subrange(self.payload.as_slice(), self.utf8_valid_up_to, self.payload_in),
            false,
        );
        proof {
            let checked = self.payload@.take(self.utf8_valid_up_to as int);
            let fresh = self.payload@.subrange(
                self.utf8_valid_up_to as int,
                self.payload_in as int,
            );
            assert(checked + fresh =~= self.payload@.take(self.payload_in as int));
            lemma_valid_prefix_len_longest(fresh);
            if valid_utf8(checked) {
                lemma_after_valid(checked, fresh);
                valid_utf8_concat(checked, fresh.take(valid_up_to as int));
                assert(checked + fresh.take(valid_up_to as int) =~= self.payload@.take(
                    self.utf8_valid_up_to + valid_up_to,
                ));
            }
        }
        if !refused {
            self.utf8_valid_up_to = self.utf8_valid_up_to + valid_up_to;
        }
        refused
    }

    /// Hands out the payload and makes the codec idle.
    fn take_payload(&mut self) -> (payload: Vec<u8>)
        ensures
            payload == old(self).payload,
            final(self).is_idle(),
            final(self).role == old(self).role,
    {
        let mut payload = Vec::new();
        std::mem::swap(&mut self.payload, &mut payload);
        self.payload_in = 0;
        self.utf8_valid_up_to = 0;
        payload
    }

    /// Takes the frame at the front of `src`, if it is all there.
    ///
    /// Returns the frame and removes its bytes from `src`; or `None` where
    /// more bytes are needed, with `src` as it was but for the room it has;
    /// or the error of the frame that `src` begins with. The result is that
    /// of `parse_frame` on the bytes of `src`, however many calls the bytes
    /// took to arrive, as long as the codec was handed the same buffer each
    /// time and the buffer only grew at its end. A codec that is handed
    /// other bytes than it has begun with does not fail: where what it holds
    /// cannot belong to the frame before it, it starts over on that frame.
    pub fn decode(&mut self, src: &mut BytesMut) -> (r: Result<Option<Frame>, Error>)
        ensures
            final(self).role() == old(self).role(),
            old(self).resumes(contents(*old(src))) ==> final(self).resumes(contents(*final(src)))
                && match parse_frame(old(self).role(), contents(*old(src))) {
                Parsed::Incomplete => r == Ok::<Option<Frame>, Error>(None) && contents(
                    *final(src),
                ) == contents(*old(src)),
                Parsed::Invalid(e) => r == Err::<Option<Frame>, Error>(Error::Protocol(e))
                    && contents(*final(src)) == contents(*old(src)),
                Parsed::Complete(frame, used) => {
                    &&& r matches Ok(Some(taken))
                    &&& taken@ == frame
                    &&& used <= contents(*old(src)).len()
                    &&& contents(*final(src)) == contents(*old(src)).skip(used as int)
                    &&& final(self).is_idle()
                },
            },
    {
        let held = buffer::len(src);
        let header = match read_header(self.role, buffer::as_slice(src)) {
            HeaderRead::Incomplete(needed) => {
                buffer::reserve(src, needed);
                return Ok(None);
            },
            HeaderRead::Invalid(e) => {
                return Err(Error::Protocol(e));
            },
            HeaderRead::Complete(header) => header,
        };
        let length = header.payload_len;
        if length > 0 {
            self.fill(&header, buffer::as_slice(src));
            let missing = length - self.payload_in;
            if missing > 0 {
                if header.opcode == OpCode::Text {
                    if self.check_text() {
                        return Err(Error::Protocol(ProtocolError::InvalidUtf8));
                    }
                }
                if held <= isize::MAX as usize && missing <= isize::MAX as usize - held {
                    buffer::reserve(src, missing);
                }
                return Ok(None);
            }
            if header.opcode == OpCode::Close && length == 1 {
                return Err(Error::Protocol(ProtocolError::InvalidCloseSequence));
            }
        } else {
            self.payload.clear();
            assert(header.model().payload(contents(*src), 0) =~= Seq::<u8>::empty());
        }
        buffer::advance(src, header.offset + length);
        let payload = self.take_payload();
        assert(payload@.take(length as int) =~= payload@);
        Ok(Some(Frame { opcode: header.opcode, is_final: header.is_final, payload }))
    }

    /// Writes `item` to the end of `dst`, masked with `key` where the codec
    /// is a client's. A server's codec writes the payload as it is and makes
    /// no use of `key`.
    pub fn encode_with_key(&self, item: Frame, key: [u8; 4], dst: &mut BytesMut)
        ensures
            contents(*final(dst)) == contents(*old(dst)) + frame_bytes(self.role(), item@, key@),
    {
        let ghost frame = item@;
        let mut payload = item.payload;
        let chunk_size = payload.len();
        let is_masked = self.role == Role::Client;
        let mask_bit: u8 = if is_masked {
            128
        } else {
            0
        };
        let opcode_value = u8::from(item.opcode);
        let first: u8 = opcode_value + if item.is_final {
            128
        } else {
            0
        };
        let ghost header = header_bytes(item.is_final, item.opcode, chunk_size as nat, is_masked);
        buffer::put_u8(dst, first);
        if chunk_size > 65535 {
            buffer::put_u8(dst, 127 + mask_bit);
            buffer::put_u64(dst, chunk_size as u64);
        } else if chunk_size > 125 {
            buffer::put_u8(dst, 126 + mask_bit);
            buffer::put_u16(dst, chunk_size as u16);
        } else {
            buffer::put_u8(dst, chunk_size as u8 + mask_bit);
        }
        assert(contents(*dst) =~= contents(*old(dst)) + header);
        if is_masked {
            buffer::extend_from_slice(dst, key.as_slice());
            mask::frame(key, &mut payload);
        }
        buffer::extend_from_slice(dst, payload.as_slice());
        assert(contents(*dst) =~= contents(*old(dst)) + frame_bytes(self.role(), frame, key@));
    }

    /// Writes `item` to the end of `dst`. A client's codec draws a fresh
    /// masking key for the frame. Never fails.
    pub fn encode(&mut self, item: Frame, dst: &mut BytesMut) -> (r: Result<(), Error>)
        ensures
            r is Ok,
            *final(self) == *old(self),
            exists|key: Seq<u8>|
                key.len() == 4 && contents(*final(dst)) == contents(*old(dst)) + #[trigger] frame_bytes(
                    old(self).role(),
                    item@,
                    key,
                ),
    {
        let key = if self.role == Role::Client {
            [random_byte(), random_byte(), random_byte(), random_byte()]
        } else {
            [0, 0, 0, 0]
        };
        self.encode_with_key(item, key, dst);
        Ok(())
    }
}

/// What copying and unmasking the bytes from `start` to `end` of a payload
/// comes to: the buffer then begins with the payload up to `end` if it began
/// with the payload up to `start`, and it is unchanged before `start`.
proof fn lemma_filled(
    header: Header,
    bytes: Seq<u8>,
    sized: Seq<u8>,
    copied: Seq<u8>,
    unmasked: Seq<u8>,
    start: nat,
    end: nat,
    checked: nat,
)
    requires
        checked <= start <= end <= sized.len(),
        header.offset + end <= bytes.len(),
        copied == sized.take(start as int) + bytes.subrange(
            (header.offset + start) as int,
            (header.offset + end) as int,
        ) + sized.skip(end as int),
        unmasked == match header.key {
            Some(key) => copied.take(start as int) + masked_from(
                key,
                start as int,
                copied.subrange(start as int, end as int),
            ) + copied.skip(end as int),
            None => copied,
        },
    ensures
        unmasked.len() == sized.len(),
        unmasked.take(checked as int) == sized.take(checked as int),
        sized.take(start as int) == header.payload(bytes, start) ==> unmasked.take(end as int)
            == header.payload(bytes, end),
{
    let piece = bytes.subrange((header.offset + start) as int, (header.offset + end) as int);
    assert(copied.take(start as int) =~= sized.take(start as int));
    assert(copied.subrange(start as int, end as int) =~= piece);
    assert(unmasked.take(checked as int) =~= sized.take(checked as int));
    lemma_payload_grows(header, bytes, start, end);
    assert(unmasked.take(end as int) =~= sized.take(start as int) + match header.key {
        Some(key) => masked_from(key, start as int, piece),
        None => piece,
    });
}

/// The payload received up to `end` is the payload received up to `start`
/// and the bytes between the two, unmasked by their place in the payload.
proof fn lemma_payload_grows(header: Header, bytes: Seq<u8>, start: nat, end: nat)
    requires
        start <= end,
        header.offset + end <= bytes.len(),
    ensures
        header.payload(bytes, end) == header.payload(bytes, start) + match header.key {
            Some(key) => masked_from(
                key,
                start as int,
                bytes.subrange((header.offset + start) as int, (header.offset + end) as int),
            ),
            None => bytes.subrange((header.offset + start) as int, (header.offset + end) as int),
        },
{
    let raw = bytes.subrange(header.offset as int, (header.offset + end) as int);
    assert(raw.take(start as int) =~= bytes.subrange(
        header.offset as int,
        (header.offset + start) as int,
    ));
    assert(raw.skip(start as int) =~= bytes.subrange(
        (header.offset + start) as int,
        (header.offset + end) as int,
    ));
    assert(raw =~= raw.take(start as int) + raw.skip(start as int));
    match header.key {
        Some(key) => {
            lemma_masked_split(key, 0, raw, start as int);
            let whole = masked(key, raw);
            assert(whole =~= whole.take(start as int) + whole.skip(start as int));
        },
        None => {},
    }
}

} // verus!
