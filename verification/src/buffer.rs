//! Byte buffers.
//!
//! The codec reads from and writes to `bytes::BytesMut`. What such a buffer
//! holds is named here, and each of its operations that the engine uses is
//! given a contract over that name. The contracts are taken on trust from the
//! `bytes` crate. As with `Vec`, a buffer that outgrows the address space is
//! not modelled.

use bytes::{Buf, BufMut, BytesMut};
use vstd::prelude::*;

verus! {

/// `bytes::BytesMut`, a buffer of bytes that grows at its end and is
/// consumed at its front. Nothing of its inside is known here.
#[verifier::external_type_specification]
#[verifier::external_body]
pub struct ExBytesMut(bytes::BytesMut);

/// The bytes that a buffer holds, first to last.
pub uninterp spec fn contents(buf: BytesMut) -> Seq<u8>;

/// The `count` bytes that write `value` with the most significant byte first.
pub open spec fn be_bytes(value: nat, count: nat) -> Seq<u8>
    decreases count,
{
    if count == 0 {
        Seq::empty()
    } else {
        be_bytes(value / 256, (count - 1) as nat).push((value % 256) as u8)
    }
}

/// The number that `bytes` write, most significant byte first.
pub open spec fn be_value(bytes: Seq<u8>) -> nat
    decreases bytes.len(),
{
    if bytes.len() == 0 {
        0
    } else {
        be_value(bytes.drop_last()) * 256 + bytes.last() as nat
    }
}

/// `BytesMut::new`: a buffer that holds nothing.
#[verifier::external_body]
pub(crate) fn empty() -> (buf: BytesMut)
    ensures
        contents(buf) == Seq::<u8>::empty(),
{
    BytesMut::new()
}

/// `BytesMut::len`: the number of bytes held.
#[verifier::external_body]
pub(crate) fn len(buf: &BytesMut) -> (n: usize)
    ensures
        n == contents(*buf).len(),
{
    buf.len()
}

/// `BytesMut::as_ref`: the bytes held, as a slice.
#[verifier::external_body]
pub(crate) fn as_slice(buf: &BytesMut) -> (bytes: &[u8])
    ensures
        bytes@ == contents(*buf),
{
    buf.as_ref()
}

/// `BytesMut::reserve`: makes room for `additional` more bytes and leaves
/// the bytes held as they are. The crate panics where the new capacity
/// overflows; the bound keeps away from that.
#[verifier::external_body]
pub(crate) fn reserve(buf: &mut BytesMut, additional: usize)
    requires
        contents(*old(buf)).len() + additional <= isize::MAX,
    ensures
        contents(*final(buf)) == contents(*old(buf)),
{
    buf.reserve(additional)
}

/// `Buf::advance` of `BytesMut`: drops the first `count` bytes. The crate
/// panics where fewer are held.
#[verifier::external_body]
pub(crate) fn advance(buf: &mut BytesMut, count: usize)
    requires
        count <= contents(*old(buf)).len(),
    ensures
        contents(*final(buf)) == contents(*old(buf)).skip(count as int),
{
    buf.advance(count)
}

/// `BufMut::put_u8` of `BytesMut`: appends one byte.
#[verifier::external_body]
pub(crate) fn put_u8(buf: &mut BytesMut, value: u8)
    ensures
        contents(*final(buf)) == contents(*old(buf)).push(value),
{
    buf.put_u8(value)
}

/// `BufMut::put_u16` of `BytesMut`: appends the two bytes of `value`, the
/// more significant first.
#[verifier::external_body]
pub(crate) fn put_u16(buf: &mut BytesMut, value: u16)
    ensures
        contents(*final(buf)) == contents(*old(buf)) + be_bytes(value as nat, 2),
{
    buf.put_u16(value)
}

/// `BufMut::put_u64` of `BytesMut`: appends the eight bytes of `value`, the
/// most significant first.
#[verifier::external_body]
pub(crate) fn put_u64(buf: &mut BytesMut, value: u64)
    ensures
        contents(*final(buf)) == contents(*old(buf)) + be_bytes(value as nat, 8),
{
    buf.put_u64(value)
}

/// `BytesMut::extend_from_slice`: appends the bytes of `bytes`.
#[verifier::external_body]
pub(crate) fn extend_from_slice(buf: &mut BytesMut, bytes: &[u8])
    ensures
        contents(*final(buf)) == contents(*old(buf)) + bytes@,
{
    buf.extend_from_slice(bytes)
}

/// Appending a byte to a big-endian number.
pub proof fn lemma_be_value_push(bytes: Seq<u8>, last: u8)
    ensures
        be_value(bytes.push(last)) == be_value(bytes) * 256 + last,
{
    assert(bytes.push(last).drop_last() =~= bytes);
}

/// A big-endian number of `count` bytes is below 256 to the power `count`.
pub proof fn lemma_be_value_bound(bytes: Seq<u8>)
    ensures
        be_value(bytes) < pow256(bytes.len()),
    decreases bytes.len(),
{
    if bytes.len() > 0 {
        lemma_be_value_bound(bytes.drop_last());
    }
}

/// Reading back what `be_bytes` wrote gives the number again, as far as
/// `count` bytes can hold it.
pub proof fn lemma_be_round_trip(value: nat, count: nat)
    ensures
        be_bytes(value, count).len() == count,
        be_value(be_bytes(value, count)) == value % pow256(count),
    decreases count,
{
    if count > 0 {
        let rest = (count - 1) as nat;
        lemma_be_round_trip(value / 256, rest);
        let bytes = be_bytes(value, count);
        assert(bytes.drop_last() =~= be_bytes(value / 256, rest));
        let p = pow256(rest);
        lemma_pow256_positive(rest);
        assert(value % (256 * p) == ((value / 256) % p) * 256 + value % 256) by (nonlinear_arith)
            requires
                p > 0,
        ;
    }
}

/// Powers of 256 are positive.
pub proof fn lemma_pow256_positive(count: nat)
    ensures
        pow256(count) > 0,
    decreases count,
{
    if count > 0 {
        lemma_pow256_positive((count - 1) as nat);
        assert(256 * pow256((count - 1) as nat) > 0) by (nonlinear_arith)
            requires
                pow256((count - 1) as nat) > 0,
        ;
    }
}

/// 256 to the power of `count`.
pub open spec fn pow256(count: nat) -> nat
    decreases count,
{
    if count == 0 {
        1
    } else {
        256 * pow256((count - 1) as nat)
    }
}

} // verus!
