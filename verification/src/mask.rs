//! Masking of frame payloads.
//!
//! A masked payload is the payload with each byte combined by exclusive or
//! with one of the four bytes of a key: byte `i` with key byte `i mod 4`.
//! Masking twice with one key gives the payload back.

use vstd::prelude::*;

verus! {

/// `data` with byte `i` combined with key byte `(phase + i) mod 4`.
pub open spec fn masked_from(key: Seq<u8>, phase: int, data: Seq<u8>) -> Seq<u8> {
    Seq::new(data.len(), |i: int| data[i] ^ key[(phase + i) % 4])
}

/// `data` under the mask of `key`.
pub open spec fn masked(key: Seq<u8>, data: Seq<u8>) -> Seq<u8> {
    masked_from(key, 0, data)
}

/// Masks, or unmasks, the bytes of `data` from `from` up to `to`. The key
/// byte goes by the position of a byte in `data`, so that a payload may be
/// unmasked in pieces.
pub fn frame_range(key: [u8; 4], data: &mut Vec<u8>, from: usize, to: usize)
    requires
        from <= to <= old(data)@.len(),
    ensures
        final(data)@ == old(data)@.take(from as int) + masked_from(
            key@,
            from as int,
            old(data)@.subrange(from as int, to as int),
        ) + old(data)@.skip(to as int),
{
    let mut i = from;
    while i < to
        invariant
            from <= i <= to <= data@.len(),
            data@.len() == old(data)@.len(),
            forall|j: int| 0 <= j < from ==> data@[j] == old(data)@[j],
            forall|j: int| from <= j < i ==> data@[j] == old(data)@[j] ^ key@[j % 4],
            forall|j: int| i <= j < data@.len() ==> data@[j] == old(data)@[j],
        decreases to - i,
    {
        let byte = data[i] ^ key[i % 4];
        data.set(i, byte);
        i = i + 1;
    }
    assert(data@ =~= old(data)@.take(from as int) + masked_from(
        key@,
        from as int,
        old(data)@.subrange(from as int, to as int),
    ) + old(data)@.skip(to as int));
}

/// Masks, or unmasks, all of `data`.
pub fn frame(key: [u8; 4], data: &mut Vec<u8>)
    ensures
        final(data)@ == masked(key@, old(data)@),
{
    let n = data.len();
    frame_range(key, data, 0, n);
    assert(data@ =~= masked(key@, old(data)@)) by {
        assert(old(data)@.subrange(0, n as int) =~= old(data)@);
    }
}

/// Masking twice with one key gives the data back.
pub proof fn lemma_masked_twice(key: Seq<u8>, phase: int, data: Seq<u8>)
    requires
        key.len() == 4,
        phase >= 0,
    ensures
        masked_from(key, phase, masked_from(key, phase, data)) == data,
{
    let once = masked_from(key, phase, data);
    let twice = masked_from(key, phase, once);
    assert forall|i: int| 0 <= i < data.len() implies twice[i] == data[i] by {
        let d = data[i];
        let k = key[(phase + i) % 4];
        assert((d ^ k) ^ k == d) by (bit_vector);
    }
    assert(twice =~= data);
}

/// Masking a prefix is the prefix of the masking, and what follows is masked
/// with the key shifted by the length of the prefix.
pub proof fn lemma_masked_split(key: Seq<u8>, phase: int, data: Seq<u8>, at: int)
    requires
        0 <= at <= data.len(),
    ensures
        masked_from(key, phase, data.take(at)) == masked_from(key, phase, data).take(at),
        masked_from(key, phase + at, data.skip(at)) == masked_from(key, phase, data).skip(at),
{
    assert(masked_from(key, phase, data.take(at)) =~= masked_from(key, phase, data).take(at));
    assert(masked_from(key, phase + at, data.skip(at)) =~= masked_from(key, phase, data).skip(at));
}

} // verus!
