//! Byte framing used to feed hashes: fixed-width integer encodings and
//! appending to byte buffers.
use vstd::prelude::*;

verus! {

/// The big-endian encoding of a `u64`.
pub open spec fn u64_be(n: u64) -> Seq<u8> {
    seq![
        (n >> 56u64) as u8,
        (n >> 48u64) as u8,
        (n >> 40u64) as u8,
        (n >> 32u64) as u8,
        (n >> 24u64) as u8,
        (n >> 16u64) as u8,
        (n >> 8u64) as u8,
        n as u8,
    ]
}

/// The little-endian encoding of a `u32`.
pub open spec fn u32_le(n: u32) -> Seq<u8> {
    seq![n as u8, (n >> 8u32) as u8, (n >> 16u32) as u8, (n >> 24u32) as u8]
}

/// A byte string preceded by its length, as a big-endian `u64`.
pub open spec fn length_prefixed(s: Seq<u8>) -> Seq<u8> {
    u64_be(s.len() as u64) + s
}

/// Appends the big-endian encoding of `n`.
pub fn push_u64_be(buf: &mut Vec<u8>, n: u64)
    ensures
        final(buf)@ == old(buf)@ + u64_be(n),
{
    buf.push((n >> 56u64) as u8);
    buf.push((n >> 48u64) as u8);
    buf.push((n >> 40u64) as u8);
    buf.push((n >> 32u64) as u8);
    buf.push((n >> 24u64) as u8);
    buf.push((n >> 16u64) as u8);
    buf.push((n >> 8u64) as u8);
    buf.push(n as u8);
    assert(buf@ =~= old(buf)@ + u64_be(n));
}

/// Appends the little-endian encoding of `n`.
pub fn push_u32_le(buf: &mut Vec<u8>, n: u32)
    ensures
        final(buf)@ == old(buf)@ + u32_le(n),
{
    buf.push(n as u8);
    buf.push((n >> 8u32) as u8);
    buf.push((n >> 16u32) as u8);
    buf.push((n >> 24u32) as u8);
    assert(buf@ =~= old(buf)@ + u32_le(n));
}

/// Appends the bytes of `s`.
pub fn push_bytes(buf: &mut Vec<u8>, s: &[u8])
    ensures
        final(buf)@ == old(buf)@ + s@,
{
    let ghost start = buf@;
    let mut i: usize = 0;
    while i < s.len()
        invariant
            i <= s@.len(),
            buf@ == start + s@.subrange(0, i as int),
        decreases s@.len() - i,
    {
        buf.push(s[i]);
        i = i + 1;
        assert(buf@ =~= start + s@.subrange(0, i as int));
    }
    assert(s@.subrange(0, s@.len() as int) =~= s@);
}

/// Appends `s` preceded by its length.
pub fn push_length_prefixed(buf: &mut Vec<u8>, s: &[u8])
    ensures
        final(buf)@ == old(buf)@ + length_prefixed(s@),
{
    push_u64_be(buf, s.len() as u64);
    push_bytes(buf, s);
    assert(buf@ =~= old(buf)@ + length_prefixed(s@));
}

} // verus!
