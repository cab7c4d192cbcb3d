//! Big-endian views of 32-bit and 64-bit words.
//!
//! Every multi-byte integer this protocol puts on the wire or in a
//! pack file is big-endian; these spec functions are the single
//! definition the rest of the crate writes its contracts against.

use vstd::prelude::*;

verus! {

/// The four big-endian bytes of a 32-bit word.
pub open spec fn u32_be_bytes(v: u32) -> Seq<u8> {
    seq![
        (v >> 24) as u8,
        (v >> 16) as u8,
        (v >> 8) as u8,
        v as u8,
    ]
}

/// The 32-bit word read from four big-endian bytes.
pub open spec fn u32_of_be(s: Seq<u8>) -> u32
    recommends
        s.len() == 4,
{
    (((s[0] as u32) << 24) | ((s[1] as u32) << 16) | ((s[2] as u32) << 8) | (s[3] as u32)) as u32
}

/// The eight big-endian bytes of a 64-bit word.
pub open spec fn u64_be_bytes(v: u64) -> Seq<u8> {
    seq![
        (v >> 56) as u8,
        (v >> 48) as u8,
        (v >> 40) as u8,
        (v >> 32) as u8,
        (v >> 24) as u8,
        (v >> 16) as u8,
        (v >> 8) as u8,
        v as u8,
    ]
}

/// The 64-bit word read from eight big-endian bytes.
pub open spec fn u64_of_be(s: Seq<u8>) -> u64
    recommends
        s.len() == 8,
{
    (((s[0] as u64) << 56) | ((s[1] as u64) << 48) | ((s[2] as u64) << 40) | ((s[3] as u64) << 32)
        | ((s[4] as u64) << 24) | ((s[5] as u64) << 16) | ((s[6] as u64) << 8) | (s[7] as u64)) as u64
}

/// Reading back the four bytes of a word yields the word.
pub proof fn lemma_u32_be_round_trip(v: u32)
    ensures
        u32_of_be(u32_be_bytes(v)) == v,
{
    assert((((((v >> 24) as u8) as u32) << 24) | ((((v >> 16) as u8) as u32) << 16) | ((((v >> 8) as u8) as u32) << 8) | ((v as u8) as u32)) == v)
        by (bit_vector);
}

/// Four bytes are determined by the word they spell.
pub proof fn lemma_u32_be_bytes_of(s: Seq<u8>)
    requires
        s.len() == 4,
    ensures
        u32_be_bytes(u32_of_be(s)) == s,
{
    let v = u32_of_be(s);
    let b0 = s[0];
    let b1 = s[1];
    let b2 = s[2];
    let b3 = s[3];
    assert({
        let w = ((((b0 as u32) << 24) | ((b1 as u32) << 16) | ((b2 as u32) << 8) | (b3 as u32)) as u32);
        (w >> 24) as u8 == b0 && (w >> 16) as u8 == b1 && (w >> 8) as u8 == b2 && w as u8 == b3
    }) by (bit_vector);
    assert(u32_be_bytes(v) =~= s);
}

/// Reading back the eight bytes of a word yields the word.
pub proof fn lemma_u64_be_round_trip(v: u64)
    ensures
        u64_of_be(u64_be_bytes(v)) == v,
{
    assert((((((v >> 56) as u8) as u64) << 56) | ((((v >> 48) as u8) as u64) << 48) | ((((v >> 40) as u8) as u64) << 40)
        | ((((v >> 32) as u8) as u64) << 32) | ((((v >> 24) as u8) as u64) << 24) | ((((v >> 16) as u8) as u64) << 16)
        | ((((v >> 8) as u8) as u64) << 8) | ((v as u8) as u64)) == v) by (bit_vector);
}

/// Eight bytes are determined by the word they spell.
pub proof fn lemma_u64_be_bytes_of(s: Seq<u8>)
    requires
        s.len() == 8,
    ensures
        u64_be_bytes(u64_of_be(s)) == s,
{
    let b0 = s[0];
    let b1 = s[1];
    let b2 = s[2];
    let b3 = s[3];
    let b4 = s[4];
    let b5 = s[5];
    let b6 = s[6];
    let b7 = s[7];
    assert({
        let w = ((((b0 as u64) << 56) | ((b1 as u64) << 48) | ((b2 as u64) << 40) | ((b3 as u64) << 32)
            | ((b4 as u64) << 24) | ((b5 as u64) << 16) | ((b6 as u64) << 8) | (b7 as u64)) as u64);
        (w >> 56) as u8 == b0 && (w >> 48) as u8 == b1 && (w >> 40) as u8 == b2 && (w >> 32) as u8 == b3
            && (w >> 24) as u8 == b4 && (w >> 16) as u8 == b5 && (w >> 8) as u8 == b6 && w as u8 == b7
    }) by (bit_vector);
    assert(u64_be_bytes(u64_of_be(s)) =~= s);
}

/// Append the four big-endian bytes of `v` to `buf`.
pub fn push_u32_be(buf: &mut Vec<u8>, v: u32)
    ensures
        final(buf)@ == old(buf)@ + u32_be_bytes(v),
{
    buf.push((v >> 24) as u8);
    buf.push((v >> 16) as u8);
    buf.push((v >> 8) as u8);
    buf.push(v as u8);
    assert(buf@ =~= old(buf)@ + u32_be_bytes(v));
}

/// Append the eight big-endian bytes of `v` to `buf`.
pub fn push_u64_be(buf: &mut Vec<u8>, v: u64)
    ensures
        final(buf)@ == old(buf)@ + u64_be_bytes(v),
{
    buf.push((v >> 56) as u8);
    buf.push((v >> 48) as u8);
    buf.push((v >> 40) as u8);
    buf.push((v >> 32) as u8);
    buf.push((v >> 24) as u8);
    buf.push((v >> 16) as u8);
    buf.push((v >> 8) as u8);
    buf.push(v as u8);
    assert(buf@ =~= old(buf)@ + u64_be_bytes(v));
}

/// Read the 32-bit word spelled at `pos` in `s`.
pub fn read_u32_be(s: &Vec<u8>, pos: usize) -> (r: u32)
    requires
        pos + 4 <= s.len(),
    ensures
        r == u32_of_be(s@.subrange(pos as int, pos + 4)),
{
    let r = ((s[pos] as u32) << 24) | ((s[pos + 1] as u32) << 16) | ((s[pos + 2] as u32) << 8) | (s[pos + 3] as u32);
    proof {
        let sub = s@.subrange(pos as int, pos + 4);
        assert(sub[0] == s@[pos as int] && sub[1] == s@[pos + 1] && sub[2] == s@[pos + 2] && sub[3] == s@[pos + 3]);
    }
    r
}

/// Read the 64-bit word spelled at `pos` in `s`.
pub fn read_u64_be(s: &Vec<u8>, pos: usize) -> (r: u64)
    requires
        pos + 8 <= s.len(),
    ensures
        r == u64_of_be(s@.subrange(pos as int, pos + 8)),
{
    let r = ((s[pos] as u64) << 56) | ((s[pos + 1] as u64) << 48) | ((s[pos + 2] as u64) << 40)
        | ((s[pos + 3] as u64) << 32) | ((s[pos + 4] as u64) << 24) | ((s[pos + 5] as u64) << 16)
        | ((s[pos + 6] as u64) << 8) | (s[pos + 7] as u64);
    proof {
        let sub = s@.subrange(pos as int, pos + 8);
        assert(sub[0] == s@[pos as int] && sub[1] == s@[pos + 1] && sub[2] == s@[pos + 2] && sub[3] == s@[pos + 3]
            && sub[4] == s@[pos + 4] && sub[5] == s@[pos + 5] && sub[6] == s@[pos + 6] && sub[7] == s@[pos + 7]);
    }
    r
}

/// Append `count` copies of `byte` to `buf`.
pub fn push_repeat(buf: &mut Vec<u8>, byte: u8, count: usize)
    ensures
        final(buf)@ == old(buf)@ + Seq::new(count as nat, |i: int| byte),
{
    let mut i: usize = 0;
    while i < count
        invariant
            i <= count,
            buf@ == old(buf)@ + Seq::new(i as nat, |j: int| byte),
        decreases count - i,
    {
        buf.push(byte);
        assert(buf@ =~= old(buf)@ + Seq::new((i + 1) as nat, |j: int| byte));
        i = i + 1;
    }
}

/// Append all of `src` to `buf`.
pub fn push_all(buf: &mut Vec<u8>, src: &[u8])
    ensures
        final(buf)@ == old(buf)@ + src@,
{
    let mut i: usize = 0;
    while i < src.len()
        invariant
            i <= src.len(),
            buf@ == old(buf)@ + src@.take(i as int),
        decreases src.len() - i,
    {
        buf.push(src[i]);
        assert(buf@ =~= old(buf)@ + src@.take(i + 1));
        i = i + 1;
    }
    assert(src@.take(src@.len() as int) =~= src@);
}

} // verus!
