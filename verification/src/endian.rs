//! Big-endian encoding of the fixed-width integers used by the
//! on-disk formats: 8-byte store positions and frame lengths, 4-byte
//! relative offsets.

use vstd::prelude::*;

verus! {

/// The 8 big-endian bytes of a 64-bit integer, most significant first.
#[verifier::opaque]
pub open spec fn u64_be(x: u64) -> Seq<u8> {
    seq![
        ((x >> 56) & 0xff) as u8,
        ((x >> 48) & 0xff) as u8,
        ((x >> 40) & 0xff) as u8,
        ((x >> 32) & 0xff) as u8,
        ((x >> 24) & 0xff) as u8,
        ((x >> 16) & 0xff) as u8,
        ((x >> 8) & 0xff) as u8,
        (x & 0xff) as u8,
    ]
}

/// The 64-bit integer read back from 8 big-endian bytes.
#[verifier::opaque]
pub open spec fn be_to_u64(s: Seq<u8>) -> u64
    recommends
        s.len() == 8,
{
    ((s[0] as u64) << 56) | ((s[1] as u64) << 48) | ((s[2] as u64) << 40)
        | ((s[3] as u64) << 32) | ((s[4] as u64) << 24) | ((s[5] as u64) << 16)
        | ((s[6] as u64) << 8) | (s[7] as u64)
}

/// The 4 big-endian bytes of a 32-bit integer, most significant first.
#[verifier::opaque]
pub open spec fn u32_be(x: u32) -> Seq<u8> {
    seq![
        ((x >> 24) & 0xff) as u8,
        ((x >> 16) & 0xff) as u8,
        ((x >> 8) & 0xff) as u8,
        (x & 0xff) as u8,
    ]
}

/// The 32-bit integer read back from 4 big-endian bytes.
#[verifier::opaque]
pub open spec fn be_to_u32(s: Seq<u8>) -> u32
    recommends
        s.len() == 4,
{
    ((s[0] as u32) << 24) | ((s[1] as u32) << 16) | ((s[2] as u32) << 8) | (s[3] as u32)
}

/// An encoded 64-bit integer is exactly 8 bytes.
pub proof fn lemma_u64_be_len(x: u64)
    ensures
        u64_be(x).len() == 8,
{
    reveal(u64_be);
}

/// An encoded 32-bit integer is exactly 4 bytes.
pub proof fn lemma_u32_be_len(x: u32)
    ensures
        u32_be(x).len() == 4,
{
    reveal(u32_be);
}

/// Decoding inverts encoding: the bytes of `x` read back as `x`.
pub proof fn lemma_u64_be_round_trip(x: u64)
    ensures
        be_to_u64(u64_be(x)) == x,
{
    reveal(u64_be);
    reveal(be_to_u64);
    let b0 = ((x >> 56) & 0xff) as u8;
    let b1 = ((x >> 48) & 0xff) as u8;
    let b2 = ((x >> 40) & 0xff) as u8;
    let b3 = ((x >> 32) & 0xff) as u8;
    let b4 = ((x >> 24) & 0xff) as u8;
    let b5 = ((x >> 16) & 0xff) as u8;
    let b6 = ((x >> 8) & 0xff) as u8;
    let b7 = (x & 0xff) as u8;
    assert((((b0 as u64) << 56) | ((b1 as u64) << 48) | ((b2 as u64) << 40)
        | ((b3 as u64) << 32) | ((b4 as u64) << 24) | ((b5 as u64) << 16)
        | ((b6 as u64) << 8) | (b7 as u64)) == x) by (bit_vector)
        requires
            b0 == ((x >> 56) & 0xff) as u8,
            b1 == ((x >> 48) & 0xff) as u8,
            b2 == ((x >> 40) & 0xff) as u8,
            b3 == ((x >> 32) & 0xff) as u8,
            b4 == ((x >> 24) & 0xff) as u8,
            b5 == ((x >> 16) & 0xff) as u8,
            b6 == ((x >> 8) & 0xff) as u8,
            b7 == (x & 0xff) as u8,
    ;
}

/// Decoding inverts encoding: the bytes of `x` read back as `x`.
pub proof fn lemma_u32_be_round_trip(x: u32)
    ensures
        be_to_u32(u32_be(x)) == x,
{
    reveal(u32_be);
    reveal(be_to_u32);
    let b0 = ((x >> 24) & 0xff) as u8;
    let b1 = ((x >> 16) & 0xff) as u8;
    let b2 = ((x >> 8) & 0xff) as u8;
    let b3 = (x & 0xff) as u8;
    assert((((b0 as u32) << 24) | ((b1 as u32) << 16) | ((b2 as u32) << 8)
        | (b3 as u32)) == x) by (bit_vector)
        requires
            b0 == ((x >> 24) & 0xff) as u8,
            b1 == ((x >> 16) & 0xff) as u8,
            b2 == ((x >> 8) & 0xff) as u8,
            b3 == (x & 0xff) as u8,
    ;
}

/// Appends the 8 big-endian bytes of `x` to `out`.
pub fn push_u64_be(out: &mut Vec<u8>, x: u64)
    ensures
        final(out)@ == old(out)@ + u64_be(x),
{
    out.push(((x >> 56) & 0xff) as u8);
    out.push(((x >> 48) & 0xff) as u8);
    out.push(((x >> 40) & 0xff) as u8);
    out.push(((x >> 32) & 0xff) as u8);
    out.push(((x >> 24) & 0xff) as u8);
    out.push(((x >> 16) & 0xff) as u8);
    out.push(((x >> 8) & 0xff) as u8);
    out.push((x & 0xff) as u8);
    proof {
        reveal(u64_be);
        assert(out@ =~= old(out)@ + u64_be(x));
    }
}

/// Appends the 4 big-endian bytes of `x` to `out`.
pub fn push_u32_be(out: &mut Vec<u8>, x: u32)
    ensures
        final(out)@ == old(out)@ + u32_be(x),
{
    out.push(((x >> 24) & 0xff) as u8);
    out.push(((x >> 16) & 0xff) as u8);
    out.push(((x >> 8) & 0xff) as u8);
    out.push((x & 0xff) as u8);
    proof {
        reveal(u32_be);
        assert(out@ =~= old(out)@ + u32_be(x));
    }
}

/// Reads a big-endian 64-bit integer from `v` starting at `at`.
pub fn u64_be_at(v: &Vec<u8>, at: usize) -> (x: u64)
    requires
        at + 8 <= v@.len(),
    ensures
        x == be_to_u64(v@.subrange(at as int, at as int + 8)),
{
    let _n = v.len();
    let x: u64 = ((v[at] as u64) << 56) | ((v[at + 1] as u64) << 48)
        | ((v[at + 2] as u64) << 40) | ((v[at + 3] as u64) << 32)
        | ((v[at + 4] as u64) << 24) | ((v[at + 5] as u64) << 16)
        | ((v[at + 6] as u64) << 8) | (v[at + 7] as u64);
    proof {
        reveal(be_to_u64);
        let s = v@.subrange(at as int, at as int + 8);
        assert(s[0] == v@[at as int]);
        assert(s[1] == v@[at + 1]);
        assert(s[2] == v@[at + 2]);
        assert(s[3] == v@[at + 3]);
        assert(s[4] == v@[at + 4]);
        assert(s[5] == v@[at + 5]);
        assert(s[6] == v@[at + 6]);
        assert(s[7] == v@[at + 7]);
    }
    x
}

/// Reads a big-endian 32-bit integer from `v` starting at `at`.
pub fn u32_be_at(v: &Vec<u8>, at: usize) -> (x: u32)
    requires
        at + 4 <= v@.len(),
    ensures
        x == be_to_u32(v@.subrange(at as int, at as int + 4)),
{
    let _n = v.len();
    let x: u32 = ((v[at] as u32) << 24) | ((v[at + 1] as u32) << 16)
        | ((v[at + 2] as u32) << 8) | (v[at + 3] as u32);
    proof {
        reveal(be_to_u32);
        let s = v@.subrange(at as int, at as int + 4);
        assert(s[0] == v@[at as int]);
        assert(s[1] == v@[at + 1]);
        assert(s[2] == v@[at + 2]);
        assert(s[3] == v@[at + 3]);
    }
    x
}

} // verus!
