//! Small verified helpers over byte vectors.

use vstd::prelude::*;

verus! {

/// Copies `v[from..to]` into a fresh vector.
pub fn bytes_range(v: &Vec<u8>, from: usize, to: usize) -> (r: Vec<u8>)
    requires
        from <= to <= v@.len(),
    ensures
        r@ == v@.subrange(from as int, to as int),
{
    let mut r: Vec<u8> = Vec::new();
    let mut i: usize = from;
    while i < to
        invariant
            from <= i <= to <= v@.len(),
            r@ == v@.subrange(from as int, i as int),
        decreases to - i,
    {
        r.push(v[i]);
        i = i + 1;
        proof {
            assert(r@ =~= v@.subrange(from as int, i as int));
        }
    }
    r
}

/// Overwrites `dst[at..at + src.len()]` with the bytes of `src`,
/// leaving every other byte of `dst` unchanged.
pub fn copy_into(dst: &mut Vec<u8>, at: usize, src: &Vec<u8>)
    requires
        at + src@.len() <= old(dst)@.len(),
    ensures
        final(dst)@.len() == old(dst)@.len(),
        final(dst)@.subrange(at as int, at + src@.len()) == src@,
        forall|k: int|
            0 <= k < final(dst)@.len() && !(at <= k < at + src@.len()) ==> final(dst)@[k] == old(
                dst,
            )@[k],
{
    let n = src.len();
    let dlen = dst.len();
    let mut i: usize = 0;
    while i < n
        invariant
            n == src@.len(),
            i <= n,
            at + n <= dlen,
            dlen == dst@.len(),
            dst@.len() == old(dst)@.len(),
            forall|k: int| at <= k < at + i ==> dst@[k] == src@[k - at],
            forall|k: int|
                0 <= k < dst@.len() && !(at <= k < at + n) ==> dst@[k] == old(dst)@[k],
        decreases n - i,
    {
        dst.set(at + i, src[i]);
        i = i + 1;
    }
    proof {
        assert(dst@.subrange(at as int, at + src@.len()) =~= src@);
    }
}

/// A vector of `n` zero bytes.
pub fn zero_bytes(n: usize) -> (r: Vec<u8>)
    ensures
        r@ == Seq::<u8>::new(n as nat, |k: int| 0u8),
{
    let mut r: Vec<u8> = Vec::new();
    let mut i: usize = 0;
    while i < n
        invariant
            i <= n,
            r@ == Seq::<u8>::new(i as nat, |k: int| 0u8),
        decreases n - i,
    {
        r.push(0u8);
        i = i + 1;
        proof {
            assert(r@ =~= Seq::<u8>::new(i as nat, |k: int| 0u8));
        }
    }
    r
}

} // verus!
