//! The store: an append-only log of length-prefixed byte frames.
//!
//! Each frame is an 8-byte big-endian length followed by that many
//! payload bytes.  The byte position at which a frame begins is the
//! handle under which it is read back.

use vstd::prelude::*;

use crate::buf::bytes_range;
use crate::endian::{be_to_u64, lemma_u64_be_len, lemma_u64_be_round_trip, push_u64_be, u64_be, u64_be_at};
use crate::error::LogError;

verus! {

/// Width in bytes of the length prefix of each frame.
pub const LEN_WIDTH: u64 = 8;

/// In-memory image of one store file.
pub struct StoreInner {
    /// The full contents of the backing file.
    pub data: Vec<u8>,
    /// The name of the backing file.
    pub path: String,
}

/// The length prefix of the frame starting at position `p` of `d`.
pub open spec fn frame_len(d: Seq<u8>, p: int) -> u64
    recommends
        p + 8 <= d.len(),
{
    be_to_u64(d.subrange(p, p + 8))
}

/// Whether a whole frame lies within `d` starting at position `p`.
pub open spec fn frame_fits(d: Seq<u8>, p: int) -> bool {
    &&& 0 <= p
    &&& p + 8 <= d.len()
    &&& p + 8 + frame_len(d, p) <= d.len()
}

/// The payload of the frame starting at position `p` of `d`.
pub open spec fn frame_payload(d: Seq<u8>, p: int) -> Seq<u8>
    recommends
        frame_fits(d, p),
{
    d.subrange(p + 8, p + 8 + frame_len(d, p))
}

/// Extending a store leaves every frame already in it unchanged.
pub proof fn lemma_frame_preserved(d: Seq<u8>, ext: Seq<u8>, p: int)
    requires
        frame_fits(d, p),
    ensures
        frame_fits(d + ext, p),
        frame_len(d + ext, p) == frame_len(d, p),
        frame_payload(d + ext, p) == frame_payload(d, p),
{
    assert((d + ext).subrange(p, p + 8) =~= d.subrange(p, p + 8));
    assert((d + ext).subrange(p + 8, p + 8 + frame_len(d, p)) =~= d.subrange(
        p + 8,
        p + 8 + frame_len(d, p),
    ));
}

/// The frame appended at the old end of a store reads back its
/// payload.
pub proof fn lemma_new_frame(d: Seq<u8>, p: Seq<u8>)
    requires
        d.len() + 8 + p.len() <= u64::MAX,
    ensures
        frame_fits(d + u64_be(p.len() as u64) + p, d.len() as int),
        frame_len(d + u64_be(p.len() as u64) + p, d.len() as int) == p.len(),
        frame_payload(d + u64_be(p.len() as u64) + p, d.len() as int) == p,
{
    lemma_u64_be_len(p.len() as u64);
    let d2 = d + u64_be(p.len() as u64) + p;
    let at = d.len() as int;
    assert(d2.subrange(at, at + 8) =~= u64_be(p.len() as u64));
    lemma_u64_be_round_trip(p.len() as u64);
    assert(frame_len(d2, at) == p.len());
    assert(d2.subrange(at + 8, at + 8 + p.len()) =~= p);
}

/// The operations of a store.
pub trait StoreExt: Sized {
    /// The bytes of the backing file.
    spec fn contents(&self) -> Seq<u8>;

    /// The name of the backing file.
    spec fn file_name(&self) -> Seq<char>;

    /// Appends one frame holding payload `p` at the tail and returns
    /// the number of bytes written (prefix plus payload) and the
    /// position at which the frame begins.
    fn append(&mut self, p: Vec<u8>) -> (res: Result<(u64, u64), LogError>)
        requires
            old(self).contents().len() + 8 + p@.len() <= u64::MAX,
        ensures
            final(self).contents() == old(self).contents() + u64_be(p@.len() as u64) + p@,
            final(self).file_name() == old(self).file_name(),
            res matches Ok(r) && r.0 == 8 + p@.len() && r.1 == old(self).contents().len(),
    ;

    /// Reads back the payload of the frame at position `pos`, or
    /// fails when no whole frame lies there.
    fn read(&self, pos: u64) -> (res: Result<Vec<u8>, LogError>)
        ensures
            frame_fits(self.contents(), pos as int) ==> (res matches Ok(p) && p@ == frame_payload(
                self.contents(),
                pos as int,
            )),
            !frame_fits(self.contents(), pos as int) ==> (res matches Err(e) && e
                == LogError::EndOfFile),
    ;

    /// Fills `buf` with the bytes at `offset`.
    fn read_at(&self, buf: &mut Vec<u8>, offset: u64)
        requires
            offset + old(buf)@.len() <= self.contents().len(),
        ensures
            final(buf)@ == self.contents().subrange(offset as int, offset + old(buf)@.len()),
    ;

    /// Flushes buffered writes to durable storage.  The in-memory
    /// image already holds every write, so nothing changes.
    fn close(&mut self)
        ensures
            *final(self) == *old(self),
    ;

    /// The name of the backing file.
    fn name(&self) -> (r: &String)
        ensures
            r@ == self.file_name(),
    ;
}

/// Opens a store over the given image of its backing file.
pub fn new_store(path: String, data: Vec<u8>) -> (s: StoreInner)
    ensures
        s.data@ == data@,
        s.path@ == path@,
        s.contents() == data@,
        s.file_name() == path@,
{
    StoreInner { data, path }
}

impl StoreInner {
    /// The current size of the store in bytes; doubles as the
    /// position of the next frame.
    pub fn size(&self) -> (s: u64)
        ensures
            s == self.contents().len(),
    {
        self.data.len() as u64
    }
}

impl StoreExt for StoreInner {
    open spec fn contents(&self) -> Seq<u8> {
        self.data@
    }

    open spec fn file_name(&self) -> Seq<char> {
        self.path@
    }

    fn append(&mut self, p: Vec<u8>) -> (res: Result<(u64, u64), LogError>) {
        let mut p = p;
        let pos = self.data.len() as u64;
        let written = LEN_WIDTH + p.len() as u64;
        push_u64_be(&mut self.data, p.len() as u64);
        self.data.append(&mut p);
        Ok((written, pos))
    }

    fn read(&self, pos: u64) -> (res: Result<Vec<u8>, LogError>) {
        let n = self.data.len();
        if pos > u64::MAX - 8 || pos + 8 > n as u64 {
            return Err(LogError::EndOfFile);
        }
        let start = pos as usize;
        let len = u64_be_at(&self.data, start);
        if len > (n - (start + 8)) as u64 {
            return Err(LogError::EndOfFile);
        }
        let end = start + 8 + len as usize;
        Ok(bytes_range(&self.data, start + 8, end))
    }

    fn read_at(&self, buf: &mut Vec<u8>, offset: u64) {
        let n = buf.len();
        let dlen = self.data.len();
        let start = offset as usize;
        let mut i: usize = 0;
        while i < n
            invariant
                n == old(buf)@.len(),
                buf@.len() == n,
                i <= n,
                start == offset,
                dlen == self.data@.len(),
                offset + n <= self.contents().len(),
                self.contents() == self.data@,
                forall|k: int| 0 <= k < i ==> buf@[k] == self.data@[start + k],
            decreases n - i,
        {
            let b = self.data[start + i];
            buf.set(i, b);
            i = i + 1;
        }
        proof {
            assert(buf@ =~= self.contents().subrange(offset as int, offset + old(buf)@.len()));
        }
    }

    fn close(&mut self) {
    }

    fn name(&self) -> (r: &String) {
        &self.path
    }
}

} // verus!
