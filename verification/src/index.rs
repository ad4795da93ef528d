//! The index: a fixed-capacity table mapping a segment-relative
//! record number to a relative offset and a store position.
//!
//! Each entry is 12 bytes: a 4-byte big-endian relative offset and an
//! 8-byte big-endian store position, packed densely from byte 0.  The
//! region is pre-sized to its full capacity at creation, so the bytes
//! in logical use are tracked separately in `size`.

use vstd::prelude::*;

use crate::buf::{bytes_range, copy_into, zero_bytes};
use crate::config::Config;
use crate::endian::{
    be_to_u32, be_to_u64, lemma_u32_be_len, lemma_u32_be_round_trip, lemma_u64_be_len,
    lemma_u64_be_round_trip, push_u32_be, push_u64_be, u32_be, u32_be_at, u64_be, u64_be_at,
};
use crate::error::LogError;

verus! {

/// Width in bytes of the relative-offset column.
pub const OFF_WIDTH: usize = 4;

/// Width in bytes of the position column.
pub const POS_WIDTH: usize = 8;

/// Width in bytes of one index entry.
pub const ENT_WIDTH: usize = OFF_WIDTH + POS_WIDTH;

/// In-memory image of one index region.
pub struct Index {
    /// The mapped region; always exactly the configured capacity.
    pub data: Vec<u8>,
    /// Bytes of the region in logical use.
    pub size: usize,
    /// The name of the backing file.
    pub path: String,
}

/// The relative offset stored in entry `i` of region `d`.
pub open spec fn entry_off(d: Seq<u8>, i: int) -> u32
    recommends
        0 <= i,
        12 * i + 12 <= d.len(),
{
    be_to_u32(d.subrange(12 * i, 12 * i + 4))
}

/// The store position stored in entry `i` of region `d`.
pub open spec fn entry_pos(d: Seq<u8>, i: int) -> u64
    recommends
        0 <= i,
        12 * i + 12 <= d.len(),
{
    be_to_u64(d.subrange(12 * i + 4, 12 * i + 12))
}

impl Index {
    /// Capacity in bytes of the region.
    pub open spec fn capacity(self) -> int {
        self.data@.len() as int
    }

    /// Number of whole entries in logical use.
    pub open spec fn entries(self) -> int {
        self.size as int / 12
    }

    /// The region is well formed: the used size covers whole entries
    /// and the unused tail is zeroed.
    pub open spec fn wf(self) -> bool {
        &&& self.size as int % 12 == 0
        &&& self.size <= self.data@.len()
        &&& forall|k: int| self.size <= k < self.data@.len() ==> self.data@[k] == 0
    }

    /// Reads entry `i`; `-1` means "the last entry".  Fails when the
    /// index is empty or the requested entry is not fully written.
    pub fn read(&self, i: i64) -> (res: Result<(u32, u64), LogError>)
        requires
            self.wf(),
            -1 <= i <= u32::MAX,
        ensures
            self.size == 0 ==> (res matches Err(e) && e == LogError::EndOfFile),
            self.size != 0 && i == -1 ==> (res matches Ok(en) && en.0 == entry_off(
                self.data@,
                self.entries() - 1,
            ) && en.1 == entry_pos(self.data@, self.entries() - 1)),
            self.size != 0 && 0 <= i < self.entries() ==> (res matches Ok(en) && en.0 == entry_off(
                self.data@,
                i as int,
            ) && en.1 == entry_pos(self.data@, i as int)),
            self.size != 0 && i >= self.entries() ==> (res matches Err(e) && e
                == LogError::EndOfFile),
    {
        if self.size == 0 {
            return Err(LogError::EndOfFile);
        }
        proof {
            assert(12 * (self.size as int / 12) == self.size as int);
        }
        let last = self.size / 12 - 1;
        let rec_idx: usize = if i == -1 {
            last
        } else {
            i as usize
        };
        if rec_idx > last {
            return Err(LogError::EndOfFile);
        }
        let rec_pos = rec_idx * 12;
        let off = u32_be_at(&self.data, rec_pos);
        let pos = u64_be_at(&self.data, rec_pos + 4);
        proof {
            assert(self.data@.subrange(rec_pos as int, rec_pos + 4) =~= self.data@.subrange(
                12 * rec_idx as int,
                12 * rec_idx as int + 4,
            ));
            assert(self.data@.subrange(rec_pos + 4, rec_pos + 4 + 8) =~= self.data@.subrange(
                12 * rec_idx as int + 4,
                12 * rec_idx as int + 12,
            ));
        }
        Ok((off, pos))
    }

    /// Appends one entry, or fails without change when the region has
    /// no room for it.
    pub fn write(&mut self, off: u32, pos: u64) -> (res: Result<(), LogError>)
        requires
            old(self).wf(),
        ensures
            res is Ok <==> old(self).size + 12 <= old(self).data@.len(),
            res matches Err(e) ==> e == LogError::Capacity && *final(self) == *old(self),
            res is Ok ==> {
                &&& final(self).wf()
                &&& final(self).size == old(self).size + 12
                &&& final(self).data@.len() == old(self).data@.len()
                &&& final(self).path == old(self).path
                &&& final(self).data@.subrange(0, old(self).size as int) == old(
                    self,
                ).data@.subrange(0, old(self).size as int)
                &&& final(self).entries() == old(self).entries() + 1
                &&& entry_off(final(self).data@, old(self).entries()) == off
                &&& entry_pos(final(self).data@, old(self).entries()) == pos
                &&& forall|j: int|
                    0 <= j < old(self).entries() ==> entry_off(final(self).data@, j) == entry_off(
                        old(self).data@,
                        j,
                    ) && entry_pos(final(self).data@, j) == entry_pos(old(self).data@, j)
            },
    {
        if self.data.len() < ENT_WIDTH || self.size > self.data.len() - ENT_WIDTH {
            return Err(LogError::Capacity);
        }
        let ghost n = self.entries();
        let ghost at = self.size as int;
        let mut e: Vec<u8> = Vec::new();
        push_u32_be(&mut e, off);
        push_u64_be(&mut e, pos);
        proof {
            lemma_u32_be_len(off);
            lemma_u64_be_len(pos);
        }
        copy_into(&mut self.data, self.size, &e);
        self.size = self.size + ENT_WIDTH;
        proof {
            let d = self.data@;
            let od = old(self).data@;
            lemma_u32_be_len(off);
            lemma_u64_be_len(pos);
            assert(12 * n == at);
            assert(e@ == u32_be(off) + u64_be(pos));
            assert(d.subrange(at, at + 12) == e@);
            assert(d.subrange(12 * n, 12 * n + 4) =~= e@.subrange(0, 4));
            assert(e@.subrange(0, 4) =~= u32_be(off));
            assert(d.subrange(12 * n + 4, 12 * n + 12) =~= e@.subrange(4, 12));
            assert(e@.subrange(4, 12) =~= u64_be(pos));
            lemma_u32_be_round_trip(off);
            lemma_u64_be_round_trip(pos);
            assert(entry_off(d, n) == off);
            assert(entry_pos(d, n) == pos);
            assert(d.subrange(0, at) =~= od.subrange(0, at));
            assert forall|j: int| 0 <= j < n implies entry_off(d, j) == entry_off(od, j)
                && entry_pos(d, j) == entry_pos(od, j) by {
                assert(d.subrange(12 * j, 12 * j + 4) =~= od.subrange(12 * j, 12 * j + 4));
                assert(d.subrange(12 * j + 4, 12 * j + 12) =~= od.subrange(
                    12 * j + 4,
                    12 * j + 12,
                ));
            }
            assert(self.wf());
        }
        Ok(())
    }

    /// Flushes the mapping to durable storage.  The in-memory image
    /// already holds every write, so nothing changes.
    pub fn close(&mut self)
        ensures
            *final(self) == *old(self),
    {
    }

    /// The name of the backing file.
    pub fn name(&self) -> (r: &String)
        ensures
            r@ == self.path@,
    {
        &self.path
    }

    /// The bytes of the region in logical use — what must survive a
    /// close to reopen the index with the same entries.
    pub fn used_bytes(&self) -> (r: Vec<u8>)
        requires
            self.size <= self.data@.len(),
        ensures
            r@ == self.data@.subrange(0, self.size as int),
    {
        bytes_range(&self.data, 0, self.size)
    }
}

/// Opens an index over the image of the used bytes of its backing
/// file, pre-sizing the region to the configured capacity.  Fails
/// when the used bytes do not cover whole entries or exceed the
/// capacity.
pub fn new_index(path: String, existing: Vec<u8>, c: &Config) -> (res: Result<Index, LogError>)
    requires
        c.segment.max_index_bytes <= usize::MAX,
    ensures
        res is Ok <==> existing@.len() % 12 == 0 && existing@.len() <= c.segment.max_index_bytes,
        res matches Err(e) ==> e == LogError::IOFault,
        res matches Ok(ix) ==> {
            &&& ix.wf()
            &&& ix.size == existing@.len()
            &&& ix.data@.len() == c.segment.max_index_bytes
            &&& ix.data@.subrange(0, ix.size as int) == existing@
            &&& ix.path@ == path@
        },
{
    let cap = c.segment.max_index_bytes as usize;
    if existing.len() % ENT_WIDTH != 0 || existing.len() > cap {
        return Err(LogError::IOFault);
    }
    let size = existing.len();
    let ghost existing_view = existing@;
    let mut data = existing;
    let mut tail = zero_bytes(cap - size);
    data.append(&mut tail);
    proof {
        assert(data@.subrange(0, size as int) =~= existing_view);
        assert forall|k: int| size <= k < data@.len() implies data@[k] == 0 by {
            assert(data@[k] == Seq::<u8>::new((cap - size) as nat, |j: int| 0u8)[k - size]);
        }
    }
    Ok(Index { data, size, path })
}

} // verus!
