//! The segment: one store and one index rooted at a base offset.
//!
//! A segment covers the contiguous run of global offsets
//! `[base_offset, next_offset)`.  Entry `i` of its index holds the
//! relative offset `i` and the store position of the frame whose
//! payload is the encoded record stamped with global offset
//! `base_offset + i`.

use vstd::prelude::*;

use crate::buf::bytes_range;
use crate::config::Config;
use crate::endian::{lemma_u64_be_len, u64_be, u64_be_at};
use crate::error::LogError;
use crate::index::{entry_off, entry_pos, new_index, Index, ENT_WIDTH};
use crate::record::{decode_record, decoded_offset, decoded_value, encode_record, lemma_record_round_trip, Record};
use crate::store::{frame_fits, frame_payload, lemma_frame_preserved, lemma_new_frame, new_store, StoreExt, StoreInner};

verus! {

/// Entry `i` of the index region `ix` correctly describes record `i`
/// of a segment based at `base` whose store bytes are `store`.
pub open spec fn valid_entry(base: u64, store: Seq<u8>, ix: Seq<u8>, i: int) -> bool {
    &&& entry_off(ix, i) == i
    &&& frame_fits(store, entry_pos(ix, i) as int)
    &&& frame_payload(store, entry_pos(ix, i) as int).len() >= 8
    &&& decoded_offset(frame_payload(store, entry_pos(ix, i) as int)) == base + i
}

/// The used bytes `ix` of an index, together with store bytes
/// `store`, form a consistent image of a segment based at `base`.
/// This is what segment recovery checks when a directory is reopened.
pub open spec fn valid_segment_data(base: u64, store: Seq<u8>, ix: Seq<u8>, c: Config) -> bool {
    &&& ix.len() % 12 == 0
    &&& ix.len() <= c.segment.max_index_bytes
    &&& base + ix.len() / 12 <= u64::MAX
    &&& forall|i: int| 0 <= i < ix.len() / 12 ==> valid_entry(base, store, ix, i)
}

/// The record values described by the used index bytes `ix` over the
/// store bytes `store`, in relative-offset order.
pub open spec fn records_of(store: Seq<u8>, ix: Seq<u8>) -> Seq<Seq<u8>> {
    Seq::new(
        (ix.len() / 12) as nat,
        |i: int| decoded_value(frame_payload(store, entry_pos(ix, i) as int)),
    )
}

/// An index region and its used prefix agree on every entry that
/// lies within the prefix.
pub proof fn lemma_entry_in_prefix(full: Seq<u8>, used: Seq<u8>, i: int)
    requires
        0 <= i,
        12 * i + 12 <= used.len(),
        used.len() <= full.len(),
        full.subrange(0, used.len() as int) == used,
    ensures
        entry_off(full, i) == entry_off(used, i),
        entry_pos(full, i) == entry_pos(used, i),
{
    assert forall|k: int| 0 <= k < used.len() implies full[k] == used[k] by {
        assert(full.subrange(0, used.len() as int)[k] == full[k]);
    }
    assert(full.subrange(12 * i, 12 * i + 4) =~= used.subrange(12 * i, 12 * i + 4));
    assert(full.subrange(12 * i + 4, 12 * i + 12) =~= used.subrange(12 * i + 4, 12 * i + 12));
}


/// A frame already described by an index entry is untouched when the
/// store grows and the entry is unchanged.
proof fn lemma_entry_preserved(
    base: u64,
    old_store: Seq<u8>,
    old_ix: Seq<u8>,
    st: Seq<u8>,
    ix: Seq<u8>,
    i: int,
    ext: Seq<u8>,
)
    requires
        valid_entry(base, old_store, old_ix, i),
        st == old_store + ext,
        entry_off(ix, i) == entry_off(old_ix, i),
        entry_pos(ix, i) == entry_pos(old_ix, i),
    ensures
        valid_entry(base, st, ix, i),
        decoded_value(frame_payload(st, entry_pos(ix, i) as int)) == decoded_value(
            frame_payload(old_store, entry_pos(old_ix, i) as int),
        ),
{
    lemma_frame_preserved(old_store, ext, entry_pos(old_ix, i) as int);
}

/// After one frame is appended to the store and one entry to the
/// index, every old entry still describes its record and the new
/// entry describes the new one.
#[verifier::rlimit(60)]
proof fn lemma_append_effect(
    base: u64,
    old_store: Seq<u8>,
    old_ix: Seq<u8>,
    st: Seq<u8>,
    ix: Seq<u8>,
    n: int,
    enc: Seq<u8>,
    cur: u64,
)
    requires
        0 <= n,
        cur == base + n,
        forall|i: int| 0 <= i < n ==> valid_entry(base, old_store, old_ix, i),
        old_store.len() + 8 + enc.len() <= u64::MAX,
        st == old_store + u64_be(enc.len() as u64) + enc,
        forall|j: int|
            0 <= j < n ==> entry_off(ix, j) == entry_off(old_ix, j) && entry_pos(ix, j)
                == entry_pos(old_ix, j),
        entry_off(ix, n) == n,
        entry_pos(ix, n) == old_store.len(),
        decoded_offset(enc) == cur,
        enc.len() >= 8,
    ensures
        forall|i: int| 0 <= i < n + 1 ==> valid_entry(base, st, ix, i),
        forall|i: int|
            0 <= i < n ==> decoded_value(frame_payload(st, entry_pos(ix, i) as int))
                == decoded_value(frame_payload(old_store, entry_pos(old_ix, i) as int)),
        decoded_value(frame_payload(st, entry_pos(ix, n) as int)) == decoded_value(enc),
{
    let ext = u64_be(enc.len() as u64) + enc;
    assert(old_store + ext =~= st);
    lemma_new_frame(old_store, enc);
    assert(valid_entry(base, st, ix, n));
    assert forall|i: int| 0 <= i < n implies valid_entry(base, st, ix, i) by {
        lemma_entry_preserved(base, old_store, old_ix, st, ix, i, ext);
    }
    assert forall|i: int|
        0 <= i < n implies decoded_value(frame_payload(st, entry_pos(ix, i) as int))
            == decoded_value(frame_payload(old_store, entry_pos(old_ix, i) as int)) by {
        lemma_entry_preserved(base, old_store, old_ix, st, ix, i, ext);
    }
}

/// One segment of the log.
pub struct Segment {
    pub store: StoreInner,
    pub index: Index,
    pub base_offset: u64,
    pub next_offset: u64,
    pub config: Config,
}

impl Segment {
    /// Number of records held.
    pub open spec fn count(self) -> int {
        self.index.entries()
    }

    /// The segment is well formed: the index is well formed, the next
    /// offset is the base plus the record count, and every index
    /// entry describes its record.
    pub open spec fn wf(self) -> bool {
        &&& self.index.wf()
        &&& self.base_offset + self.count() <= u64::MAX
        &&& self.next_offset == self.base_offset + self.count()
        &&& forall|i: int|
            0 <= i < self.count() ==> valid_entry(
                self.base_offset,
                self.store.data@,
                self.index.data@,
                i,
            )
    }

    /// The record values held, in offset order: the record at global
    /// offset `base_offset + i` has value `records()[i]`.
    pub open spec fn records(self) -> Seq<Seq<u8>> {
        Seq::new(
            self.count() as nat,
            |i: int| decoded_value(frame_payload(self.store.data@, entry_pos(self.index.data@, i) as int)),
        )
    }

    /// The segment can take no further append: its store or its index
    /// has reached the configured capacity.
    pub open spec fn spec_is_maxed(self) -> bool {
        self.store.data@.len() >= self.config.segment.max_store_bytes || self.index.size
            >= self.config.segment.max_index_bytes
    }

    /// Stamps `record` with the next global offset, appends its
    /// encoding to the store and one entry to the index, and returns
    /// the assigned offset.  Fails without change when the index is
    /// full.
    #[verifier::rlimit(30)]
    pub fn append(&mut self, record: Record) -> (res: Result<u64, LogError>)
        requires
            old(self).wf(),
            old(self).next_offset < u64::MAX,
            old(self).next_offset - old(self).base_offset <= u32::MAX,
            old(self).store.data@.len() + 16 + record.value@.len() <= u64::MAX,
        ensures
            res is Ok <==> old(self).index.size + 12 <= old(self).index.data@.len(),
            res matches Err(e) ==> e == LogError::Capacity && *final(self) == *old(self),
            res is Ok ==> {
                &&& final(self).wf()
                &&& res matches Ok(off) && off == old(self).next_offset
                &&& final(self).base_offset == old(self).base_offset
                &&& final(self).next_offset == old(self).next_offset + 1
                &&& final(self).config == old(self).config
                &&& final(self).count() == old(self).count() + 1
                &&& final(self).records() == old(self).records().push(record.value@)
                &&& final(self).index.size == old(self).index.size + 12
                &&& final(self).index.data@.len() == old(self).index.data@.len()
                &&& final(self).store.data@.len() == old(self).store.data@.len() + 16
                    + record.value@.len()
            },
    {
        if self.index.data.len() < ENT_WIDTH || self.index.size > self.index.data.len()
            - ENT_WIDTH {
            return Err(LogError::Capacity);
        }
        let ghost n = self.count();
        let ghost old_store = self.store.data@;
        let ghost old_ix = self.index.data@;
        let cur = self.next_offset;
        let mut record = record;
        record.set_offset(cur);
        let ghost rec = record;
        let enc = encode_record(&record);
        let ghost encv = enc@;
        proof {
            lemma_record_round_trip(rec);
        }
        let pos = match self.store.append(enc) {
            Ok(r) => r.1,
            Err(e) => {
                return Err(e);
            },
        };
        let rel = (cur - self.base_offset) as u32;
        match self.index.write(rel, pos) {
            Ok(()) => (),
            Err(e) => {
                return Err(e);
            },
        }
        self.next_offset = cur + 1;
        proof {
            let st = self.store.data@;
            let ix = self.index.data@;
            lemma_u64_be_len(encv.len() as u64);
            assert(entry_off(ix, n) == n);
            lemma_append_effect(self.base_offset, old_store, old_ix, st, ix, n, encv, cur);
            assert(self.wf());
            assert(self.records() =~= old(self).records().push(rec.value@));
        }
        Ok(cur)
    }

    /// Reads back the record at global offset `off`.  Fails when the
    /// offset lies outside `[base_offset, next_offset)`.
    pub fn read(&self, off: u64) -> (res: Result<Record, LogError>)
        requires
            self.wf(),
        ensures
            self.base_offset <= off < self.next_offset ==> (res matches Ok(r) && r.offset == off
                && r.value@ == self.records()[off - self.base_offset]),
            !(self.base_offset <= off < self.next_offset) ==> (res matches Err(e) && e
                == LogError::EndOfFile),
    {
        if off < self.base_offset || off >= self.next_offset {
            return Err(LogError::EndOfFile);
        }
        let rel = off - self.base_offset;
        proof {
            assert(valid_entry(self.base_offset, self.store.data@, self.index.data@, rel as int));
        }
        let en = match self.index.read(rel as i64) {
            Ok(en) => en,
            Err(e) => {
                return Err(e);
            },
        };
        let payload = match self.store.read(en.1) {
            Ok(p) => p,
            Err(e) => {
                return Err(e);
            },
        };
        let rec = match decode_record(&payload) {
            Ok(r) => r,
            Err(e) => {
                return Err(e);
            },
        };
        Ok(rec)
    }

    /// Whether the segment must be rotated out: its store or its
    /// index has reached the configured capacity.
    pub fn is_maxed(&self) -> (r: bool)
        ensures
            r == self.spec_is_maxed(),
    {
        self.store.size() >= self.config.segment.max_store_bytes || self.index.size as u64
            >= self.config.segment.max_index_bytes
    }

    /// Flushes index and store to durable storage; the in-memory
    /// images are unchanged.
    pub fn close(&mut self)
        ensures
            *final(self) == *old(self),
    {
        self.index.close();
        self.store.close();
    }

    /// Retires the segment, handing back the names of its index and
    /// store files so the caller can delete them from disk.
    pub fn remove(self) -> (names: (String, String))
        ensures
            names.0@ == self.index.path@,
            names.1@ == self.store.path@,
    {
        let mut s = self;
        s.close();
        (s.index.path, s.store.path)
    }
}

/// Creates a fresh, empty segment based at `base_offset`, with the
/// given backing-file names.
pub fn new_segment(store_path: String, index_path: String, base_offset: u64, config: &Config) -> (res:
    Result<Segment, LogError>)
    requires
        config.segment.max_index_bytes <= usize::MAX,
    ensures
        res matches Ok(s) ==> {
            &&& s.wf()
            &&& s.base_offset == base_offset
            &&& s.next_offset == base_offset
            &&& s.count() == 0
            &&& s.records() == Seq::<Seq<u8>>::empty()
            &&& s.config == *config
            &&& s.store.data@ == Seq::<u8>::empty()
            &&& s.index.size == 0
            &&& s.index.data@.len() == config.segment.max_index_bytes
            &&& s.store.path@ == store_path@
            &&& s.index.path@ == index_path@
            &&& !s.spec_is_maxed() || config.segment.max_store_bytes == 0
                || config.segment.max_index_bytes == 0
        },
        res is Ok,
{
    let store = new_store(store_path, Vec::new());
    let index = match new_index(index_path, Vec::new(), config) {
        Ok(ix) => ix,
        Err(e) => {
            return Err(e);
        },
    };
    let s = Segment { store, index, base_offset, next_offset: base_offset, config: *config };
    proof {
        assert(s.records() =~= Seq::<Seq<u8>>::empty());
    }
    Ok(s)
}

/// Reopens a segment from the images of its backing files: the whole
/// store file and the used bytes of the index file.  The recovered
/// `next_offset` is the base plus the number of index entries.  Fails
/// when the images are not a consistent segment.
pub fn open_segment(
    store_path: String,
    index_path: String,
    base_offset: u64,
    store_data: &Vec<u8>,
    index_used: &Vec<u8>,
    config: &Config,
) -> (res: Result<Segment, LogError>)
    requires
        config.segment.max_index_bytes <= usize::MAX,
    ensures
        res is Ok <==> valid_segment_data(base_offset, store_data@, index_used@, *config),
        res matches Err(e) ==> e == LogError::IOFault,
        res matches Ok(s) ==> {
            &&& s.wf()
            &&& s.base_offset == base_offset
            &&& s.next_offset == base_offset + index_used@.len() / 12
            &&& s.count() == index_used@.len() / 12
            &&& s.config == *config
            &&& s.store.data@ == store_data@
            &&& s.index.size == index_used@.len()
            &&& s.index.data@.len() == config.segment.max_index_bytes
            &&& s.index.data@.subrange(0, s.index.size as int) == index_used@
            &&& s.records() == records_of(store_data@, index_used@)
            &&& s.store.path@ == store_path@
            &&& s.index.path@ == index_path@
        },
{
    let ghost ixv = index_used@;
    let ghost sdv = store_data@;
    let sd = bytes_range(store_data, 0, store_data.len());
    proof {
        assert(sd@ =~= sdv);
    }
    let store = new_store(store_path, sd);
    let iu = bytes_range(index_used, 0, index_used.len());
    proof {
        assert(iu@ =~= ixv);
    }
    let index = match new_index(index_path, iu, config) {
        Ok(ix) => ix,
        Err(e) => {
            return Err(e);
        },
    };
    let n_entries = index.size / ENT_WIDTH;
    proof {
        assert(12 * (index.size as int / 12) == index.size as int);
    }
    if (n_entries as u64) > u64::MAX - base_offset {
        return Err(LogError::IOFault);
    }
    let mut i: usize = 0;
    while i < n_entries
        invariant
            sdv == store_data@,
            ixv == index_used@,
            store.data@ == sdv,
            index.wf(),
            index.size == ixv.len(),
            index.size as int / 12 == n_entries,
            index.data@.subrange(0, index.size as int) == ixv,
            i <= n_entries,
            base_offset + n_entries <= u64::MAX,
            forall|j: int|
                0 <= j < i ==> valid_entry(base_offset, store.data@, index.data@, j),
        decreases n_entries - i,
    {
        proof {
            assert(12 * (index.size as int / 12) == index.size as int);
        }
        if i > u32::MAX as usize {
            proof {
                assert(entry_off(index.data@, i as int) < i);
                assert(!valid_entry(base_offset, store.data@, index.data@, i as int));
                lemma_entry_in_prefix(index.data@, ixv, i as int);
                assert(!valid_entry(base_offset, sdv, ixv, i as int));
                assert(!valid_segment_data(base_offset, sdv, ixv, *config));
            }
            return Err(LogError::IOFault);
        }
        let en = match index.read(i as i64) {
            Ok(en) => en,
            Err(e) => {
                return Err(LogError::IOFault);
            },
        };
        let ghost p = entry_pos(index.data@, i as int) as int;
        if (en.0 as usize) != i {
            proof {
                assert(!valid_entry(base_offset, store.data@, index.data@, i as int));
                lemma_entry_in_prefix(index.data@, ixv, i as int);
                assert(!valid_entry(base_offset, sdv, ixv, i as int));
                assert(!valid_segment_data(base_offset, sdv, ixv, *config));
            }
            return Err(LogError::IOFault);
        }
        let payload = match store.read(en.1) {
            Ok(p) => p,
            Err(_) => {
                proof {
                    assert(!frame_fits(store.data@, en.1 as int));
                    lemma_entry_in_prefix(index.data@, ixv, i as int);
                    assert(entry_pos(ixv, i as int) == en.1);
                    assert(store.data@ == sdv);
                    assert(!frame_fits(sdv, entry_pos(ixv, i as int) as int));
                    assert(!valid_entry(base_offset, sdv, ixv, i as int));
                    assert(!valid_segment_data(base_offset, sdv, ixv, *config));
                }
                return Err(LogError::IOFault);
            },
        };
        if payload.len() < 8 {
            proof {
                assert(payload@ == frame_payload(store.data@, en.1 as int));
                lemma_entry_in_prefix(index.data@, ixv, i as int);
                assert(entry_pos(ixv, i as int) == en.1);
                assert(store.data@ == sdv);
                assert(frame_payload(sdv, entry_pos(ixv, i as int) as int).len() < 8);
                assert(!valid_entry(base_offset, sdv, ixv, i as int));
                assert(!valid_segment_data(base_offset, sdv, ixv, *config));
            }
            return Err(LogError::IOFault);
        }
        let stamped = u64_be_at(&payload, 0);
        if stamped != base_offset + (i as u64) {
            proof {
                assert(payload@ == frame_payload(store.data@, p));
                assert(frame_payload(store.data@, p).subrange(0, 8) =~= payload@.subrange(0, 8));
                assert(decoded_offset(frame_payload(store.data@, p)) == stamped);
                lemma_entry_in_prefix(index.data@, ixv, i as int);
                assert(entry_pos(ixv, i as int) == en.1);
                assert(store.data@ == sdv);
                assert(decoded_offset(frame_payload(sdv, entry_pos(ixv, i as int) as int)) == stamped);
                assert(!valid_entry(base_offset, sdv, ixv, i as int));
                assert(!valid_segment_data(base_offset, sdv, ixv, *config));
            }
            return Err(LogError::IOFault);
        }
        proof {
            assert(frame_payload(store.data@, p).subrange(0, 8) =~= payload@.subrange(0, 8));
            assert(valid_entry(base_offset, store.data@, index.data@, i as int));
        }
        i = i + 1;
    }
    let next_offset = base_offset + (n_entries as u64);
    let s = Segment { store, index, base_offset, next_offset, config: *config };
    proof {
        assert forall|j: int| 0 <= j < n_entries implies valid_entry(
            base_offset,
            s.store.data@,
            ixv,
            j,
        ) && entry_pos(s.index.data@, j) == entry_pos(ixv, j) by {
            assert(12 * (s.index.size as int / 12) == s.index.size as int);
            assert(valid_entry(base_offset, s.store.data@, s.index.data@, j));
            lemma_entry_in_prefix(s.index.data@, ixv, j);
        }
        assert(s.wf());
        assert(s.records() =~= records_of(s.store.data@, ixv));
        assert(store.data@ == sdv);
        assert(ixv.len() % 12 == 0 && ixv.len() <= config.segment.max_index_bytes);
        assert(base_offset + ixv.len() / 12 <= u64::MAX);
        assert forall|j: int| 0 <= j < ixv.len() / 12 implies valid_entry(
            base_offset,
            sdv,
            ixv,
            j,
        ) by {
            assert(12 * (s.index.size as int / 12) == s.index.size as int);
            assert(valid_entry(base_offset, s.store.data@, s.index.data@, j));
            lemma_entry_in_prefix(s.index.data@, ixv, j);
            assert(s.store.data@ == sdv);
        }
        assert(valid_segment_data(base_offset, sdv, ixv, *config));
    }
    Ok(s)
}


/// What a well-formed segment persists — its store bytes and the
/// used bytes of its index — is a consistent segment image, and
/// rebuilding from it recovers the same records.
pub proof fn lemma_segment_persists(s: Segment)
    requires
        s.wf(),
        s.index.data@.len() == s.config.segment.max_index_bytes,
    ensures
        valid_segment_data(
            s.base_offset,
            s.store.data@,
            s.index.data@.subrange(0, s.index.size as int),
            s.config,
        ),
        s.index.size as int / 12 == s.count(),
        s.records() == records_of(s.store.data@, s.index.data@.subrange(0, s.index.size as int)),
{
    let pr = s.index.data@.subrange(0, s.index.size as int);
    assert(pr.len() == s.index.size);
    assert(12 * (s.index.size as int / 12) == s.index.size as int);
    assert(s.index.data@.subrange(0, pr.len() as int) == pr);
    assert forall|i: int|
        0 <= i < pr.len() / 12 implies valid_entry(s.base_offset, s.store.data@, pr, i) by {
        assert(valid_entry(s.base_offset, s.store.data@, s.index.data@, i));
        lemma_entry_in_prefix(s.index.data@, pr, i);
    }
    assert forall|i: int|
        0 <= i < pr.len() / 12 implies entry_pos(pr, i) == #[trigger] entry_pos(
            s.index.data@,
            i,
        ) by {
        lemma_entry_in_prefix(s.index.data@, pr, i);
    }
    assert(s.records() =~= records_of(s.store.data@, pr));
    assert(valid_segment_data(s.base_offset, s.store.data@, pr, s.config));
}

} // verus!
