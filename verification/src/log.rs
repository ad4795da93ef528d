//! The log: an ordered collection of segments keyed by ascending
//! base offset.
//!
//! Appends go to the active segment — always the last one — and a
//! fresh segment is created when the active one reaches a size limit.
//! Reads are routed to the segment whose offset range contains the
//! requested offset.  Whole segments at or below a given offset can
//! be truncated away.

use vstd::prelude::*;

use crate::config::Config;
use crate::error::LogError;
use crate::record::Record;
use crate::segment::{
    lemma_segment_persists, new_segment, open_segment, records_of, valid_segment_data, Segment,
};

verus! {

/// Images of the backing files of one segment found in a log
/// directory: its base offset (the numeric stem of the file names),
/// the whole store file, and the used bytes of the index file.
pub struct SegmentSource {
    pub base_offset: u64,
    pub store_data: Vec<u8>,
    pub index_data: Vec<u8>,
    pub store_path: String,
    pub index_path: String,
}

/// Whether global offset `o` falls in the range a segment covers.
pub open spec fn in_range(s: Segment, o: u64) -> bool {
    s.base_offset <= o < s.next_offset
}

/// The segments are each well formed and ranges are contiguous: each
/// segment begins where the previous one ends.
pub open spec fn chained(segs: Seq<Segment>) -> bool {
    &&& forall|i: int| 0 <= i < segs.len() ==> (#[trigger] segs[i]).wf()
    &&& forall|i: int|
        0 <= i < segs.len() - 1 ==> (#[trigger] segs[i + 1].base_offset) == segs[i].next_offset
}

/// The value readable at global offset `o`, routed to the first
/// segment whose range contains `o`.
pub open spec fn value_at_from(segs: Seq<Segment>, o: u64) -> Option<Seq<u8>>
    decreases segs.len(),
{
    if segs.len() == 0 {
        None
    } else if in_range(segs[0], o) {
        Some(segs[0].records()[o - segs[0].base_offset])
    } else {
        value_at_from(segs.skip(1), o)
    }
}

/// When the first segment does not contain `o`, routing skips it.
pub proof fn lemma_value_at_step(segs: Seq<Segment>, k: int, o: u64)
    requires
        0 <= k < segs.len(),
        !in_range(segs[k], o),
    ensures
        value_at_from(segs.skip(k), o) == value_at_from(segs.skip(k + 1), o),
{
    assert(segs.skip(k)[0] == segs[k]);
    assert(segs.skip(k).skip(1) =~= segs.skip(k + 1));
}

/// Routing finds a value exactly when the offset lies in the log's
/// overall range `[first base, last next)`.
pub proof fn lemma_value_at_range(segs: Seq<Segment>, o: u64)
    requires
        chained(segs),
    ensures
        segs.len() > 0 ==> (value_at_from(segs, o) is Some <==> segs[0].base_offset <= o
            < segs[segs.len() - 1].next_offset),
        segs.len() == 0 ==> value_at_from(segs, o) is None,
    decreases segs.len(),
{
    if segs.len() > 0 {
        assert(segs[0].wf());
        if in_range(segs[0], o) {
            assert forall|i: int| 0 <= i < segs.len() implies (#[trigger] segs[i]).next_offset
                >= segs[0].next_offset by {
                lemma_next_monotonic(segs, 0, i);
            }
        } else {
            let tail = segs.skip(1);
            assert(chained(tail)) by {
                assert(forall|i: int| 0 <= i < tail.len() ==> tail[i] == segs[i + 1]);
            }
            lemma_value_at_range(tail, o);
            if tail.len() > 0 {
                assert(tail[0].base_offset == segs[0].next_offset);
                assert(tail[tail.len() - 1] == segs[segs.len() - 1]);
            }
        }
    }
}

/// Along the chain, `next_offset` never decreases.
pub proof fn lemma_next_monotonic(segs: Seq<Segment>, i: int, j: int)
    requires
        chained(segs),
        0 <= i <= j < segs.len(),
    ensures
        segs[i].next_offset <= segs[j].next_offset,
    decreases j - i,
{
    if i < j {
        assert(segs[i + 1].wf());
        assert(segs[i + 1].base_offset == segs[i].next_offset);
        lemma_next_monotonic(segs, i + 1, j);
    }
}

/// The log.
pub struct LogInner {
    /// The directory that holds the segments' backing files.
    pub dir: String,
    pub config: Config,
    /// Ascending by base offset; the last segment is the active one.
    pub segments: Vec<Segment>,
}

impl LogInner {
    /// The active segment: the last one.
    pub open spec fn active(self) -> Segment {
        self.segments@[self.segments@.len() - 1]
    }

    /// Base offset of the first segment.
    pub open spec fn lowest(self) -> u64 {
        self.segments@[0].base_offset
    }

    /// The next offset the log will assign.
    pub open spec fn next(self) -> u64 {
        self.active().next_offset
    }

    /// The value readable at global offset `o`, if any.
    pub open spec fn value_at(self, o: u64) -> Option<Seq<u8>> {
        value_at_from(self.segments@, o)
    }

    /// The log is well formed: it has at least one segment, the
    /// segments are well formed and contiguous, and all share the
    /// log's config.
    pub open spec fn wf(self) -> bool {
        &&& self.segments@.len() > 0
        &&& chained(self.segments@)
        &&& forall|i: int|
            0 <= i < self.segments@.len() ==> (#[trigger] self.segments@[i]).config == self.config
        &&& forall|i: int|
            0 <= i < self.segments@.len() ==> (#[trigger] self.segments@[i]).index.data@.len()
                == self.config.segment.max_index_bytes
    }

    /// Appends `record` to the active segment, stamping it with the
    /// next offset, and returns that offset.  If the active segment
    /// then reaches a size limit, a fresh segment based one past the
    /// assigned offset becomes active.  Fails without change when the
    /// active segment's index is full.
    pub fn append(&mut self, record: Record) -> (res: Result<u64, LogError>)
        requires
            old(self).wf(),
            old(self).next() < u64::MAX,
            old(self).next() - old(self).active().base_offset <= u32::MAX,
            old(self).active().store.data@.len() + 16 + record.value@.len() <= u64::MAX,
            old(self).config.segment.max_index_bytes <= usize::MAX,
        ensures
            res is Ok <==> old(self).active().index.size + 12 <= old(
                self,
            ).active().index.data@.len(),
            res matches Err(e) ==> e == LogError::Capacity && final(self).segments@ == old(
                self,
            ).segments@ && final(self).config == old(self).config && final(self).dir == old(
                self,
            ).dir,
            res matches Ok(off) ==> {
                &&& off == old(self).next()
                &&& final(self).wf()
                &&& final(self).next() == old(self).next() + 1
                &&& final(self).lowest() == old(self).lowest()
                &&& final(self).config == old(self).config
                &&& final(self).dir == old(self).dir
                &&& final(self).value_at(off) == Some(record.value@)
                &&& forall|o: u64| o != off ==> final(self).value_at(o) == old(self).value_at(o)
                &&& final(self).segments@.len() == old(self).segments@.len() + (
                if spec_rotates(old(self).active(), record.value@.len(), old(self).config) {
                    1int
                } else {
                    0int
                })
                &&& (spec_rotates(old(self).active(), record.value@.len(), old(self).config)
                    ==> final(self).active().base_offset == off + 1 && final(self).active().count()
                    == 0 && final(self).active().store.data@.len() == 0
                    && final(self).active().index.size == 0)
                &&& forall|i: int|
                    0 <= i < old(self).segments@.len() - 1 ==> final(self).segments@[i] == old(
                        self,
                    ).segments@[i]
                &&& ({
                    let li = old(self).segments@.len() - 1;
                    &&& final(self).segments@[li].base_offset == old(self).active().base_offset
                    &&& final(self).segments@[li].next_offset == old(self).active().next_offset
                        + 1
                    &&& final(self).segments@[li].count() == old(self).active().count() + 1
                    &&& final(self).segments@[li].index.size == old(self).active().index.size
                        + 12
                    &&& final(self).segments@[li].index.data@.len() == old(
                        self,
                    ).active().index.data@.len()
                    &&& final(self).segments@[li].store.data@.len() == old(
                        self,
                    ).active().store.data@.len() + 16 + record.value@.len()
                })
            },
    {
        let n = self.segments.len();
        let ghost old_segs = self.segments@;
        let ghost old_active = old(self).active();
        let ghost vval = record.value@;
        let ghost vlen = record.value@.len();
        let res = self.segments[n - 1].append(record);
        let off = match res {
            Ok(off) => off,
            Err(e) => {
                proof {
                    assert(self.segments@ =~= old_segs);
                }
                return Err(e);
            },
        };
        let maxed = self.segments[n - 1].is_maxed();
        let ghost seg2 = self.segments@[n - 1];
        proof {
            let s = old_segs[n - 1];
            assert(self.segments@ =~= old_segs.update(n - 1, seg2));
            assert(chained(self.segments@)) by {
                assert(forall|i: int| 0 <= i < n - 1 ==> self.segments@[i] == old_segs[i]);
            }
            assert(seg2.records() == s.records().push(vval));
            assert(forall|j: int| 0 <= j < s.count() ==> seg2.records()[j] == s.records()[j]);
            lemma_append_split(old_segs, self.segments@, seg2, off);
            assert(seg2.records()[off - seg2.base_offset] == vval);
            assert(self.wf());
            assert(maxed == spec_rotates(old_active, vlen, self.config));
            if n > 1 {
                assert(self.segments@[0] == old_segs[0]);
            }
        }
        if maxed {
            let ghost segs2 = self.segments@;
            let fresh = match new_segment(String::new(), String::new(), off + 1, &self.config) {
                Ok(s) => s,
                Err(e) => {
                    return Err(e);
                },
            };
            self.segments.push(fresh);
            proof {
                assert(self.segments@ =~= segs2.push(fresh));
                lemma_value_at_push_empty(segs2, fresh);
                assert(chained(self.segments@)) by {
                    assert(forall|i: int|
                        0 <= i < segs2.len() ==> self.segments@[i] == segs2[i]);
                    assert(self.segments@[segs2.len() as int] == fresh);
                }
                assert(self.wf());
                assert(self.segments@[0] == segs2[0]);
                assert(self.segments@[n - 1] == seg2);
                assert(forall|i: int| 0 <= i < n - 1 ==> self.segments@[i] == old_segs[i]);
            }
        }
        Ok(off)
    }

    /// Reads back the record at global offset `off`, routed to the
    /// segment whose range contains it.  Fails with `NotFound` when
    /// no segment's range does.
    pub fn read(&self, off: u64) -> (res: Result<Record, LogError>)
        requires
            self.wf(),
        ensures
            self.value_at(off) matches Some(v) ==> (res matches Ok(r) && r.offset == off
                && r.value@ == v),
            self.value_at(off) is None ==> (res matches Err(e) && e == LogError::NotFound),
            res is Ok <==> self.lowest() <= off < self.next(),
    {
        proof {
            lemma_value_at_range(self.segments@, off);
            assert(self.segments@.skip(0) =~= self.segments@);
        }
        let n = self.segments.len();
        let mut i: usize = 0;
        while i < n
            invariant
                self.wf(),
                n == self.segments@.len(),
                i <= n,
                value_at_from(self.segments@.skip(i as int), off) == self.value_at(off),
            decreases n - i,
        {
            let base = self.segments[i].base_offset;
            let next = self.segments[i].next_offset;
            if base <= off && off < next {
                proof {
                    assert(self.segments@.skip(i as int)[0] == self.segments@[i as int]);
                    assert(self.segments@[i as int].wf());
                    assert(in_range(self.segments@[i as int], off));
                    assert(self.value_at(off) == Some(
                        self.segments@[i as int].records()[off - self.segments@[i as int].base_offset],
                    ));
                    lemma_value_at_range(self.segments@, off);
                }
                let res = self.segments[i].read(off);
                return res;
            }
            proof {
                lemma_value_at_step(self.segments@, i as int, off);
            }
            i = i + 1;
        }
        proof {
            assert(self.segments@.skip(n as int) =~= Seq::<Segment>::empty());
        }
        Err(LogError::NotFound)
    }


    /// Creates a fresh segment at `off` and makes it active.  Sound
    /// only at the log's next offset, which is where rotation places
    /// it.
    pub fn new_segment(&mut self, off: u64) -> (res: Result<(), LogError>)
        requires
            old(self).wf(),
            off == old(self).next(),
            old(self).config.segment.max_index_bytes <= usize::MAX,
        ensures
            res is Ok,
            final(self).wf(),
            final(self).segments@.len() == old(self).segments@.len() + 1,
            final(self).active().base_offset == off,
            final(self).active().count() == 0,
            final(self).active().store.data@.len() == 0,
            final(self).active().index.size == 0,
            final(self).next() == off,
            final(self).lowest() == old(self).lowest(),
            final(self).config == old(self).config,
            final(self).dir == old(self).dir,
            forall|i: int|
                0 <= i < old(self).segments@.len() ==> final(self).segments@[i] == old(
                    self,
                ).segments@[i],
            forall|o: u64| final(self).value_at(o) == old(self).value_at(o),
    {
        let ghost segs0 = self.segments@;
        let fresh = match new_segment(String::new(), String::new(), off, &self.config) {
            Ok(s) => s,
            Err(e) => {
                return Err(e);
            },
        };
        self.segments.push(fresh);
        proof {
            assert(self.segments@ =~= segs0.push(fresh));
            lemma_value_at_push_empty(segs0, fresh);
            assert(chained(self.segments@)) by {
                assert(forall|i: int| 0 <= i < segs0.len() ==> self.segments@[i] == segs0[i]);
                assert(self.segments@[segs0.len() as int] == fresh);
            }
            assert(self.wf());
            assert(self.segments@[0] == segs0[0]);
        }
        Ok(())
    }

    /// Flushes every segment to durable storage; nothing changes in
    /// the in-memory images.
    pub fn close(&mut self)
        ensures
            final(self).segments@ == old(self).segments@,
            final(self).config == old(self).config,
            final(self).dir == old(self).dir,
    {
        let n = self.segments.len();
        let mut i: usize = 0;
        while i < n
            invariant
                n == self.segments@.len(),
                i <= n,
                self.segments@ == old(self).segments@,
                self.config == old(self).config,
                self.dir == old(self).dir,
            decreases n - i,
        {
            self.segments[i].close();
            proof {
                assert(self.segments@ =~= old(self).segments@);
            }
            i = i + 1;
        }
    }

    /// Retires the whole log: closes every segment and drops them
    /// all.  The caller deletes the log's directory from disk.
    pub fn remove(&mut self)
        ensures
            final(self).segments@.len() == 0,
            final(self).config == old(self).config,
            final(self).dir == old(self).dir,
    {
        self.close();
        self.segments = Vec::new();
    }

    /// Removes everything and recreates the initial segment set, as
    /// if the directory had been opened empty.
    pub fn reset(&mut self)
        requires
            old(self).config.segment.max_index_bytes <= usize::MAX,
        ensures
            final(self).wf(),
            final(self).segments@.len() == 1,
            final(self).config == old(self).config,
            final(self).dir == old(self).dir,
            final(self).lowest() == old(self).config.segment.initial_offset,
            final(self).next() == old(self).config.segment.initial_offset,
            final(self).active().count() == 0,
            forall|o: u64| final(self).value_at(o) is None,
    {
        self.remove();
        let seg = match new_segment(
            String::new(),
            String::new(),
            self.config.segment.initial_offset,
            &self.config,
        ) {
            Ok(s) => s,
            Err(e) => {
                return ;
            },
        };
        self.segments.push(seg);
        proof {
            assert(self.segments@ =~= seq![seg]);
            assert forall|o: u64| self.value_at(o) is None by {
                lemma_value_at_range(self.segments@, o);
            }
        }
    }

    /// Base offset of the first segment: the lowest offset the log
    /// may still hold.
    pub fn lowest_offset(&self) -> (res: Result<u64, LogError>)
        requires
            self.wf(),
        ensures
            res == Ok::<u64, LogError>(self.lowest()),
    {
        Ok(self.segments[0].base_offset)
    }

    /// Highest offset assigned so far.  Fails only when the log has
    /// never taken a successful append, that is, when no offset at
    /// all has been assigned.
    pub fn highest_offset(&self) -> (res: Result<u64, LogError>)
        requires
            self.wf(),
        ensures
            self.next() > self.lowest() ==> res == Ok::<u64, LogError>((self.next() - 1) as u64),
            self.next() == self.lowest() ==> res == Err::<u64, LogError>(LogError::EndOfFile),
    {
        let n = self.segments.len();
        let next = self.segments[n - 1].next_offset;
        let base = self.segments[0].base_offset;
        proof {
            lemma_next_monotonic(self.segments@, 0, n - 1);
            assert(self.segments@[0].wf());
        }
        if next == base {
            Err(LogError::EndOfFile)
        } else {
            Ok(next - 1)
        }
    }

    /// Deletes every segment whose whole range lies at or below
    /// `lowest` and returns the removed segments' base offsets, from
    /// which the caller derives and deletes the backing files.
    /// Offsets above `lowest` remain readable unchanged.  When every
    /// segment goes, a fresh empty segment at the old next offset
    /// takes over, so no removed offset is ever assigned again.
    pub fn truncate(&mut self, lowest: u64) -> (removed: Vec<u64>)
        requires
            old(self).wf(),
            old(self).config.segment.max_index_bytes <= usize::MAX,
        ensures
            final(self).wf(),
            final(self).config == old(self).config,
            final(self).dir == old(self).dir,
            removed@.len() <= old(self).segments@.len(),
            forall|j: int|
                0 <= j < removed@.len() ==> removed@[j] == (#[trigger] old(
                    self,
                ).segments@[j]).base_offset && old(self).segments@[j].next_offset <= lowest + 1,
            removed@.len() < old(self).segments@.len() ==> final(self).segments@ == old(
                self,
            ).segments@.skip(removed@.len() as int) && old(self).segments@[removed@.len() as int].next_offset
                > lowest + 1,
            removed@.len() == old(self).segments@.len() ==> final(self).segments@.len() == 1
                && final(self).lowest() == old(self).next() && final(self).next() == old(
                self,
            ).next() && final(self).active().count() == 0,
            forall|o: u64| o > lowest ==> final(self).value_at(o) == old(self).value_at(o),
            forall|o: u64| o < final(self).lowest() ==> (final(self).value_at(o) is None),
    {
        let n0 = self.segments.len();
        let old_next = self.segments[n0 - 1].next_offset;
        let mut removed: Vec<u64> = Vec::new();
        let ghost old_segs = old(self).segments@;
        let ghost k: int = 0;
        loop
            invariant
                0 <= k <= old_segs.len(),
                removed@.len() == k,
                forall|j: int|
                    0 <= j < k ==> removed@[j] == (#[trigger] old_segs[j]).base_offset,
                self.segments@ =~= old_segs.skip(k),
                chained(old_segs),
                forall|i: int|
                    0 <= i < old_segs.len() ==> (#[trigger] old_segs[i]).config == old(
                        self,
                    ).config,
                forall|j: int|
                    0 <= j < k ==> (#[trigger] old_segs[j].next_offset) <= lowest + 1,
                self.config == old(self).config,
                self.dir == old(self).dir,
            ensures
                0 <= k <= old_segs.len(),
                removed@.len() == k,
                forall|j: int|
                    0 <= j < k ==> removed@[j] == (#[trigger] old_segs[j]).base_offset,
                self.segments@ =~= old_segs.skip(k),
                forall|j: int|
                    0 <= j < k ==> (#[trigger] old_segs[j].next_offset) <= lowest + 1,
                self.config == old(self).config,
                self.dir == old(self).dir,
                k == old_segs.len() || old_segs[k].next_offset > lowest + 1,
            decreases old_segs.len() - k,
        {
            if self.segments.len() == 0 {
                break ;
            }
            let next = self.segments[0].next_offset;
            if !(next == 0 || next - 1 <= lowest) {
                proof {
                    assert(old_segs.skip(k)[0] == old_segs[k]);
                    assert(old_segs[k].next_offset > lowest + 1);
                }
                break ;
            }
            let seg = self.segments.remove(0);
            removed.push(seg.base_offset);
            proof {
                assert(old_segs.skip(k)[0] == old_segs[k]);
                assert(old_segs.skip(k).skip(1) =~= old_segs.skip(k + 1));
                k = k + 1;
            }
        }
        if self.segments.len() == 0 {
            let fresh = match new_segment(String::new(), String::new(), old_next, &self.config) {
                Ok(s) => s,
                Err(e) => {
                    return removed;
                },
            };
            self.segments.push(fresh);
            proof {
                assert(k == old_segs.len());
                assert(old_segs[old_segs.len() - 1].next_offset == old_next);
                assert(self.segments@ =~= seq![fresh]);
                assert(self.wf());
                assert forall|o: u64| self.value_at(o) is None by {
                    lemma_value_at_range(self.segments@, o);
                }
                assert forall|o: u64| o > lowest implies self.value_at(o) == value_at_from(
                    old_segs,
                    o,
                ) by {
                    lemma_truncate_preserves(old_segs, old_segs.len() as int, lowest, o);
                    assert(old_segs.skip(old_segs.len() as int) =~= Seq::<Segment>::empty());
                }
            }
            return removed;
        }
        proof {
            let kk = k;
            assert(self.segments@ =~= old_segs.skip(kk));
            assert(self.segments@.len() == old_segs.len() - kk);
            assert(kk < old_segs.len());
            assert(old_segs.skip(kk)[0] == old_segs[kk]);
            assert forall|i: int|
                0 <= i < self.segments@.len() implies (#[trigger] self.segments@[i]).wf() by {
                assert(old_segs.skip(kk)[i] == old_segs[kk + i]);
                assert(old_segs[kk + i].wf());
            }
            assert forall|i: int|
                0 <= i < self.segments@.len() - 1 implies (#[trigger] self.segments@[i
                + 1].base_offset) == self.segments@[i].next_offset by {
                assert(old_segs.skip(kk)[i] == old_segs[kk + i]);
                assert(old_segs.skip(kk)[i + 1] == old_segs[kk + i + 1]);
                assert(old_segs[kk + i + 1].base_offset == old_segs[kk + i].next_offset);
            }
            assert forall|i: int|
                0 <= i < self.segments@.len() implies (#[trigger] self.segments@[i]).config
                == self.config by {
                assert(old_segs.skip(kk)[i] == old_segs[kk + i]);
                assert(old_segs[kk + i].config == old(self).config);
            }
            assert forall|i: int|
                0 <= i < self.segments@.len() implies (#[trigger] self.segments@[i]).index.data@.len()
                == self.config.segment.max_index_bytes by {
                assert(old_segs.skip(kk)[i] == old_segs[kk + i]);
                assert(old_segs[kk + i].index.data@.len()
                    == old(self).config.segment.max_index_bytes);
            }
            assert(self.wf());
            assert forall|o: u64| o > lowest implies self.value_at(o) == value_at_from(
                old_segs,
                o,
            ) by {
                lemma_truncate_preserves(old_segs, kk, lowest, o);
            }
            assert forall|o: u64| o < self.lowest() implies self.value_at(o) is None by {
                lemma_value_at_range(self.segments@, o);
            }
        }
        removed
    }
}


/// The backing-file images of one segment are a consistent segment.
pub open spec fn source_ok(src: SegmentSource, c: Config) -> bool {
    valid_segment_data(src.base_offset, src.store_data@, src.index_data@, c)
}

/// The next offset a segment reopened from `src` will recover.
pub open spec fn recovered_next(src: SegmentSource) -> int {
    src.base_offset + src.index_data@.len() / 12
}

/// The images found in a directory rebuild into a log: each segment
/// is consistent and each begins where the previous one ends.
pub open spec fn sources_ok(sources: Seq<SegmentSource>, c: Config) -> bool {
    &&& forall|i: int| 0 <= i < sources.len() ==> source_ok(#[trigger] sources[i], c)
    &&& forall|i: int|
        0 <= i < sources.len() - 1 ==> sources[i + 1].base_offset == #[trigger] recovered_next(
            sources[i],
        )
}

/// The segment `s` is what reopening the images `src` yields.
pub open spec fn rebuilt(s: Segment, src: SegmentSource, c: Config) -> bool {
    &&& s.wf()
    &&& s.base_offset == src.base_offset
    &&& s.store.path@ == src.store_path@
    &&& s.index.path@ == src.index_path@
    &&& s.store.data@ == src.store_data@
    &&& s.index.size == src.index_data@.len()
    &&& s.index.data@.len() == c.segment.max_index_bytes
    &&& s.index.data@.subrange(0, s.index.size as int) == src.index_data@
    &&& s.next_offset == recovered_next(src)
    &&& s.config == c
    &&& s.records() == records_of(src.store_data@, src.index_data@)
}

/// Reopens one segment per image, ascending, or creates a single
/// fresh segment at the configured initial offset when no images were
/// found.  Fails when the images are not a consistent, contiguous
/// segment chain.
pub fn create_segments(config: &Config, sources: &Vec<SegmentSource>) -> (res: Result<
    Vec<Segment>,
    LogError,
>)
    requires
        config.segment.max_index_bytes <= usize::MAX,
    ensures
        res is Ok <==> sources_ok(sources@, *config),
        res matches Err(e) ==> e == LogError::IOFault,
        res matches Ok(v) ==> {
            &&& v@.len() == if sources@.len() == 0 {
                1int
            } else {
                sources@.len() as int
            }
            &&& chained(v@)
            &&& forall|i: int| 0 <= i < v@.len() ==> (#[trigger] v@[i]).config == *config
            &&& forall|i: int|
                0 <= i < v@.len() ==> (#[trigger] v@[i]).index.data@.len()
                    == config.segment.max_index_bytes
            &&& (sources@.len() == 0 ==> v@[0].base_offset == config.segment.initial_offset
                && v@[0].count() == 0 && v@[0].store.data@.len() == 0 && v@[0].index.size == 0)
            &&& (forall|i: int|
                0 <= i < sources@.len() ==> rebuilt(#[trigger] v@[i], sources@[i], *config))
        },
{
    let mut segments: Vec<Segment> = Vec::new();
    let n = sources.len();
    if n == 0 {
        let seg = match new_segment(
            String::new(),
            String::new(),
            config.segment.initial_offset,
            config,
        ) {
            Ok(s) => s,
            Err(e) => {
                return Err(e);
            },
        };
        segments.push(seg);
        proof {
            assert(segments@ =~= seq![seg]);
        }
        return Ok(segments);
    }
    let mut i: usize = 0;
    while i < n
        invariant
            n == sources@.len(),
            i <= n,
            config.segment.max_index_bytes <= usize::MAX,
            segments@.len() == i,
            chained(segments@),
            forall|j: int| 0 <= j < i ==> rebuilt(#[trigger] segments@[j], sources@[j], *config),
            forall|j: int| 0 <= j < i ==> (#[trigger] segments@[j]).config == *config,
            forall|j: int|
                0 <= j < i ==> (#[trigger] segments@[j]).index.data@.len()
                    == config.segment.max_index_bytes,
            forall|j: int| 0 <= j < i ==> source_ok(#[trigger] sources@[j], *config),
            forall|j: int|
                0 <= j < i - 1 ==> sources@[j + 1].base_offset == #[trigger] recovered_next(
                    sources@[j],
                ),
        decreases n - i,
    {
        let src = &sources[i];
        let seg = match open_segment(
            src.store_path.clone(),
            src.index_path.clone(),
            src.base_offset,
            &src.store_data,
            &src.index_data,
            config,
        ) {
            Ok(s) => s,
            Err(_) => {
                proof {
                    assert(!valid_segment_data(
                        src.base_offset,
                        src.store_data@,
                        src.index_data@,
                        *config,
                    ));
                    assert(*src == sources@[i as int]);
                    assert(!source_ok(sources@[i as int], *config));
                    assert(!sources_ok(sources@, *config));
                }
                return Err(LogError::IOFault);
            },
        };
        if i > 0 {
            let prev_next = segments[i - 1].next_offset;
            if seg.base_offset != prev_next {
                proof {
                    assert(rebuilt(segments@[i - 1], sources@[i - 1], *config));
                    assert(*src == sources@[i as int]);
                    assert(seg.base_offset == sources@[i as int].base_offset);
                    assert(prev_next == segments@[i - 1].next_offset);
                    assert(recovered_next(sources@[i - 1]) == segments@[i - 1].next_offset);
                    assert(sources@[i as int].base_offset != recovered_next(
                        sources@[i - 1],
                    ));
                    assert(!sources_ok(sources@, *config));
                }
                return Err(LogError::IOFault);
            }
        }
        let ghost before = segments@;
        segments.push(seg);
        proof {
            assert(segments@ =~= before.push(seg));
            assert(forall|j: int| 0 <= j < i ==> segments@[j] == before[j]);
            assert(segments@[i as int] == seg);
            assert(chained(segments@)) by {
                if i > 0 {
                    assert(segments@[i as int].base_offset == segments@[i - 1].next_offset);
                }
            }
        }
        i = i + 1;
    }
    Ok(segments)
}

/// The log's configuration after zero size limits are replaced by
/// the 1024-byte default.
pub open spec fn spec_defaults(c: Config) -> Config {
    Config {
        segment: crate::config::Segment {
            max_store_bytes: if c.segment.max_store_bytes == 0 {
                1024u64
            } else {
                c.segment.max_store_bytes
            },
            max_index_bytes: if c.segment.max_index_bytes == 0 {
                1024u64
            } else {
                c.segment.max_index_bytes
            },
            initial_offset: c.segment.initial_offset,
        },
    }
}

/// Opens the log over the images found in `dir`: zero config limits
/// take their defaults, one segment is reopened per image in
/// ascending base-offset order, and with no images a single fresh
/// segment at the initial offset becomes active.
pub fn new_log(dir: String, config: Config, sources: Vec<SegmentSource>) -> (res: Result<
    LogInner,
    LogError,
>)
    requires
        config.segment.max_index_bytes <= usize::MAX,
    ensures
        res is Ok <==> sources_ok(sources@, spec_defaults(config)),
        res matches Err(e) ==> e == LogError::IOFault,
        res matches Ok(l) ==> {
            &&& l.wf()
            &&& l.dir@ == dir@
            &&& l.config == spec_defaults(config)
            &&& l.segments@.len() == if sources@.len() == 0 {
                1int
            } else {
                sources@.len() as int
            }
            &&& (sources@.len() == 0 ==> l.lowest() == spec_defaults(
                config,
            ).segment.initial_offset && l.next() == spec_defaults(config).segment.initial_offset
                && l.segments@[0].store.data@.len() == 0 && l.segments@[0].index.size == 0)
            &&& (forall|i: int|
                0 <= i < sources@.len() ==> rebuilt(
                    #[trigger] l.segments@[i],
                    sources@[i],
                    spec_defaults(config),
                ))
        },
{
    let mut c = config;
    if c.segment.max_store_bytes == 0 {
        c.segment.max_store_bytes = 1024;
    }
    if c.segment.max_index_bytes == 0 {
        c.segment.max_index_bytes = 1024;
    }
    proof {
        assert(c == spec_defaults(config));
    }
    let segments = match create_segments(&c, &sources) {
        Ok(v) => v,
        Err(e) => {
            return Err(e);
        },
    };
    let l = LogInner { dir, config: c, segments };
    proof {
        assert(l.wf());
    }
    Ok(l)
}


/// Two segment chains that agree position by position on base
/// offset, next offset and records route every offset to the same
/// value.
proof fn lemma_value_at_congruent(a: Seq<Segment>, b: Seq<Segment>, o: u64)
    requires
        a.len() == b.len(),
        forall|i: int|
            0 <= i < a.len() ==> (#[trigger] b[i]).base_offset == a[i].base_offset
                && b[i].next_offset == a[i].next_offset && b[i].records() == a[i].records(),
    ensures
        value_at_from(b, o) == value_at_from(a, o),
    decreases a.len(),
{
    if a.len() > 0 {
        assert(b[0].base_offset == a[0].base_offset);
        if in_range(a[0], o) {
        } else {
            let ta = a.skip(1);
            let tb = b.skip(1);
            assert forall|i: int|
                0 <= i < ta.len() implies (#[trigger] tb[i]).base_offset == ta[i].base_offset
                    && tb[i].next_offset == ta[i].next_offset && tb[i].records()
                    == ta[i].records() by {
                assert(ta[i] == a[i + 1]);
                assert(tb[i] == b[i + 1]);
                assert(b[i + 1].base_offset == a[i + 1].base_offset);
            }
            lemma_value_at_congruent(ta, tb, o);
        }
    }
}

/// Reopen recovery: persisting a well-formed log — each segment's
/// store bytes and the used bytes of its index — always yields
/// images the log can be reopened from, and the log rebuilt from
/// them has the same lowest and next offsets and the same readable
/// record at every offset.
pub proof fn lemma_reopen_recovery(l: LogInner, sources: Seq<SegmentSource>, l2: LogInner)
    requires
        l.wf(),
        sources.len() == l.segments@.len(),
        forall|i: int|
            0 <= i < sources.len() ==> (#[trigger] sources[i]).base_offset
                == l.segments@[i].base_offset && sources[i].store_data@
                == l.segments@[i].store.data@ && sources[i].index_data@
                == l.segments@[i].index.data@.subrange(0, l.segments@[i].index.size as int),
        l2.config == l.config,
        l2.segments@.len() == sources.len(),
        forall|i: int|
            0 <= i < sources.len() ==> rebuilt(#[trigger] l2.segments@[i], sources[i], l.config),
    ensures
        sources_ok(sources, l.config),
        l2.wf(),
        l2.lowest() == l.lowest(),
        l2.next() == l.next(),
        forall|o: u64| l2.value_at(o) == l.value_at(o),
{
    assert forall|i: int|
        0 <= i < sources.len() implies source_ok(#[trigger] sources[i], l.config) by {
        let s = l.segments@[i];
        assert(s.wf());
        lemma_segment_persists(s);
    }
    assert forall|i: int|
        0 <= i < sources.len() implies #[trigger] recovered_next(sources[i])
            == l.segments@[i].next_offset by {
        let s = l.segments@[i];
        assert(s.wf());
        lemma_segment_persists(s);
    }
    assert forall|i: int|
        0 <= i < sources.len() - 1 implies sources[i + 1].base_offset == #[trigger] recovered_next(
            sources[i],
        ) by {
        assert(l.segments@[i + 1].base_offset == l.segments@[i].next_offset);
        assert(sources[i + 1].base_offset == l.segments@[i + 1].base_offset);
    }
    assert forall|i: int|
        0 <= i < sources.len() implies (#[trigger] l2.segments@[i]).base_offset
            == l.segments@[i].base_offset && l2.segments@[i].next_offset
            == l.segments@[i].next_offset && l2.segments@[i].records()
            == l.segments@[i].records() by {
        let s = l.segments@[i];
        assert(s.wf());
        lemma_segment_persists(s);
        assert(rebuilt(l2.segments@[i], sources[i], l.config));
        assert(l2.segments@[i].records() == records_of(
            sources[i].store_data@,
            sources[i].index_data@,
        ));
    }
    assert(chained(l2.segments@)) by {
        assert forall|i: int|
            0 <= i < l2.segments@.len() implies (#[trigger] l2.segments@[i]).wf() by {
            assert(rebuilt(l2.segments@[i], sources[i], l.config));
        }
        assert forall|i: int|
            0 <= i < l2.segments@.len() - 1 implies (#[trigger] l2.segments@[i
            + 1].base_offset) == l2.segments@[i].next_offset by {
            assert(l2.segments@[i + 1].base_offset == l.segments@[i + 1].base_offset);
            assert(l.segments@[i + 1].base_offset == l.segments@[i].next_offset);
        }
    }
    assert forall|i: int|
        0 <= i < l2.segments@.len() implies (#[trigger] l2.segments@[i]).config
            == l2.config by {
        assert(rebuilt(l2.segments@[i], sources[i], l.config));
    }
    assert(l2.wf());
    assert forall|o: u64| l2.value_at(o) == l.value_at(o) by {
        lemma_value_at_congruent(l.segments@, l2.segments@, o);
    }
}

/// Whether appending a record with value length `vlen` pushes a
/// segment over one of its size limits, forcing rotation.
pub open spec fn spec_rotates(s: Segment, vlen: nat, c: Config) -> bool {
    s.store.data@.len() + 16 + vlen >= c.segment.max_store_bytes || s.index.size + 12
        >= c.segment.max_index_bytes
}

/// Skipping segments that end at or below `lowest` does not change
/// what is readable above `lowest`.
proof fn lemma_truncate_preserves(segs: Seq<Segment>, k: int, lowest: u64, o: u64)
    requires
        0 <= k <= segs.len(),
        forall|j: int| 0 <= j < k ==> (#[trigger] segs[j].next_offset) <= lowest + 1,
        o > lowest,
    ensures
        value_at_from(segs.skip(k), o) == value_at_from(segs, o),
    decreases k,
{
    if k > 0 {
        lemma_truncate_preserves(segs, k - 1, lowest, o);
        assert(segs[k - 1].next_offset <= lowest + 1);
        assert(!in_range(segs[k - 1], o));
        lemma_value_at_step(segs, k - 1, o);
    } else {
        assert(segs.skip(0) =~= segs);
    }
}

/// What each offset reads after the active (last) segment takes an
/// append: the stamped value at the assigned offset, everything else
/// unchanged.
proof fn lemma_append_split(old_segs: Seq<Segment>, segs2: Seq<Segment>, seg2: Segment, off: u64)
    requires
        old_segs.len() > 0,
        segs2 =~= old_segs.update(old_segs.len() - 1, seg2),
        chained(old_segs),
        chained(segs2),
        ({
            let s = old_segs[old_segs.len() - 1];
            &&& off == s.next_offset
            &&& seg2.base_offset == s.base_offset
            &&& seg2.next_offset == s.next_offset + 1
            &&& seg2.count() == s.count() + 1
            &&& s.wf()
            &&& seg2.wf()
            &&& forall|j: int| 0 <= j < s.count() ==> seg2.records()[j] == s.records()[j]
        }),
    ensures
        value_at_from(segs2, off) == Some(seg2.records()[off - seg2.base_offset]),
        forall|o: u64| o != off ==> value_at_from(segs2, o) == value_at_from(old_segs, o),
{
    let n = old_segs.len() as int;
    let s = old_segs[n - 1];
    assert forall|i: int| 0 <= i < n - 1 implies !in_range(old_segs[i], off) && !in_range(
        segs2[i],
        off,
    ) by {
        lemma_next_monotonic(old_segs, i, n - 1);
        assert(old_segs[i].wf());
        assert(old_segs[i].next_offset <= s.next_offset);
        assert(segs2[i] == old_segs[i]);
    }
    lemma_route_to_last(segs2, off);
    assert(in_range(seg2, off));
    assert(value_at_from(segs2.skip(n - 1), off) == Some(seg2.records()[off - seg2.base_offset]))
        by {
        assert(segs2.skip(n - 1)[0] == seg2);
    }
    assert forall|o: u64| o != off implies value_at_from(segs2, o) == value_at_from(
        old_segs,
        o,
    ) by {
        lemma_append_one_offset(old_segs, segs2, seg2, off, o);
    }
}

/// Routing reaches the last segment when no earlier one contains `o`.
proof fn lemma_route_to_last(segs: Seq<Segment>, o: u64)
    requires
        segs.len() > 0,
        forall|i: int| 0 <= i < segs.len() - 1 ==> !in_range(#[trigger] segs[i], o),
    ensures
        value_at_from(segs, o) == value_at_from(segs.skip(segs.len() - 1), o),
    decreases segs.len(),
{
    if segs.len() > 1 {
        lemma_value_at_step(segs, 0, o);
        let tail = segs.skip(1);
        assert(forall|i: int| 0 <= i < tail.len() - 1 ==> tail[i] == segs[i + 1]);
        lemma_route_to_last(tail, o);
        assert(tail.skip(tail.len() - 1) =~= segs.skip(segs.len() - 1));
    } else {
        assert(segs.skip(0) =~= segs);
    }
}

/// One offset other than the newly assigned one reads the same
/// before and after the append.
proof fn lemma_append_one_offset(
    old_segs: Seq<Segment>,
    segs2: Seq<Segment>,
    seg2: Segment,
    off: u64,
    o: u64,
)
    requires
        old_segs.len() > 0,
        segs2 =~= old_segs.update(old_segs.len() - 1, seg2),
        o != off,
        ({
            let s = old_segs[old_segs.len() - 1];
            &&& off == s.next_offset
            &&& seg2.base_offset == s.base_offset
            &&& seg2.next_offset == s.next_offset + 1
            &&& seg2.count() == s.count() + 1
            &&& s.wf()
            &&& seg2.wf()
            &&& forall|j: int| 0 <= j < s.count() ==> seg2.records()[j] == s.records()[j]
        }),
    ensures
        value_at_from(segs2, o) == value_at_from(old_segs, o),
    decreases old_segs.len(),
{
    let n = old_segs.len() as int;
    let s = old_segs[n - 1];
    if n == 1 {
        assert(segs2[0] == seg2);
        if in_range(seg2, o) {
            assert(in_range(s, o));
            assert(o - seg2.base_offset < s.count());
            assert(seg2.records()[o - seg2.base_offset] == s.records()[o - s.base_offset]);
        } else {
            assert(!in_range(s, o));
            assert(value_at_from(segs2.skip(1), o) is None) by {
                assert(segs2.skip(1) =~= Seq::<Segment>::empty());
            }
            assert(value_at_from(old_segs.skip(1), o) is None) by {
                assert(old_segs.skip(1) =~= Seq::<Segment>::empty());
            }
        }
    } else {
        assert(segs2[0] == old_segs[0]);
        if in_range(old_segs[0], o) {
        } else {
            let t1 = old_segs.skip(1);
            let t2 = segs2.skip(1);
            assert(t2 =~= t1.update(t1.len() - 1, seg2));
            assert(t1[t1.len() - 1] == s);
            lemma_append_one_offset(t1, t2, seg2, off, o);
        }
    }
}

/// The empty segment pushed at rotation holds no record, so routing
/// is unchanged for every offset.
proof fn lemma_value_at_push_empty(segs: Seq<Segment>, fresh: Segment)
    requires
        fresh.count() == 0,
        fresh.wf(),
    ensures
        forall|o: u64| value_at_from(segs.push(fresh), o) == value_at_from(segs, o),
    decreases segs.len(),
{
    assert forall|o: u64| value_at_from(segs.push(fresh), o) == value_at_from(segs, o) by {
        lemma_push_empty_one(segs, fresh, o);
    }
}

/// Helper for `lemma_value_at_push_empty`, one offset at a time.
proof fn lemma_push_empty_one(segs: Seq<Segment>, fresh: Segment, o: u64)
    requires
        fresh.count() == 0,
        fresh.wf(),
    ensures
        value_at_from(segs.push(fresh), o) == value_at_from(segs, o),
    decreases segs.len(),
{
    let p = segs.push(fresh);
    assert(p.len() == segs.len() + 1);
    if segs.len() == 0 {
        assert(p[0] == fresh);
        assert(fresh.next_offset == fresh.base_offset);
        assert(!in_range(fresh, o));
        assert(p.skip(1) =~= Seq::<Segment>::empty());
        assert(value_at_from(p, o) == value_at_from(p.skip(1), o));
        assert(value_at_from(p, o) is None);
    } else {
        assert(p[0] == segs[0]);
        if in_range(segs[0], o) {
            assert(value_at_from(p, o) == Some(p[0].records()[o - p[0].base_offset]));
            assert(value_at_from(segs, o) == Some(segs[0].records()[o - segs[0].base_offset]));
        } else {
            assert(p.skip(1) =~= segs.skip(1).push(fresh));
            lemma_push_empty_one(segs.skip(1), fresh, o);
            assert(value_at_from(p, o) == value_at_from(p.skip(1), o));
            assert(value_at_from(segs, o) == value_at_from(segs.skip(1), o));
        }
    }
}

} // verus!
