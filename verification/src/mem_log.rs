//! A single-vector in-memory log, useful for smoke testing the
//! produce/consume surface without any storage stack behind it.
//! Offsets are simply positions in the vector.

use vstd::prelude::*;

use crate::error::LogError;
use crate::record::Record;

verus! {

/// The in-memory log: records in append order, record `i` stamped
/// with offset `i`.
pub struct MemLog {
    pub records: Vec<Record>,
}

impl MemLog {
    /// Every held record is stamped with its position.
    pub open spec fn wf(self) -> bool {
        forall|i: int| 0 <= i < self.records@.len() ==> (#[trigger] self.records@[i]).offset == i
    }
}

/// The produce/consume surface of the in-memory log.
pub trait Logger: Sized {
    spec fn entries(&self) -> Seq<Record>;

    spec fn inv(&self) -> bool;

    /// An empty log.
    fn create_empty() -> (l: Self)
        ensures
            l.entries().len() == 0,
            l.inv(),
    ;

    /// Appends `record`, stamping it with the next offset, and
    /// returns that offset.
    fn append(&mut self, record: Record) -> (off: u64)
        requires
            old(self).inv(),
            old(self).entries().len() < u64::MAX,
        ensures
            final(self).inv(),
            off == old(self).entries().len(),
            final(self).entries().len() == old(self).entries().len() + 1,
            final(self).entries()[off as int].value == record.value,
            final(self).entries()[off as int].offset == off,
            forall|i: int|
                0 <= i < old(self).entries().len() ==> final(self).entries()[i] == old(
                    self,
                ).entries()[i],
    ;

    /// Reads back the record at `offset`, or fails with `NotFound`
    /// when no record was appended there.
    fn read(&self, offset: u64) -> (res: Result<Record, LogError>)
        requires
            self.inv(),
        ensures
            offset < self.entries().len() ==> (res matches Ok(r) && r.value@
                == self.entries()[offset as int].value@ && r.offset
                == self.entries()[offset as int].offset),
            offset >= self.entries().len() ==> (res matches Err(e) && e == LogError::NotFound),
    ;
}

impl Logger for MemLog {
    open spec fn entries(&self) -> Seq<Record> {
        self.records@
    }

    open spec fn inv(&self) -> bool {
        self.wf()
    }

    fn create_empty() -> (l: Self) {
        MemLog { records: Vec::new() }
    }

    fn append(&mut self, record: Record) -> (off: u64) {
        let off = self.records.len() as u64;
        let mut record = record;
        record.set_offset(off);
        self.records.push(record);
        off
    }

    fn read(&self, offset: u64) -> (res: Result<Record, LogError>) {
        let n = self.records.len();
        if offset < n as u64 {
            let r = &self.records[offset as usize];
            Ok(Record { value: clone_bytes(&r.value), offset: r.offset })
        } else {
            Err(LogError::NotFound)
        }
    }
}

/// Copies a byte vector.
fn clone_bytes(v: &Vec<u8>) -> (r: Vec<u8>)
    ensures
        r@ == v@,
{
    let r = crate::buf::bytes_range(v, 0, v.len());
    proof {
        assert(v@.subrange(0, v@.len() as int) =~= v@);
    }
    r
}

} // verus!
