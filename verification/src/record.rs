//! The logical record and its wire encoding.
//!
//! A record is a byte payload stamped with the global offset the log
//! assigned to it.  Its wire form — used verbatim as a store frame's
//! payload — is the 8 big-endian bytes of the offset followed by the
//! value bytes.

use vstd::prelude::*;

use crate::buf::bytes_range;
use crate::endian::{be_to_u64, lemma_u64_be_len, lemma_u64_be_round_trip, push_u64_be, u64_be, u64_be_at};
use crate::error::LogError;

verus! {

/// One logical record: a byte payload and the global offset assigned
/// to it at append time.
#[derive(Clone, Debug, PartialEq, Eq)]
pub struct Record {
    pub value: Vec<u8>,
    pub offset: u64,
}

/// The offset stamped into an encoded record.
pub open spec fn decoded_offset(s: Seq<u8>) -> u64 {
    be_to_u64(s.subrange(0, 8))
}

/// The value bytes carried by an encoded record.
pub open spec fn decoded_value(s: Seq<u8>) -> Seq<u8> {
    s.skip(8)
}

impl Record {
    /// The wire encoding of this record.
    pub open spec fn encoding(self) -> Seq<u8> {
        u64_be(self.offset) + self.value@
    }

    /// A record with an empty value and offset zero, to be filled by
    /// the setters before appending.
    pub fn new() -> (r: Record)
        ensures
            r.value@ == Seq::<u8>::empty(),
            r.offset == 0,
    {
        Record { value: Vec::new(), offset: 0 }
    }

    pub fn set_value(&mut self, value: Vec<u8>)
        ensures
            final(self).value == value,
            final(self).offset == old(self).offset,
    {
        self.value = value;
    }

    pub fn set_offset(&mut self, offset: u64)
        ensures
            final(self).value == old(self).value,
            final(self).offset == offset,
    {
        self.offset = offset;
    }

    pub fn get_value(&self) -> (r: &Vec<u8>)
        ensures
            r == self.value,
    {
        &self.value
    }

    pub fn get_offset(&self) -> (r: u64)
        ensures
            r == self.offset,
    {
        self.offset
    }
}

/// Encodes `r` to its wire form.
pub fn encode_record(r: &Record) -> (out: Vec<u8>)
    ensures
        out@ == r.encoding(),
{
    let mut out: Vec<u8> = Vec::new();
    push_u64_be(&mut out, r.offset);
    proof {
        lemma_u64_be_len(r.offset);
        assert(out@ =~= u64_be(r.offset) + r.value@.subrange(0, 0));
    }
    let mut i: usize = 0;
    let n = r.value.len();
    while i < n
        invariant
            n == r.value@.len(),
            i <= n,
            out@ == u64_be(r.offset) + r.value@.subrange(0, i as int),
        decreases n - i,
    {
        out.push(r.value[i]);
        i = i + 1;
        proof {
            lemma_u64_be_len(r.offset);
            assert(out@ =~= u64_be(r.offset) + r.value@.subrange(0, i as int));
        }
    }
    proof {
        assert(r.value@.subrange(0, n as int) =~= r.value@);
    }
    out
}

/// Decodes a record from its wire form.  Fails when the bytes are too
/// short to carry the offset stamp.
pub fn decode_record(bytes: &Vec<u8>) -> (res: Result<Record, LogError>)
    ensures
        bytes@.len() >= 8 ==> (res matches Ok(r) && r.offset == decoded_offset(bytes@)
            && r.value@ == decoded_value(bytes@)),
        bytes@.len() < 8 ==> (res matches Err(e) && e == LogError::EndOfFile),
{
    if bytes.len() < 8 {
        return Err(LogError::EndOfFile);
    }
    let offset = u64_be_at(bytes, 0);
    let value = bytes_range(bytes, 8, bytes.len());
    proof {
        assert(bytes@.subrange(8, bytes@.len() as int) =~= decoded_value(bytes@));
    }
    Ok(Record { value, offset })
}

/// Decoding inverts encoding: for every record, the decoded offset and
/// value of its wire form are the record's own.
pub proof fn lemma_record_round_trip(r: Record)
    ensures
        r.encoding().len() == 8 + r.value@.len(),
        decoded_offset(r.encoding()) == r.offset,
        decoded_value(r.encoding()) == r.value@,
{
    lemma_u64_be_len(r.offset);
    assert(r.encoding().subrange(0, 8) =~= u64_be(r.offset));
    lemma_u64_be_round_trip(r.offset);
    assert(r.encoding().skip(8) =~= r.value@);
}

} // verus!
