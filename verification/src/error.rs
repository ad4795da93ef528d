//! The error taxonomy of the commit log.

use vstd::prelude::*;

verus! {

/// A failure surfaced by the storage stack.
#[derive(Clone, Copy, Debug, PartialEq, Eq, Structural)]
pub enum LogError {
    /// A read ran past the written extent of a store or an index.
    EndOfFile,
    /// A requested global offset falls outside every known segment's range.
    NotFound,
    /// A write would exceed a fixed-capacity resource.
    Capacity,
    /// The backing data is malformed or an underlying operation failed.
    IOFault,
}

impl LogError {
    /// A short human-readable description of the failure.
    pub fn message(&self) -> (r: &'static str)
        ensures
            r@ == self.spec_message(),
    {
        match self {
            LogError::EndOfFile => "EOF",
            LogError::NotFound => "Record Not Found",
            LogError::Capacity => "Capacity Exceeded",
            LogError::IOFault => "I/O Fault",
        }
    }

    pub open spec fn spec_message(self) -> Seq<char> {
        match self {
            LogError::EndOfFile => "EOF"@,
            LogError::NotFound => "Record Not Found"@,
            LogError::Capacity => "Capacity Exceeded"@,
            LogError::IOFault => "I/O Fault"@,
        }
    }
}

} // verus!
