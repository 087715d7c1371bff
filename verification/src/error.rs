//! Error kinds yielded through the pull protocol.

use vstd::prelude::*;

verus! {

/// Everything a source or sequencer can report besides a document.
///
/// End of input is not an error: sources signal it by returning `None`
/// from their pull method. All failures travel inline through the same
/// pull protocol as ordinary values, never outside it.
#[derive(Debug)]
pub enum Error {
    /// A single line failed to parse (or was not valid UTF-8). The
    /// sequence continues with the next line.
    MalformedRecord(String),
    /// An open or read failure; fatal for the affected stream.
    IoFailure(String),
    /// The very first expected shard of a numbered family was absent.
    ShardNotFound(String),
    /// A directory held no plain files at all.
    EmptyInput(String),
    /// A leaf's value/definition/repetition arrays disagree in length:
    /// an internal defect, never caused by input.
    EncodingInvariantViolation,
    /// The configured sink schema disagrees with the document schema.
    SchemaMismatch,
}

impl Error {
    /// True iff this error kind isolates to one record, letting the
    /// enclosing sequence continue.
    pub fn is_per_record(&self) -> (r: bool)
        ensures
            r == (self is MalformedRecord),
    {
        match self {
            Error::MalformedRecord(_) => true,
            _ => false,
        }
    }
}

} // verus!
