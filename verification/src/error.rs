//! Error kinds of the cache store and of the journal driver.

use vstd::prelude::*;

verus! {

/// Failure kinds of the persistent cache store.
#[derive(Debug)]
pub enum CacheError {
    /// The on-disk index or a data record is malformed.
    Corrupt,
    /// The index header does not carry the expected magic or version.
    FormatMismatch,
    /// A record's frame does not fit the data it points into.
    Truncated,
    /// An underlying I/O failure, or a value that cannot be framed.
    Io(String),
}

/// Failure kinds of the volume journal driver.
#[derive(Debug)]
pub enum DriverError {
    Io(String),
    Windows(String),
    UsnJournal(String),
    InvalidHandle(String),
    BufferTooSmall(String),
    JournalNotFound(String),
    AccessDenied(String),
    Parse(String),
}

impl DriverError {
    /// The text carried by the error.
    pub fn message(&self) -> (r: &String)
        ensures
            r@ == self.spec_message(),
    {
        match self {
            DriverError::Io(s) => s,
            DriverError::Windows(s) => s,
            DriverError::UsnJournal(s) => s,
            DriverError::InvalidHandle(s) => s,
            DriverError::BufferTooSmall(s) => s,
            DriverError::JournalNotFound(s) => s,
            DriverError::AccessDenied(s) => s,
            DriverError::Parse(s) => s,
        }
    }

    pub open spec fn spec_message(&self) -> Seq<char> {
        match self {
            DriverError::Io(s) => s@,
            DriverError::Windows(s) => s@,
            DriverError::UsnJournal(s) => s@,
            DriverError::InvalidHandle(s) => s@,
            DriverError::BufferTooSmall(s) => s@,
            DriverError::JournalNotFound(s) => s@,
            DriverError::AccessDenied(s) => s@,
            DriverError::Parse(s) => s@,
        }
    }
}

} // verus!
