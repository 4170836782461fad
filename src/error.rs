use vstd::prelude::*;

verus! {

/// The errors that the store reports.
#[derive(Debug, Clone, Copy, PartialEq, Eq, Structural)]
pub enum KvsError {
    /// `remove` was called on a key that has no live entry.
    KeyNotFound,
    /// A command is too large to be framed as a record.
    Encode,
    /// A record's payload cannot be parsed as a command.
    Decode,
    /// A record's framing or payload is inconsistent with its place in the log.
    CorruptRecord,
}

/// Results of the store's operations.
pub type Result<T> = core::result::Result<T, KvsError>;

} // verus!
