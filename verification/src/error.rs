//! The error taxonomy shared by every engine operation.

use vstd::prelude::*;

verus! {

/// What can go wrong in an engine operation.
#[derive(Debug, Clone, Copy, PartialEq, Eq, Structural)]
pub enum KVSError {
    /// `remove` named a key that the store does not hold.
    NoSuchKey,
    /// A frame on disk does not parse, or a read or write came up short.
    Corrupt,
    /// The file system or a socket failed.
    Io,
    /// The data directory was created by another engine than the one asked for.
    EngineMismatch,
}

/// The text shown for "no such key".
pub open spec fn text_no_such_key() -> Seq<char> {
    "Non existent key"@
}

/// The text shown for a corrupt frame.
pub open spec fn text_corrupt() -> Seq<char> {
    "Not written enough bytes and corrupted file"@
}

/// The text shown for an I/O failure.
pub open spec fn text_io() -> Seq<char> {
    "I/O failure"@
}

/// The text shown when the persisted engine differs from the requested one.
pub open spec fn text_engine_mismatch() -> Seq<char> {
    "Wrong engine"@
}

impl KVSError {
    /// The message of each kind, as a sequence of characters.
    pub open spec fn message_text(self) -> Seq<char> {
        match self {
            KVSError::NoSuchKey => text_no_such_key(),
            KVSError::Corrupt => text_corrupt(),
            KVSError::Io => text_io(),
            KVSError::EngineMismatch => text_engine_mismatch(),
        }
    }

    /// The message a server appends to `ERROR: ` for this error.
    pub fn message(&self) -> (r: String)
        ensures
            r@ == self.message_text(),
    {
        match self {
            KVSError::NoSuchKey => "Non existent key".to_string(),
            KVSError::Corrupt => "Not written enough bytes and corrupted file".to_string(),
            KVSError::Io => "I/O failure".to_string(),
            KVSError::EngineMismatch => "Wrong engine".to_string(),
        }
    }
}

} // verus!
