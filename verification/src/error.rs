//! The error taxonomy of the store: recoverable failures produced by the
//! core itself, schema violations found during recovery, and failures
//! surfaced by the underlying storage engine.

use vstd::prelude::*;

verus! {

#[derive(Debug)]
pub enum Error {
    /// A recoverable failure of the core itself, with a human-readable
    /// cause: a parse failure, a value of the wrong shape, or essential
    /// block data that could not be read.
    Temporary { error: String },
    /// A scanned key that matches none of the schema's shapes: corruption or
    /// an unsupported schema change, fatal to the recovery that found it.
    UnknownKey { key: Vec<u8> },
    /// A failure surfaced by the storage engine, passed on with its message.
    RocksDBError(String),
}

/// The error recovery reports for a key that matches no known shape, naming
/// the offending path.
pub fn unknown_key_error(key: Vec<u8>) -> (r: Result<(), Error>)
    ensures
        r matches Err(e) && e matches Error::UnknownKey { key: k } && k@ == key@,
{
    Err(Error::UnknownKey { key })
}

} // verus!
