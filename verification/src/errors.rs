//! Error taxonomy of the terminal.
//!
//! Parsing misses are not errors: a frame or line that does not match the
//! protocol simply yields no identifier and the read loop continues.

use vstd::prelude::*;

verus! {

/// Everything that can go wrong across the terminal's components.
#[derive(Debug)]
pub enum TallyError {
    /// A textual or binary tag encoding with the wrong length or character
    /// set.
    MalformedID,
    /// A frame or line that was recognised as damaged rather than merely
    /// absent; non-fatal, the read loop skips it.
    ProtocolError,
    /// Subprocess or storage input/output failed; the payload carries the
    /// runtime's description.
    IOError(String),
    /// The persistence backend could not store or load a record.
    PersistenceError,
    /// An external tool exited with a non-zero status; carries its captured
    /// output.
    ExternalToolError { stdout: String, stderr: String },
    /// A configuration value was rejected before any external call was made.
    ValidationError,
    /// A bus subscriber fell behind and the given number of events were
    /// skipped.
    ChannelLag(u64),
}

} // verus!
