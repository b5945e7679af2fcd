//! Error values reported by the graveyard engine.

use vstd::prelude::*;

verus! {

/// Failures that the engine itself can detect.
///
/// Filesystem failures (a move that cannot be performed, a missing target)
/// are detected and reported by the unverified shell around the engine; the
/// engine only ever sees their outcome as plain values.
#[derive(Debug)]
pub enum RipError {
    /// A record log line does not split into at least three tab-separated
    /// fields.  The log is foundational shared state, so this is fatal for
    /// the whole operation.
    CorruptRecord,
    /// A glob pattern was rejected by the pattern compiler; the payload is
    /// its message.
    BadGlob { message: String },
}

impl RipError {
    /// A short human-readable description of the error.
    pub fn message(&self) -> (r: String)
        ensures
            r@.len() > 0,
    {
        proof {
            reveal_strlit("corrupt record entry in the grave record");
            reveal_strlit("invalid glob pattern: ");
        }
        match self {
            RipError::CorruptRecord => String::from_str(
                "corrupt record entry in the grave record",
            ),
            RipError::BadGlob { message } => {
                let head = String::from_str("invalid glob pattern: ");
                head.concat(message.as_str())
            },
        }
    }
}

} // verus!
