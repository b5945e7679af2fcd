//! Graveyard engine for a "soft delete" tool.
//!
//! Instead of unlinking files, the tool relocates them into a holding area
//! (the graveyard) and records enough metadata in an append-only text log to
//! restore them later.  This crate holds the engine itself: the path
//! mirroring and conflict-resolution rules, the record log format and its
//! scan/append/rewrite operations, the relocation policy, and the decision
//! logic of the four user-facing operations (bury, unbury, seance,
//! decompose).  Everything here is verified; the thin shell that performs
//! the actual filesystem mutations, prompts and terminal output lives
//! outside and feeds this engine plain values.

pub mod digits;
pub mod errors;
pub mod glob;
pub mod mover;
pub mod ops;
pub mod paths;
pub mod record;
pub mod text;
pub mod util;
