//! Glob selection of graves.
//!
//! A target that uses glob syntax is expanded against the live graveyard
//! tree instead of being joined as a literal path.

use vstd::prelude::*;

use crate::errors::RipError;
use crate::text::contains_char;
use crate::text::str_contains_char;

verus! {

/// Whether a target uses glob syntax and must be expanded against the
/// tree rather than resolved as a literal path.
pub open spec fn spec_has_glob(s: Seq<char>) -> bool {
    contains_char(s, '*') || contains_char(s, '?')
}

/// Glob detection on a target string.
pub fn has_glob_chars(target: &str) -> (r: bool)
    ensures
        r == spec_has_glob(target@),
{
    str_contains_char(target, '*') || str_contains_char(target, '?')
}

/// Whether the glob matcher accepts `p` as a pattern.  Acceptance is
/// decided by compiling the pattern, before any directory is read, so it
/// is a function of the pattern alone.
pub uninterp spec fn glob_pattern_ok(p: Seq<char>) -> bool;

/// A walk base beginning with `./`.  The matcher normalizes such a root
/// by dropping the `./` while the directory walker keeps it on every
/// path it yields, and the walk trips over the mismatch as soon as the
/// base exists; bases of this shape are therefore kept out of the walk.
pub open spec fn has_dot_slash_prefix(p: Seq<char>) -> bool {
    p.len() >= 2 && p[0] == '.' && p[1] == '/'
}

/// Every path under `base_path` (at most `max_depth` levels deep) that
/// matches `pattern`.
///
/// Relies on globwalk's `GlobWalkerBuilder` (glob matching by `ignore`,
/// traversal by `walkdir`): which paths come back depends on what is on
/// disk when the walk runs, so nothing is promised of the matches.  The
/// only failure is the matcher rejecting the pattern — every error on the
/// builder's path is raised while compiling the pattern, never from the
/// base directory — reported as `BadGlob`; paths the walk itself cannot
/// read are skipped, as a missing base directory is.  A base with a
/// leading `./` is excluded: the matcher strips that prefix from its
/// root while the walker's paths keep it, and the walk's prefix strip
/// would fail on any existing base of that shape.
#[verifier::external_body]
pub fn glob_walk(pattern: &str, base_path: &str, max_depth: usize) -> (r: Result<
    Vec<String>,
    RipError,
>)
    requires
        !has_dot_slash_prefix(base_path@),
    ensures
        r is Err <==> !glob_pattern_ok(pattern@),
        r matches Err(e) ==> e is BadGlob,
{
    let builder = globwalk::GlobWalkerBuilder::new(base_path, pattern).max_depth(max_depth);
    match builder.build() {
        Err(e) => Err(RipError::BadGlob { message: e.to_string() }),
        Ok(walker) => {
            let mut out: Vec<String> = Vec::new();
            for entry in walker.flatten() {
                out.push(entry.path().to_string_lossy().into_owned());
            }
            Ok(out)
        },
    }
}

} // verus!
