//! Decision logic of the four user-facing operations.
//!
//! Each operation receives a resolved configuration struct built once at
//! startup; the engine has no ambient state.  The functions here settle
//! where things go — which graveyard root applies, where an unbury target
//! resolves, how grave paths are shown — while the shell performs the
//! moves, prompts and prints around them.

use vstd::prelude::*;

use crate::errors::RipError;
use crate::glob::glob_walk;
use crate::glob::spec_has_glob;
use crate::paths::join_absolute;
use crate::paths::spec_join_absolute;
use crate::paths::strip_path_prefix;
use crate::text::spec_starts_with;
use crate::text::str_starts_with;

verus! {

/// Default depth bound when expanding a glob against the graveyard tree.
pub const DEFAULT_MAX_DEPTH: usize = 10;

/// How many leading lines of a file an inspection preview shows.
pub const LINES_TO_INSPECT: usize = 6;

/// How many top-level entries of a directory an inspection preview shows.
pub const FILES_TO_INSPECT: usize = 6;

/// Resolved configuration of a bury run.
#[derive(Clone, Debug)]
pub struct BuryOpts {
    /// Graveyard root directory.
    pub graveyard: String,
    /// Path of the record log.
    pub record: String,
    /// Targets to bury, as given on the command line.
    pub targets: Vec<String>,
    /// Working directory the targets are relative to.
    pub cwd: String,
    /// Preview each target and confirm before burying it.
    pub inspect: bool,
    /// Echo intermediate decisions.
    pub verbose: bool,
}

/// Resolved configuration of an unbury run.
#[derive(Clone, Debug)]
pub struct UnburyOpts {
    /// Graveyard root directory.
    pub graveyard: String,
    /// Path of the record log.
    pub record: String,
    /// Targets to restore; empty means the most recent bury.
    pub targets: Vec<String>,
    /// Working directory for local scoping.
    pub cwd: String,
    /// Depth bound for glob expansion.
    pub max_depth: usize,
    /// Restrict to graves under the working directory.
    pub local: bool,
    /// Also restore everything a seance over the scope would list.
    pub seance_opt: bool,
    /// Report full grave paths instead of shortened ones.
    pub full_path: bool,
    /// Preview before acting.
    pub inspect: bool,
    /// Echo intermediate decisions.
    pub verbose: bool,
}

/// Resolved configuration of a decompose (purge) run.
#[derive(Clone, Debug)]
pub struct DecomposeOpts {
    /// Graveyard root directory.
    pub graveyard: String,
    /// Preview before acting.
    pub inspect: bool,
    /// List the graveyard's contents before deleting it.
    pub verbose: bool,
}

/// Resolved configuration of a seance (listing) run.
#[derive(Clone, Debug)]
pub struct SeanceOpts {
    /// Graveyard root directory.
    pub graveyard: String,
    /// Path of the record log.
    pub record: String,
    /// Working directory that scopes the listing.
    pub cwd: String,
    /// List the entire graveyard instead of the current scope.
    pub show_all: bool,
    /// Show full grave paths.
    pub full_path: bool,
    /// Show bare paths without index, time or type columns.
    pub plain: bool,
}

/// The graveyard root used when nothing else is configured:
/// `/tmp/graveyard-<user>`.
pub fn default_graveyard(user: &str) -> (r: String)
    ensures
        r@ == "/tmp/graveyard-"@ + user@,
{
    String::from_str("/tmp/graveyard-").concat(user)
}

/// The graveyard under an XDG data directory: `<data_home>/graveyard`,
/// with exactly one separator between the two.
pub fn xdg_graveyard(data_home: &str) -> (r: String)
    ensures
        r@ == if data_home@.len() > 0 && data_home@[data_home@.len() - 1] == '/' {
            data_home@ + "graveyard"@
        } else {
            data_home@ + "/graveyard"@
        },
{
    let n = data_home.unicode_len();
    if n > 0 && data_home.get_char(n - 1) == '/' {
        String::from_str(data_home).concat("graveyard")
    } else {
        String::from_str(data_home).concat("/graveyard")
    }
}

/// The record log lives at the root of the graveyard, as `.record`.
pub fn record_path(graveyard: &str) -> (r: String)
    ensures
        r@ == spec_join_absolute(graveyard@, ".record"@),
{
    join_absolute(graveyard, ".record")
}

/// Where a plain (non-glob) unbury target resolves, in this fixed order:
/// under the working directory inside the graveyard when local; kept as
/// given when it already names a path under the graveyard root; joined
/// under the graveyard root otherwise.
pub open spec fn spec_resolve_unbury_target(
    graveyard: Seq<char>,
    cwd: Seq<char>,
    local: bool,
    target: Seq<char>,
) -> Seq<char> {
    if local {
        spec_join_absolute(spec_join_absolute(graveyard, cwd), target)
    } else if spec_starts_with(target, graveyard) {
        target
    } else {
        spec_join_absolute(graveyard, target)
    }
}

/// Resolve one plain unbury target to the grave path it names.
pub fn resolve_unbury_target(graveyard: &str, cwd: &str, local: bool, target: &str) -> (r: String)
    ensures
        r@ == spec_resolve_unbury_target(graveyard@, cwd@, local, target@),
{
    if local {
        let scope = join_absolute(graveyard, cwd);
        join_absolute(scope.as_str(), target)
    } else if str_starts_with(target, graveyard) {
        String::from_str(target)
    } else {
        join_absolute(graveyard, target)
    }
}

/// The tree a glob target is expanded against: the mirror of the working
/// directory inside the graveyard when local, the whole graveyard
/// otherwise.
pub open spec fn spec_glob_scope(graveyard: Seq<char>, cwd: Seq<char>, local: bool) -> Seq<char> {
    if local {
        spec_join_absolute(graveyard, cwd)
    } else {
        graveyard
    }
}

/// The tree a glob target is expanded against, as a path.
pub fn glob_scope(graveyard: &str, cwd: &str, local: bool) -> (r: String)
    ensures
        r@ == spec_glob_scope(graveyard@, cwd@, local),
{
    if local {
        join_absolute(graveyard, cwd)
    } else {
        String::from_str(graveyard)
    }
}

/// One piece of the candidate list per target: a plain target
/// contributes exactly its resolved grave path, a glob target whatever
/// the walk matched.
pub open spec fn piecewise_candidates(
    graveyard: Seq<char>,
    cwd: Seq<char>,
    local: bool,
    targets: Seq<Seq<char>>,
    pieces: Seq<Seq<Seq<char>>>,
    cands: Seq<Seq<char>>,
) -> bool {
    &&& pieces.len() == targets.len()
    &&& cands == pieces.flatten()
    &&& forall|i: int|
        0 <= i < targets.len() && !spec_has_glob(targets[i]) ==> #[trigger] pieces[i] == seq![
            spec_resolve_unbury_target(graveyard, cwd, local, targets[i]),
        ]
}

/// The candidate list splits into one piece per target, each plain
/// target contributing its resolved grave path exactly once, in order.
pub open spec fn spec_candidates_split(
    graveyard: Seq<char>,
    cwd: Seq<char>,
    local: bool,
    targets: Seq<Seq<char>>,
    cands: Seq<Seq<char>>,
) -> bool {
    exists|pieces: Seq<Seq<Seq<char>>>|
        #[trigger] piecewise_candidates(graveyard, cwd, local, targets, pieces, cands)
}

/// Build the candidate graves to exhume from the explicit targets.
///
/// The result is a concatenation of one piece per target, in target
/// order: a target with glob syntax is expanded against the graveyard
/// tree, rooted at [`glob_scope`], its piece being whatever matched; a
/// plain target's piece is exactly the grave path of the fixed
/// resolution order [`spec_resolve_unbury_target`].  When no target uses
/// globs the result is therefore exactly the resolved targets, in order.
/// The one failure is a glob target whose pattern the matcher rejects:
/// the call fails if and only if the targets hold such a pattern.
#[verifier::rlimit(30)]
pub fn build_exhume_candidates(
    graveyard: &str,
    cwd: &str,
    local: bool,
    max_depth: usize,
    targets: &Vec<String>,
) -> (r: Result<Vec<String>, RipError>)
    requires
        !crate::glob::has_dot_slash_prefix(spec_glob_scope(graveyard@, cwd@, local)),
    ensures
        match r {
            Ok(cands) => {
                &&& spec_candidates_split(graveyard@, cwd@, local, targets.deep_view(), cands.deep_view())
                &&& forall|i: int|
                    0 <= i < targets@.len() && !spec_has_glob(#[trigger] targets.deep_view()[i])
                        ==> cands.deep_view().contains(
                        spec_resolve_unbury_target(
                            graveyard@,
                            cwd@,
                            local,
                            targets.deep_view()[i],
                        ),
                    )
                &&& forall|i: int|
                    0 <= i < targets@.len() && spec_has_glob(#[trigger] targets.deep_view()[i])
                        ==> crate::glob::glob_pattern_ok(targets.deep_view()[i])
                &&& (forall|i: int|
                    0 <= i < targets@.len() ==> !spec_has_glob(#[trigger] targets.deep_view()[i]))
                    ==> cands.deep_view() == targets.deep_view().map_values(
                    |t: Seq<char>| spec_resolve_unbury_target(graveyard@, cwd@, local, t),
                )
            },
            Err(e) => {
                &&& e is BadGlob
                &&& exists|i: int|
                    0 <= i < targets@.len() && spec_has_glob(#[trigger] targets.deep_view()[i])
                        && !crate::glob::glob_pattern_ok(targets.deep_view()[i])
            },
        },
{
    let ghost resolve = |t: Seq<char>| spec_resolve_unbury_target(graveyard@, cwd@, local, t);
    let glob_base = glob_scope(graveyard, cwd, local);
    let mut cands: Vec<String> = Vec::new();
    let ghost mut pieces: Seq<Seq<Seq<char>>> = Seq::empty();
    let n = targets.len();
    proof {
        assert(cands.deep_view() =~= pieces.flatten());
    }
    for i in 0..n
        invariant
            n == targets@.len(),
            resolve == (|t: Seq<char>| spec_resolve_unbury_target(graveyard@, cwd@, local, t)),
            !crate::glob::has_dot_slash_prefix(glob_base@),
            pieces.len() == i,
            cands.deep_view() == pieces.flatten(),
            forall|j: int|
                0 <= j < i && !spec_has_glob(targets.deep_view()[j]) ==> #[trigger] pieces[j]
                    == seq![resolve(targets.deep_view()[j])],
            forall|j: int|
                0 <= j < i && !spec_has_glob(#[trigger] targets.deep_view()[j])
                    ==> cands.deep_view().contains(resolve(targets.deep_view()[j])),
            forall|j: int|
                0 <= j < i && spec_has_glob(#[trigger] targets.deep_view()[j])
                    ==> crate::glob::glob_pattern_ok(targets.deep_view()[j]),
            (forall|j: int|
                0 <= j < i ==> !spec_has_glob(#[trigger] targets.deep_view()[j]))
                ==> cands.deep_view() == targets.deep_view().take(i as int).map_values(resolve),
    {
        let ghost prev = cands.deep_view();
        let target = &targets[i];
        if crate::glob::has_glob_chars(target.as_str()) {
            match glob_walk(target.as_str(), glob_base.as_str(), max_depth) {
                Ok(mut globbed) => {
                    let ghost piece = globbed.deep_view();
                    cands.append(&mut globbed);
                    proof {
                        let prev_pieces = pieces;
                        pieces = prev_pieces.push(piece);
                        prev_pieces.lemma_flatten_push(piece);
                        assert(cands.deep_view() =~= prev + piece);
                        assert(cands.deep_view() == pieces.flatten());
                        assert(spec_has_glob(targets.deep_view()[i as int]));
                        assert(crate::glob::glob_pattern_ok(targets.deep_view()[i as int]));
                        assert forall|j: int|
                            0 <= j < i + 1 && !spec_has_glob(#[trigger] targets.deep_view()[j])
                            implies cands.deep_view().contains(
                            resolve(targets.deep_view()[j]),
                        ) by {
                            let x = resolve(targets.deep_view()[j]);
                            let k = choose|k: int| 0 <= k < prev.len() && prev[k] == x;
                            assert(cands.deep_view()[k] == x);
                        }
                    }
                },
                Err(e) => {
                    proof {
                        assert(spec_has_glob(targets.deep_view()[i as int])
                            && !crate::glob::glob_pattern_ok(targets.deep_view()[i as int]));
                    }
                    return Err(e);
                },
            }
        } else {
            let resolved = resolve_unbury_target(graveyard, cwd, local, target.as_str());
            let ghost rv = resolved@;
            cands.push(resolved);
            proof {
                let prev_pieces = pieces;
                pieces = prev_pieces.push(seq![rv]);
                prev_pieces.lemma_flatten_push(seq![rv]);
                assert(cands.deep_view() =~= prev.push(rv));
                assert(cands.deep_view() =~= prev + seq![rv]);
                assert(cands.deep_view() == pieces.flatten());
                assert(cands.deep_view()[prev.len() as int] == rv);
                assert forall|j: int|
                    0 <= j < i + 1 && !spec_has_glob(#[trigger] targets.deep_view()[j])
                    implies cands.deep_view().contains(resolve(targets.deep_view()[j])) by {
                    if j < i {
                        let x = resolve(targets.deep_view()[j]);
                        let k = choose|k: int| 0 <= k < prev.len() && prev[k] == x;
                        assert(cands.deep_view()[k] == x);
                    } else {
                        assert(cands.deep_view()[prev.len() as int] == resolve(
                            targets.deep_view()[j],
                        ));
                    }
                }
                if forall|j: int|
                    0 <= j < i + 1 ==> !spec_has_glob(#[trigger] targets.deep_view()[j]) {
                    assert(forall|j: int|
                        0 <= j < i ==> !spec_has_glob(#[trigger] targets.deep_view()[j]));
                    assert(prev == targets.deep_view().take(i as int).map_values(resolve));
                    assert(targets.deep_view().take(i + 1).drop_last() =~= targets.deep_view().take(
                        i as int,
                    ));
                    assert(targets.deep_view().take(i + 1)[i as int] == targets.deep_view()[i as int]);
                    assert(cands.deep_view() =~= targets.deep_view().take(i + 1).map_values(
                        resolve,
                    ));
                }
            }
        }
    }
    proof {
        assert(targets.deep_view().take(n as int) =~= targets.deep_view());
        assert forall|j: int|
            0 <= j < targets.deep_view().len() && !spec_has_glob(targets.deep_view()[j])
            implies #[trigger] pieces[j] == seq![
            spec_resolve_unbury_target(graveyard@, cwd@, local, targets.deep_view()[j]),
        ] by {
            assert(pieces[j] == seq![resolve(targets.deep_view()[j])]);
        }
        assert(piecewise_candidates(
            graveyard@,
            cwd@,
            local,
            targets.deep_view(),
            pieces,
            cands.deep_view(),
        ));
        assert(spec_candidates_split(graveyard@, cwd@, local, targets.deep_view(), cands.deep_view()));
    }
    Ok(cands)
}

/// A grave path shown relative to the graveyard root, as short listings
/// print it; a path not under the root is shown as it is.
pub fn shorten_grave(grave: &str, graveyard: &str) -> (r: String)
    ensures
        r@ == if spec_starts_with(grave@, graveyard@) {
            grave@.subrange(graveyard@.len() as int, grave@.len() as int)
        } else {
            grave@
        },
{
    match strip_path_prefix(grave, graveyard) {
        Some(rem) => rem,
        None => String::from_str(grave),
    }
}

/// A grave path with the graveyard root abbreviated to `$GRAVEYARD`, as
/// full-path reports print it; a path not under the root is shown as is.
pub fn grave_display(grave: &str, graveyard: &str) -> (r: String)
    ensures
        r@ == if spec_starts_with(grave@, graveyard@) {
            "$GRAVEYARD"@ + grave@.subrange(graveyard@.len() as int, grave@.len() as int)
        } else {
            grave@
        },
{
    match strip_path_prefix(grave, graveyard) {
        Some(rem) => String::from_str("$GRAVEYARD").concat(rem.as_str()),
        None => String::from_str(grave),
    }
}

} // verus!
