//! Path mirroring and conflict resolution.
//!
//! The graveyard mirrors the absolute path structure of everything it
//! holds: an item buried from `/a/b/c` lives at `<graveyard>/a/b/c`.  This
//! module holds the path arithmetic behind that rule: joining a root with
//! an absolute path, walking a path's ancestors, and renaming a grave with
//! a numeric `~N` suffix when its candidate name is already taken.
//!
//! Paths are modelled as plain slash-separated character strings, the form
//! in which the engine receives and returns them.

use vstd::prelude::*;

use crate::digits::dec_seq;
use crate::digits::lemma_dec_seq_injective;
use crate::digits::u64_to_dec;
use crate::text::last_index_of;

verus! {

/// `r` without its leading slashes.
pub open spec fn strip_leading_slashes(r: Seq<char>) -> Seq<char>
    decreases r.len(),
{
    if r.len() > 0 && r[0] == '/' {
        strip_leading_slashes(r.subrange(1, r.len() as int))
    } else {
        r
    }
}

/// The concatenation of `l` and `r` with exactly one separator between
/// them, whether or not `r` is itself absolute.
pub open spec fn spec_join_absolute(l: Seq<char>, r: Seq<char>) -> Seq<char> {
    let rr = strip_leading_slashes(r);
    if rr.len() == 0 {
        l
    } else if l.len() == 0 {
        rr
    } else if l[l.len() - 1] == '/' {
        l + rr
    } else {
        l + seq!['/'] + rr
    }
}

/// Stripping the leading slashes keeps exactly the suffix that starts at
/// the first non-slash character.
proof fn lemma_strip_leading_slashes_at(r: Seq<char>, idx: int)
    requires
        0 <= idx <= r.len(),
        forall|j: int| 0 <= j < idx ==> r[j] == '/',
        idx == r.len() || r[idx] != '/',
    ensures
        strip_leading_slashes(r) == r.subrange(idx, r.len() as int),
    decreases idx,
{
    if idx == 0 {
        assert(r.subrange(0, r.len() as int) =~= r);
    } else {
        let tail = r.subrange(1, r.len() as int);
        assert(forall|j: int| 0 <= j < tail.len() ==> tail[j] == r[j + 1]);
        lemma_strip_leading_slashes_at(tail, idx - 1);
        assert(tail.subrange(idx - 1, tail.len() as int) =~= r.subrange(idx, r.len() as int));
    }
}

/// Concatenate two paths, even if the right argument is an absolute path.
pub fn join_absolute(left: &str, right: &str) -> (r: String)
    ensures
        r@ == spec_join_absolute(left@, right@),
{
    let n = right.unicode_len();
    let mut idx: usize = 0;
    while idx < n && right.get_char(idx) == '/'
        invariant
            idx <= n,
            n == right@.len(),
            forall|j: int| 0 <= j < idx ==> right@[j] == '/',
        decreases n - idx,
    {
        idx = idx + 1;
    }
    proof {
        lemma_strip_leading_slashes_at(right@, idx as int);
    }
    let stripped = right.substring_char(idx, n);
    let m = left.unicode_len();
    if stripped.unicode_len() == 0 {
        String::from_str(left)
    } else if m == 0 {
        String::from_str(stripped)
    } else if left.get_char(m - 1) == '/' {
        String::from_str(left).concat(stripped)
    } else {
        let r = String::from_str(left).concat("/").concat(stripped);
        proof {
            reveal_strlit("/");
            assert("/"@ =~= seq!['/']);
            assert(r@ =~= left@ + seq!['/'] + stripped@);
        }
        r
    }
}

/// Stripping leading slashes keeps every remaining character, so a path
/// free of tabs and newlines stays free of them.
proof fn lemma_strip_wf(r: Seq<char>)
    requires
        crate::record::wf_field(r),
    ensures
        crate::record::wf_field(strip_leading_slashes(r)),
    decreases r.len(),
{
    if r.len() > 0 && r[0] == '/' {
        let tail = r.subrange(1, r.len() as int);
        assert(forall|j: int| 0 <= j < tail.len() ==> tail[j] == r[j + 1]);
        lemma_strip_wf(tail);
    }
}

/// Mirrored paths stay recordable: joining two tab- and newline-free
/// paths yields a tab- and newline-free path, so the grave path computed
/// for a clean original can always be written to the record.
pub proof fn lemma_join_recordable(l: Seq<char>, r: Seq<char>)
    requires
        crate::record::wf_field(l),
        crate::record::wf_field(r),
    ensures
        crate::record::wf_field(spec_join_absolute(l, r)),
{
    lemma_strip_wf(r);
    let rr = strip_leading_slashes(r);
    let v = spec_join_absolute(l, r);
    assert forall|k: int| 0 <= k < v.len() implies v[k] != '\t' && v[k] != '\n' by {
        if rr.len() == 0 || k < l.len() {
        } else if l.len() == 0 {
            assert(v[k] == rr[k]);
        } else if l[l.len() - 1] == '/' {
            assert(v[k] == rr[k - l.len()]);
        } else if k == l.len() {
            assert(v[k] == '/');
        } else {
            assert(v[k] == rr[k - l.len() - 1]);
        }
    }
}

/// Walking an entry of a buried tree to its mirrored place under the
/// destination, then walking the mirrored entry back, restores the
/// entry's path exactly.  This is the symmetry that preserves a
/// directory's full structure through a bury and the unbury of it: bury
/// mirrors each entry under the grave, unbury mirrors it back.
///
/// The shape conditions say what tree walks produce: the entry is the
/// walked root itself, or the root plus `/` and a non-slash remainder;
/// neither root is empty or ends in a slash.
pub proof fn lemma_orphan_mirror_roundtrip(source: Seq<char>, dest: Seq<char>, e: Seq<char>)
    requires
        source.len() > 0,
        source[source.len() - 1] != '/',
        dest.len() > 0,
        dest[dest.len() - 1] != '/',
        crate::text::spec_starts_with(e, source),
        e.len() == source.len() || (e.len() > source.len() + 1 && e[source.len() as int] == '/'
            && e[source.len() as int + 1] != '/'),
    ensures
        ({
            let f = spec_join_absolute(dest, e.subrange(source.len() as int, e.len() as int));
            &&& crate::text::spec_starts_with(f, dest)
            &&& spec_join_absolute(source, f.subrange(dest.len() as int, f.len() as int)) == e
        }),
{
    let sl = source.len() as int;
    let dl = dest.len() as int;
    let suffix = e.subrange(sl, e.len() as int);
    if e.len() == source.len() {
        assert(e =~= source);
        assert(suffix.len() == 0);
        assert(strip_leading_slashes(suffix) == suffix);
        let f = spec_join_absolute(dest, suffix);
        assert(f == dest);
        assert(f.subrange(0, dl) =~= dest);
        assert(f.subrange(dl, f.len() as int).len() == 0);
        assert(spec_join_absolute(source, f.subrange(dl, f.len() as int)) == source);
    } else {
        let rest = e.subrange(sl + 1, e.len() as int);
        assert(suffix[0] == '/');
        assert(suffix.subrange(1, suffix.len() as int) =~= rest);
        assert(rest[0] != '/');
        assert(strip_leading_slashes(rest) == rest);
        assert(strip_leading_slashes(suffix) == rest);
        let f = spec_join_absolute(dest, suffix);
        assert(f == dest + seq!['/'] + rest);
        assert(f.subrange(0, dl) =~= dest);
        let back = f.subrange(dl, f.len() as int);
        assert(back =~= seq!['/'] + rest);
        assert(back[0] == '/');
        assert(back.subrange(1, back.len() as int) =~= rest);
        assert(strip_leading_slashes(back) == rest);
        assert(spec_join_absolute(source, back) == source + seq!['/'] + rest);
        assert(source + seq!['/'] + rest =~= e);
    }
}

/// Whether `p` has a parent in this model: a last slash that either cuts a
/// proper prefix or leaves the root `/`.
pub open spec fn spec_has_parent(p: Seq<char>) -> bool {
    let k = last_index_of(p, '/');
    (0 < k < p.len()) || (k == 0 && p.len() > 1)
}

/// The parent of `p`: everything before the last slash, or the root `/`
/// when the last slash is the leading one.  Meaningful only when
/// `spec_has_parent(p)`.
pub open spec fn spec_parent(p: Seq<char>) -> Seq<char> {
    let k = last_index_of(p, '/');
    if 0 < k < p.len() {
        p.subrange(0, k)
    } else {
        seq!['/']
    }
}

/// The chain `p`, parent of `p`, parent of that, ... ending at a path
/// without a parent (the root, or a relative head without a slash).
pub open spec fn spec_ancestors(p: Seq<char>) -> Seq<Seq<char>>
    decreases p.len(),
{
    if spec_has_parent(p) && spec_parent(p).len() < p.len() {
        seq![p] + spec_ancestors(spec_parent(p))
    } else {
        seq![p]
    }
}

/// The parent of `p`, when it has one.
fn parent_of(p: &str) -> (r: Option<String>)
    ensures
        match r {
            Some(q) => spec_has_parent(p@) && q@ == spec_parent(p@) && q@.len() < p@.len(),
            None => !spec_has_parent(p@),
        },
{
    let n = p.unicode_len();
    proof {
        crate::text::lemma_last_index_of(p@, '/');
    }
    match crate::text::find_last_char(p, '/') {
        None => None,
        Some(k) => {
            if k > 0 {
                Some(String::from_str(p.substring_char(0, k)))
            } else if n > 1 {
                let root = String::from_str("/");
                proof {
                    reveal_strlit("/");
                    assert(root@ =~= seq!['/']);
                }
                Some(root)
            } else {
                None
            }
        },
    }
}

/// All ancestors of a path, the path itself first.
pub fn path_ancestors(p: &str) -> (r: Vec<String>)
    ensures
        r.deep_view() == spec_ancestors(p@),
{
    let mut acc: Vec<String> = Vec::new();
    let mut cur = String::from_str(p);
    loop
        invariant
            spec_ancestors(p@) == acc.deep_view() + spec_ancestors(cur@),
        decreases cur@.len(),
    {
        let ghost prev = acc.deep_view();
        acc.push(cur.clone());
        proof {
            assert(acc.deep_view() =~= prev + seq![cur@]);
        }
        match parent_of(cur.as_str()) {
            Some(par) => {
                proof {
                    assert(spec_ancestors(cur@) == seq![cur@] + spec_ancestors(par@));
                    assert(prev + spec_ancestors(cur@) =~= acc.deep_view() + spec_ancestors(par@));
                }
                cur = par;
            },
            None => {
                proof {
                    assert(spec_ancestors(cur@) == seq![cur@]);
                    assert(prev + spec_ancestors(cur@) =~= acc.deep_view());
                }
                return acc;
            },
        }
    }
}

/// Index of the first `true` in `flags`, or `-1` when all are `false`.
pub open spec fn first_true(flags: Seq<bool>) -> int
    decreases flags.len(),
{
    if flags.len() == 0 {
        -1
    } else if flags[0] {
        0
    } else {
        let rest = first_true(flags.subrange(1, flags.len() as int));
        if rest < 0 {
            -1
        } else {
            rest + 1
        }
    }
}

/// `first_true` finds the leftmost set flag, and only that.
pub proof fn lemma_first_true(flags: Seq<bool>)
    ensures
        first_true(flags) >= 0 ==> {
            &&& first_true(flags) < flags.len()
            &&& flags[first_true(flags)]
            &&& forall|j: int| 0 <= j < first_true(flags) ==> !flags[j]
        },
        first_true(flags) < 0 ==> {
            &&& first_true(flags) == -1
            &&& forall|j: int| 0 <= j < flags.len() ==> !flags[j]
        },
    decreases flags.len(),
{
    if flags.len() == 0 {
    } else if flags[0] {
    } else {
        let tail = flags.subrange(1, flags.len() as int);
        lemma_first_true(tail);
        let rest = first_true(tail);
        if rest >= 0 {
            assert(flags[rest + 1] == tail[rest]);
            assert forall|j: int| 0 <= j < rest + 1 implies !flags[j] by {
                if j > 0 {
                    assert(tail[j - 1] == flags[j]);
                }
            }
        } else {
            assert forall|j: int| 0 <= j < flags.len() implies !flags[j] by {
                if j > 0 {
                    assert(tail[j - 1] == flags[j]);
                }
            }
        }
    }
}

/// First ancestor of `path` (the path itself included) that exists as a
/// plain file, according to the caller's observations.
///
/// The caller hands in one flag per ancestor of `path`, in the order of
/// [`path_ancestors`], saying whether that ancestor exists as a
/// non-directory file.  Such an ancestor blocks the creation of `path` as
/// a nested path and must itself be renamed first.
///
/// The walk runs all the way up, the graveyard root's own ancestors
/// included: should one of those ever be the blocking file, renaming it
/// hangs the grave outside the root's mirror.  In a working graveyard the
/// root is a directory, so the flags above it are false and the case
/// cannot arise.
pub fn parent_file_exists(path: &str, is_file_flags: &Vec<bool>) -> (r: Option<String>)
    requires
        is_file_flags@.len() == spec_ancestors(path@).len(),
    ensures
        match r {
            Some(p) => {
                &&& first_true(is_file_flags@) >= 0
                &&& p@ == spec_ancestors(path@)[first_true(is_file_flags@)]
            },
            None => first_true(is_file_flags@) == -1,
        },
{
    let ancestors = path_ancestors(path);
    let n = is_file_flags.len();
    for i in 0..n
        invariant
            n == is_file_flags@.len(),
            ancestors.deep_view() == spec_ancestors(path@),
            n == spec_ancestors(path@).len(),
            forall|j: int| 0 <= j < i ==> !is_file_flags@[j],
    {
        if is_file_flags[i] {
            proof {
                lemma_first_true(is_file_flags@);
            }
            return Some(ancestors[i].clone());
        }
    }
    proof {
        lemma_first_true(is_file_flags@);
    }
    None
}

/// The `i`-th numbered variant of a grave name: `<grave>~<i>`.
pub open spec fn grave_variant(grave: Seq<char>, i: nat) -> Seq<char> {
    grave + seq!['~'] + dec_seq(i)
}

/// Distinct suffix numbers give distinct variants of the same grave.
pub proof fn lemma_grave_variant_injective(g: Seq<char>, i: nat, j: nat)
    requires
        grave_variant(g, i) == grave_variant(g, j),
    ensures
        i == j,
{
    let a = grave_variant(g, i);
    let b = grave_variant(g, j);
    assert(a.subrange(g.len() as int + 1, a.len() as int) =~= dec_seq(i));
    assert(b.subrange(g.len() as int + 1, b.len() as int) =~= dec_seq(j));
    lemma_dec_seq_injective(i, j);
}

/// A renamed grave stays recordable: when the grave path holds no tab or
/// newline, neither does any numbered variant of it, so the entry written
/// for it parses back exactly and the grave remains independently
/// recoverable.
pub proof fn lemma_variant_recordable(g: Seq<char>, i: nat)
    requires
        crate::record::wf_field(g),
    ensures
        crate::record::wf_field(grave_variant(g, i)),
{
    crate::digits::lemma_dec_seq_digits(i);
    let v = grave_variant(g, i);
    assert forall|k: int| 0 <= k < v.len() implies v[k] != '\t' && v[k] != '\n' by {
        if k < g.len() {
            assert(v[k] == g[k]);
        } else if k == g.len() {
            assert(v[k] == '~');
        } else {
            assert(v[k] == dec_seq(i)[k - g.len() - 1]);
        }
    }
}

/// `r` is the first free numbered variant of `g`: every variant with a
/// smaller positive number is taken, and `r` itself is not.
pub open spec fn is_first_free_variant(
    g: Seq<char>,
    taken: Seq<Seq<char>>,
    k: int,
    r: Seq<char>,
) -> bool {
    &&& 1 <= k
    &&& r == grave_variant(g, k as nat)
    &&& !taken.contains(grave_variant(g, k as nat))
    &&& forall|j: int| 1 <= j < k ==> taken.contains(#[trigger] grave_variant(g, j as nat))
}

/// The numbered variant of a grave name, as a string.
fn variant_string(grave: &str, i: u64) -> (r: String)
    ensures
        r@ == grave_variant(grave@, i as nat),
{
    let r = String::from_str(grave).concat("~").concat(u64_to_dec(i).as_str());
    proof {
        reveal_strlit("~");
        assert("~"@ =~= seq!['~']);
        assert(r@ =~= grave@ + seq!['~'] + dec_seq(i as nat));
    }
    r
}

/// Not every one of the variants `1 ..= taken.len() + 1` can be taken:
/// they are pairwise distinct and `taken` is too short to hold them all,
/// so a free variant exists in that range.
proof fn lemma_variant_pigeonhole(g: Seq<char>, taken: Seq<Seq<char>>)
    requires
        taken.len() + 1 < u64::MAX,
    ensures
        exists|k: int|
            1 <= k <= taken.len() + 1 && !taken.contains(#[trigger] grave_variant(g, k as nat)),
{
    broadcast use vstd::seq_lib::seq_to_set_is_finite;

    let n = taken.len() as int;
    if !(exists|k: int|
        1 <= k <= taken.len() + 1 && !taken.contains(#[trigger] grave_variant(g, k as nat))) {
        assert(forall|j: int|
            1 <= j <= n + 1 ==> taken.contains(#[trigger] grave_variant(g, j as nat)));
        let cands = Seq::new((n + 1) as nat, |j: int| grave_variant(g, (j + 1) as nat));
        assert forall|x: int, y: int| 0 <= x < y < cands.len() implies cands[x] != cands[y] by {
            if cands[x] == cands[y] {
                lemma_grave_variant_injective(g, (x + 1) as nat, (y + 1) as nat);
            }
        }
        assert(cands.no_duplicates());
        cands.unique_seq_to_set();
        taken.lemma_cardinality_of_set();
        assert forall|x: Seq<char>| cands.to_set().contains(x) implies taken.to_set().contains(
            x,
        ) by {
            let idx = choose|idx: int| 0 <= idx < cands.len() && cands[idx] == x;
            assert(taken.contains(grave_variant(g, (idx + 1) as nat)));
        }
        assert(cands.to_set().subset_of(taken.to_set()));
        vstd::set_lib::lemma_len_subset(cands.to_set(), taken.to_set());
    }
}

/// Add a numbered extension to a duplicate grave name, avoiding every name
/// in `taken`.
///
/// `taken` is the list of paths that already exist beside the candidate
/// (for instance the directory listing of its parent, as full paths).  The
/// result is the first variant `<grave>~1, <grave>~2, ...` that does not
/// occur in `taken`; one always exists, so conflict resolution is total.
pub fn rename_grave(grave: &str, taken: &Vec<String>) -> (r: String)
    requires
        taken@.len() + 1 < u64::MAX,
    ensures
        exists|k: int| is_first_free_variant(grave@, taken.deep_view(), k, r@),
{
    let n: u64 = taken.len() as u64;
    let mut i: u64 = 1;
    while i <= n + 1
        invariant
            n == taken@.len(),
            n + 1 < u64::MAX,
            1 <= i <= n + 2,
            forall|j: int|
                1 <= j < i ==> taken.deep_view().contains(#[trigger] grave_variant(grave@, j as nat)),
        decreases n + 2 - i,
    {
        let cand = variant_string(grave, i);
        if !crate::text::string_list_contains(taken, &cand) {
            proof {
                assert(is_first_free_variant(grave@, taken.deep_view(), i as int, cand@));
            }
            return cand;
        }
        i = i + 1;
    }
    proof {
        assert(taken.deep_view().len() == taken@.len());
        lemma_variant_pigeonhole(grave@, taken.deep_view());
        let k = choose|k: int|
            1 <= k <= taken.deep_view().len() + 1 && !taken.deep_view().contains(
                #[trigger] grave_variant(grave@, k as nat),
            );
        assert(taken.deep_view().contains(grave_variant(grave@, k as nat)));
        assert(false);
    }
    variant_string(grave, 1)
}

/// Graves picked one after the other stay pairwise distinct, as long as
/// each pick avoids every name that exists at its time and every earlier
/// pick exists from then on.  This is what makes a run of buries of
/// equally named files fully recoverable: no grave ever shadows another.
pub proof fn lemma_conflict_chain_distinct(picks: Seq<Seq<char>>, takens: Seq<Set<Seq<char>>>)
    requires
        picks.len() == takens.len(),
        forall|i: int| 0 <= i < picks.len() ==> !(#[trigger] takens[i]).contains(picks[i]),
        forall|i: int, j: int|
            0 <= j < i < picks.len() ==> #[trigger] takens[i].contains(#[trigger] picks[j]),
    ensures
        forall|i: int, j: int| 0 <= i < j < picks.len() ==> picks[i] != picks[j],
{
    assert forall|i: int, j: int| 0 <= i < j < picks.len() implies picks[i] != picks[j] by {
        assert(takens[j].contains(picks[i]));
        assert(!takens[j].contains(picks[j]));
    }
}

/// Strip a character-wise prefix, returning the raw remainder.
pub fn strip_path_prefix(path: &str, base: &str) -> (r: Option<String>)
    ensures
        match r {
            Some(rem) => {
                &&& crate::text::spec_starts_with(path@, base@)
                &&& rem@ == path@.subrange(base@.len() as int, path@.len() as int)
            },
            None => !crate::text::spec_starts_with(path@, base@),
        },
{
    if crate::text::str_starts_with(path, base) {
        let n = path.unicode_len();
        let m = base.unicode_len();
        Some(String::from_str(path.substring_char(m, n)))
    } else {
        None
    }
}

} // verus!
