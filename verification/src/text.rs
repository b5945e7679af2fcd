//! Character-level scanning primitives shared by the path and record logic.
//!
//! Every executable function here is specified against a small spec-level
//! vocabulary (`first_index_of`, `last_index_of`, `spec_starts_with`,
//! `spec_contains_sub`, `spec_lines`) that the rest of the engine reuses in
//! its own contracts.

use vstd::prelude::*;

verus! {

/// Index of the first occurrence of `c` in `s`, or `-1` when absent.
pub open spec fn first_index_of(s: Seq<char>, c: char) -> int
    decreases s.len(),
{
    if s.len() == 0 {
        -1
    } else if s[0] == c {
        0
    } else {
        let rest = first_index_of(s.subrange(1, s.len() as int), c);
        if rest < 0 {
            -1
        } else {
            rest + 1
        }
    }
}

/// Index of the last occurrence of `c` in `s`, or `-1` when absent.
pub open spec fn last_index_of(s: Seq<char>, c: char) -> int
    decreases s.len(),
{
    if s.len() == 0 {
        -1
    } else if s[s.len() - 1] == c {
        s.len() - 1
    } else {
        last_index_of(s.drop_last(), c)
    }
}

/// `first_index_of` finds the leftmost occurrence, and only that.
pub proof fn lemma_first_index_of(s: Seq<char>, c: char)
    ensures
        first_index_of(s, c) >= 0 ==> {
            &&& first_index_of(s, c) < s.len()
            &&& s[first_index_of(s, c)] == c
            &&& forall|j: int| 0 <= j < first_index_of(s, c) ==> s[j] != c
        },
        first_index_of(s, c) < 0 ==> {
            &&& first_index_of(s, c) == -1
            &&& forall|j: int| 0 <= j < s.len() ==> s[j] != c
        },
    decreases s.len(),
{
    if s.len() == 0 {
    } else if s[0] == c {
    } else {
        let tail = s.subrange(1, s.len() as int);
        lemma_first_index_of(tail, c);
        let rest = first_index_of(tail, c);
        if rest >= 0 {
            assert(s[rest + 1] == tail[rest]);
            assert forall|j: int| 0 <= j < rest + 1 implies s[j] != c by {
                if j > 0 {
                    assert(tail[j - 1] == s[j]);
                }
            }
        } else {
            assert forall|j: int| 0 <= j < s.len() implies s[j] != c by {
                if j > 0 {
                    assert(tail[j - 1] == s[j]);
                }
            }
        }
    }
}

/// Any position that is an occurrence with none to its left is the first one.
pub proof fn lemma_first_index_of_unique(s: Seq<char>, c: char, i: int)
    requires
        0 <= i < s.len(),
        s[i] == c,
        forall|j: int| 0 <= j < i ==> s[j] != c,
    ensures
        first_index_of(s, c) == i,
{
    lemma_first_index_of(s, c);
}

/// `last_index_of` finds the rightmost occurrence, and only that.
pub proof fn lemma_last_index_of(s: Seq<char>, c: char)
    ensures
        last_index_of(s, c) >= 0 ==> {
            &&& last_index_of(s, c) < s.len()
            &&& s[last_index_of(s, c)] == c
            &&& forall|j: int| last_index_of(s, c) < j < s.len() ==> s[j] != c
        },
        last_index_of(s, c) < 0 ==> {
            &&& last_index_of(s, c) == -1
            &&& forall|j: int| 0 <= j < s.len() ==> s[j] != c
        },
    decreases s.len(),
{
    if s.len() == 0 {
    } else if s[s.len() - 1] == c {
    } else {
        let head = s.drop_last();
        lemma_last_index_of(head, c);
        let rest = last_index_of(head, c);
        if rest >= 0 {
            assert(s[rest] == head[rest]);
            assert forall|j: int| rest < j < s.len() implies s[j] != c by {
                if j < s.len() - 1 {
                    assert(head[j] == s[j]);
                }
            }
        } else {
            assert forall|j: int| 0 <= j < s.len() implies s[j] != c by {
                if j < s.len() - 1 {
                    assert(head[j] == s[j]);
                }
            }
        }
    }
}

/// Any position that is an occurrence with none to its right is the last one.
pub proof fn lemma_last_index_of_unique(s: Seq<char>, c: char, i: int)
    requires
        0 <= i < s.len(),
        s[i] == c,
        forall|j: int| i < j < s.len() ==> s[j] != c,
    ensures
        last_index_of(s, c) == i,
{
    lemma_last_index_of(s, c);
}

/// `c` occurs somewhere in `s`.
pub open spec fn contains_char(s: Seq<char>, c: char) -> bool {
    exists|i: int| 0 <= i < s.len() && s[i] == c
}

/// With `c` absent from `s1`, the first `c` of `s1 + [c] + tail` sits
/// exactly at the end of `s1`.
pub proof fn lemma_first_index_at_sep(s1: Seq<char>, c: char, tail: Seq<char>)
    requires
        forall|i: int| 0 <= i < s1.len() ==> s1[i] != c,
    ensures
        first_index_of(s1 + seq![c] + tail, c) == s1.len(),
{
    let s = s1 + seq![c] + tail;
    assert(s[s1.len() as int] == c);
    assert forall|j: int| 0 <= j < s1.len() implies s[j] != c by {
        assert(s[j] == s1[j]);
    }
    lemma_first_index_of_unique(s, c, s1.len() as int);
}

/// First occurrence of `c` in `s`, as an index.
pub fn find_char(s: &str, c: char) -> (r: Option<usize>)
    ensures
        match r {
            Some(i) => first_index_of(s@, c) == i as int,
            None => first_index_of(s@, c) == -1,
        },
{
    let n = s.unicode_len();
    for i in 0..n
        invariant
            n == s@.len(),
            forall|j: int| 0 <= j < i ==> s@[j] != c,
    {
        if s.get_char(i) == c {
            proof {
                lemma_first_index_of_unique(s@, c, i as int);
            }
            return Some(i);
        }
    }
    proof {
        lemma_first_index_of(s@, c);
    }
    None
}

/// Last occurrence of `c` in `s`, as an index.
pub fn find_last_char(s: &str, c: char) -> (r: Option<usize>)
    ensures
        match r {
            Some(i) => last_index_of(s@, c) == i as int,
            None => last_index_of(s@, c) == -1,
        },
{
    let n = s.unicode_len();
    let mut i = n;
    while i > 0
        invariant
            i <= n,
            n == s@.len(),
            forall|j: int| i <= j < n ==> s@[j] != c,
        decreases i,
    {
        i = i - 1;
        if s.get_char(i) == c {
            proof {
                lemma_last_index_of_unique(s@, c, i as int);
            }
            return Some(i);
        }
    }
    proof {
        lemma_last_index_of(s@, c);
    }
    None
}

/// Whether `c` occurs in `s`.
pub fn str_contains_char(s: &str, c: char) -> (r: bool)
    ensures
        r == contains_char(s@, c),
{
    proof {
        lemma_first_index_of(s@, c);
    }
    match find_char(s, c) {
        Some(_) => true,
        None => false,
    }
}

/// `pre` is a character-wise prefix of `s`.
pub open spec fn spec_starts_with(s: Seq<char>, pre: Seq<char>) -> bool {
    s.len() >= pre.len() && s.subrange(0, pre.len() as int) == pre
}

/// Character-wise prefix test.
pub fn str_starts_with(s: &str, pre: &str) -> (r: bool)
    ensures
        r == spec_starts_with(s@, pre@),
{
    let n = s.unicode_len();
    let m = pre.unicode_len();
    if m > n {
        return false;
    }
    for i in 0..m
        invariant
            m <= n,
            n == s@.len(),
            m == pre@.len(),
            forall|j: int| 0 <= j < i ==> s@[j] == pre@[j],
    {
        if s.get_char(i) != pre.get_char(i) {
            proof {
                assert(s@.subrange(0, m as int)[i as int] == s@[i as int]);
            }
            return false;
        }
    }
    proof {
        assert(s@.subrange(0, m as int) =~= pre@);
    }
    true
}

/// `needle` occurs as a contiguous run of characters inside `hay`.
pub open spec fn spec_contains_sub(hay: Seq<char>, needle: Seq<char>) -> bool {
    exists|k: int|
        0 <= k <= hay.len() - needle.len() && #[trigger] hay.subrange(k, k + needle.len() as int)
            == needle
}

/// `needle` matches `hay` at offset `k`.
fn matches_at(hay: &str, needle: &str, k: usize) -> (r: bool)
    requires
        k + needle@.len() <= hay@.len(),
    ensures
        r == (hay@.subrange(k as int, k as int + needle@.len() as int) == needle@),
{
    let m = needle.unicode_len();
    let hn = hay.unicode_len();
    for i in 0..m
        invariant
            m == needle@.len(),
            hn == hay@.len(),
            k + m <= hn,
            forall|j: int| 0 <= j < i ==> hay@[k + j] == needle@[j],
    {
        if hay.get_char(k + i) != needle.get_char(i) {
            proof {
                assert(hay@.subrange(k as int, k as int + m as int)[i as int] == hay@[k + i]);
            }
            return false;
        }
    }
    proof {
        assert(hay@.subrange(k as int, k as int + m as int) =~= needle@);
    }
    true
}

/// Substring test, as `str::contains` of an exact needle.
pub fn str_contains(hay: &str, needle: &str) -> (r: bool)
    ensures
        r == spec_contains_sub(hay@, needle@),
{
    let n = hay.unicode_len();
    let m = needle.unicode_len();
    if m > n {
        return false;
    }
    if m == 0 {
        proof {
            let z: int = 0;
            assert(hay@.subrange(z, z + needle@.len() as int) =~= needle@);
        }
        return true;
    }
    let mut k: usize = 0;
    while k <= n - m
        invariant
            n == hay@.len(),
            m == needle@.len(),
            0 < m <= n,
            k <= n - m + 1,
            forall|k2: int| 0 <= k2 < k ==> #[trigger] hay@.subrange(k2, k2 + m as int) != needle@,
        decreases n - m + 1 - k,
    {
        if matches_at(hay, needle, k) {
            proof {
                assert(0 <= k as int <= hay@.len() - needle@.len());
                assert(hay@.subrange(k as int, k as int + needle@.len() as int) == needle@);
            }
            return true;
        }
        k = k + 1;
    }
    false
}

/// `needle` matches `hay` at offset `k` with both ends on path-component
/// boundaries: the characters match, and the match neither starts nor
/// ends in the middle of a component name.
pub open spec fn path_match_at(hay: Seq<char>, needle: Seq<char>, k: int) -> bool {
    &&& 0 <= k <= hay.len() - needle.len()
    &&& hay.subrange(k, k + needle.len() as int) == needle
    &&& (k == 0 || hay[k - 1] == '/' || needle[0] == '/')
    &&& (k + needle.len() == hay.len() || hay[k + needle.len() as int] == '/' || needle[needle.len()
        - 1] == '/')
}

/// `needle` occurs inside `hay` as a whole run of path components.  This
/// is how a path "passes through" a directory: `/g/home/u/a` passes
/// through `/home/u`, while `/g/home/userette/a` does not.
pub open spec fn spec_path_contains(hay: Seq<char>, needle: Seq<char>) -> bool {
    needle.len() == 0 || exists|k: int| #[trigger] path_match_at(hay, needle, k)
}

/// Component-boundary substring test for slash-separated paths.
pub fn path_contains(hay: &str, needle: &str) -> (r: bool)
    ensures
        r == spec_path_contains(hay@, needle@),
{
    let n = hay.unicode_len();
    let m = needle.unicode_len();
    if m == 0 {
        return true;
    }
    if m > n {
        return false;
    }
    let mut k: usize = 0;
    while k <= n - m
        invariant
            n == hay@.len(),
            m == needle@.len(),
            0 < m <= n,
            k <= n - m + 1,
            forall|k2: int| 0 <= k2 < k ==> !#[trigger] path_match_at(hay@, needle@, k2),
        decreases n - m + 1 - k,
    {
        if matches_at(hay, needle, k) {
            let left_ok = k == 0 || hay.get_char(k - 1) == '/' || needle.get_char(0) == '/';
            let right_ok = k + m == n || hay.get_char(k + m) == '/' || needle.get_char(m - 1)
                == '/';
            if left_ok && right_ok {
                proof {
                    assert(path_match_at(hay@, needle@, k as int));
                }
                return true;
            }
        }
        proof {
            assert(!path_match_at(hay@, needle@, k as int));
        }
        k = k + 1;
    }
    false
}

/// `base` is a path-component-wise prefix of `p`: a character prefix that
/// ends at a component boundary.
pub open spec fn spec_path_starts_with(p: Seq<char>, base: Seq<char>) -> bool {
    spec_starts_with(p, base) && {
        ||| p.len() == base.len()
        ||| base.len() == 0
        ||| p[base.len() as int] == '/'
        ||| base[base.len() - 1] == '/'
    }
}

/// Component-wise prefix test for absolute slash-separated paths, mirroring
/// how a path is considered to lie under a directory.
pub fn path_starts_with(p: &str, base: &str) -> (r: bool)
    ensures
        r == spec_path_starts_with(p@, base@),
{
    if !str_starts_with(p, base) {
        return false;
    }
    let n = p.unicode_len();
    let m = base.unicode_len();
    if n == m || m == 0 {
        return true;
    }
    if p.get_char(m) == '/' {
        return true;
    }
    if base.get_char(m - 1) == '/' {
        return true;
    }
    false
}

/// The lines of `s`, split on `'\n'`, with a final trailing newline not
/// producing an extra empty line.
pub open spec fn spec_lines(s: Seq<char>) -> Seq<Seq<char>>
    decreases s.len(),
{
    if s.len() == 0 {
        Seq::empty()
    } else {
        let k = first_index_of(s, '\n');
        if 0 <= k < s.len() {
            seq![s.subrange(0, k)] + spec_lines(s.subrange(k + 1, s.len() as int))
        } else {
            seq![s]
        }
    }
}

/// Split a string into its lines.
pub fn split_lines(s: &str) -> (r: Vec<String>)
    ensures
        r.deep_view() == spec_lines(s@),
{
    let mut acc: Vec<String> = Vec::new();
    let n = s.unicode_len();
    let mut pos: usize = 0;
    proof {
        assert(s@.subrange(0, n as int) =~= s@);
        assert(acc.deep_view() =~= Seq::<Seq<char>>::empty());
        assert(Seq::<Seq<char>>::empty() + spec_lines(s@) =~= spec_lines(s@));
    }
    while pos < n
        invariant
            pos <= n,
            n == s@.len(),
            spec_lines(s@) == acc.deep_view() + spec_lines(s@.subrange(pos as int, n as int)),
        decreases n - pos,
    {
        let sub = s.substring_char(pos, n);
        let ghost prev = acc.deep_view();
        match find_char(sub, '\n') {
            Some(k) => {
                proof {
                    lemma_first_index_of(sub@, '\n');
                }
                acc.push(String::from_str(s.substring_char(pos, pos + k)));
                proof {
                    assert(sub@.subrange(0, k as int) =~= s@.subrange(
                        pos as int,
                        pos as int + k as int,
                    ));
                    assert(sub@.subrange(k as int + 1, sub@.len() as int) =~= s@.subrange(
                        pos as int + k + 1,
                        n as int,
                    ));
                    assert(acc.deep_view() =~= prev + seq![sub@.subrange(0, k as int)]);
                    assert(spec_lines(s@.subrange(pos as int, n as int)) == seq![
                        sub@.subrange(0, k as int),
                    ] + spec_lines(s@.subrange(pos as int + k + 1, n as int)));
                    assert(spec_lines(s@) == acc.deep_view() + spec_lines(
                        s@.subrange(pos as int + k + 1, n as int),
                    ));
                }
                pos = pos + k + 1;
            },
            None => {
                proof {
                    lemma_first_index_of(sub@, '\n');
                }
                acc.push(String::from_str(sub));
                proof {
                    assert(acc.deep_view() =~= prev + seq![sub@]);
                    assert(spec_lines(s@.subrange(pos as int, n as int)) == seq![sub@]);
                    assert(s@.subrange(n as int, n as int) =~= Seq::<char>::empty());
                    assert(spec_lines(s@) == acc.deep_view() + spec_lines(
                        s@.subrange(n as int, n as int),
                    ));
                }
                pos = n;
            },
        }
    }
    proof {
        assert(s@.subrange(n as int, n as int) =~= Seq::<char>::empty());
        assert(acc.deep_view() =~= acc.deep_view() + Seq::<Seq<char>>::empty());
    }
    acc
}

/// Whether `list` holds a string equal to `x`.
pub fn string_list_contains(list: &Vec<String>, x: &String) -> (r: bool)
    ensures
        r == list.deep_view().contains(x@),
{
    let n = list.len();
    for i in 0..n
        invariant
            n == list@.len(),
            forall|j: int| 0 <= j < i ==> list.deep_view()[j] != x@,
    {
        if list[i] == *x {
            proof {
                assert(list.deep_view()[i as int] == x@);
            }
            return true;
        }
    }
    proof {
        assert forall|j: int| 0 <= j < list.deep_view().len() implies list.deep_view()[j] != x@ by {}
    }
    false
}

/// The single string that writes each of `lines` followed by `'\n'`.
pub open spec fn spec_unlines(lines: Seq<Seq<char>>) -> Seq<char>
    decreases lines.len(),
{
    if lines.len() == 0 {
        Seq::empty()
    } else {
        spec_unlines(lines.drop_last()) + lines.last() + seq!['\n']
    }
}

/// Join lines back into one string, one `'\n'` after each line.
pub fn render_lines(lines: &Vec<String>) -> (r: String)
    ensures
        r@ == spec_unlines(lines.deep_view()),
{
    let mut out = String::new();
    let n = lines.len();
    for i in 0..n
        invariant
            n == lines@.len(),
            out@ == spec_unlines(lines.deep_view().take(i as int)),
    {
        out.append(lines[i].as_str());
        out.append("\n");
        proof {
            reveal_strlit("\n");
            let dv = lines.deep_view();
            assert(dv.take(i + 1).drop_last() =~= dv.take(i as int));
            assert(dv.take(i + 1).last() == dv[i as int]);
            assert("\n"@ =~= seq!['\n']);
            assert(out@ == spec_unlines(dv.take(i + 1)));
        }
    }
    proof {
        assert(lines.deep_view().take(n as int) =~= lines.deep_view());
    }
    out
}

/// No line of `ls` holds a newline.
pub open spec fn newline_free(ls: Seq<Seq<char>>) -> bool {
    forall|i: int, j: int|
        0 <= i < ls.len() && 0 <= j < ls[i].len() ==> #[trigger] ls[i][j] != '\n'
}

/// A newline-free line written with its terminator splits back off as the
/// first line, the rest untouched.
proof fn lemma_lines_head(l: Seq<char>, rest: Seq<char>)
    requires
        forall|j: int| 0 <= j < l.len() ==> l[j] != '\n',
    ensures
        spec_lines(l + seq!['\n'] + rest) == seq![l] + spec_lines(rest),
{
    let s = l + seq!['\n'] + rest;
    lemma_first_index_at_sep(l, '\n', rest);
    assert(s.subrange(0, l.len() as int) =~= l);
    assert(s.subrange(l.len() as int + 1, s.len() as int) =~= rest);
}

/// `spec_unlines` peels off its first line as well as its last.
proof fn lemma_unlines_head(ls: Seq<Seq<char>>)
    requires
        ls.len() > 0,
    ensures
        spec_unlines(ls) == ls[0] + seq!['\n'] + spec_unlines(ls.subrange(1, ls.len() as int)),
    decreases ls.len(),
{
    if ls.len() == 1 {
        assert(ls.drop_last().len() == 0);
        assert(spec_unlines(ls.drop_last()) == Seq::<char>::empty());
        assert(ls.subrange(1, 1).len() == 0);
        assert(spec_unlines(ls.subrange(1, 1)) == Seq::<char>::empty());
        assert(ls.last() == ls[0]);
        assert(spec_unlines(ls) =~= ls[0] + seq!['\n'] + spec_unlines(ls.subrange(1, 1)));
    } else {
        let dl = ls.drop_last();
        lemma_unlines_head(dl);
        let tail = ls.subrange(1, ls.len() as int);
        assert(tail.drop_last() =~= dl.subrange(1, dl.len() as int));
        assert(tail.last() == ls.last());
        assert(spec_unlines(tail) == spec_unlines(dl.subrange(1, dl.len() as int)) + ls.last()
            + seq!['\n']);
        assert(spec_unlines(ls) == spec_unlines(dl) + ls.last() + seq!['\n']);
        assert(dl[0] == ls[0]);
        assert(spec_unlines(ls) =~= ls[0] + seq!['\n'] + spec_unlines(tail));
    }
}

/// Writing lines with one terminator after each and splitting the result
/// yields the lines back: a rewrite of the record keeps every line intact.
pub proof fn lemma_lines_unlines_roundtrip(ls: Seq<Seq<char>>)
    requires
        newline_free(ls),
    ensures
        spec_lines(spec_unlines(ls)) == ls,
    decreases ls.len(),
{
    if ls.len() == 0 {
        assert(spec_lines(spec_unlines(ls)) =~= ls);
    } else {
        lemma_unlines_head(ls);
        let tail = ls.subrange(1, ls.len() as int);
        lemma_lines_head(ls[0], spec_unlines(tail));
        assert(newline_free(tail)) by {
            assert(forall|i: int| 0 <= i < tail.len() ==> #[trigger] tail[i] == ls[i + 1]);
        }
        lemma_lines_unlines_roundtrip(tail);
        assert(seq![ls[0]] + tail =~= ls);
    }
}

} // verus!
