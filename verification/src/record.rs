//! The grave record: an append-only text log mapping original paths to
//! grave paths.
//!
//! One entry per line, three tab-separated fields:
//! `<timestamp>\t<original_path>\t<grave_path>`.  Appending is the only
//! mutation in the common case; the log is rewritten in full only to drop
//! entries after a successful exhume or when stale entries are pruned.
//!
//! The functions here work on the log as plain values (its lines); reading
//! and writing the log file is the shell's business.

use vstd::prelude::*;

use crate::errors::RipError;
use crate::text::find_char;
use crate::text::first_index_of;
use crate::text::lemma_first_index_of;
use crate::text::path_contains;
use crate::text::spec_path_contains;
use crate::text::spec_path_starts_with;

verus! {

/// A record field may hold neither tab nor newline; paths that do are
/// outside the record format.
pub open spec fn wf_field(s: Seq<char>) -> bool {
    forall|i: int| 0 <= i < s.len() ==> s[i] != '\t' && s[i] != '\n'
}

/// One parsed entry of the record.
pub struct RecordItem {
    /// Display timestamp of the bury; stored, never interpreted.
    pub time: String,
    /// Absolute path the item was buried from.
    pub orig: String,
    /// Absolute path of the grave inside the graveyard.
    pub dest: String,
}

/// The line that records burying `o` at `g` at time `t`.
pub open spec fn spec_record_line(t: Seq<char>, o: Seq<char>, g: Seq<char>) -> Seq<char> {
    t + seq!['\t'] + o + seq!['\t'] + g
}

/// Parse a line into its three fields: the text before the first tab, the
/// text between the first and second tab, and the text from there to the
/// third tab or the end.  A line with fewer than two tabs is corrupt.
pub open spec fn spec_parse_line(l: Seq<char>) -> Option<(Seq<char>, Seq<char>, Seq<char>)> {
    let t1 = first_index_of(l, '\t');
    if t1 < 0 {
        None
    } else {
        let rest1 = l.subrange(t1 + 1, l.len() as int);
        let t2 = first_index_of(rest1, '\t');
        if t2 < 0 {
            None
        } else {
            let rest2 = rest1.subrange(t2 + 1, rest1.len() as int);
            let t3 = first_index_of(rest2, '\t');
            let g = if t3 < 0 {
                rest2
            } else {
                rest2.subrange(0, t3)
            };
            Some((l.subrange(0, t1), rest1.subrange(0, t2), g))
        }
    }
}

/// The line parses into three fields.
pub open spec fn spec_line_ok(l: Seq<char>) -> bool {
    spec_parse_line(l) is Some
}

/// The grave-path field of a line (empty for a corrupt line).
pub open spec fn spec_line_dest(l: Seq<char>) -> Seq<char> {
    match spec_parse_line(l) {
        Some(f) => f.2,
        None => Seq::empty(),
    }
}

/// The original-path field of a line (empty for a corrupt line).
pub open spec fn spec_line_orig(l: Seq<char>) -> Seq<char> {
    match spec_parse_line(l) {
        Some(f) => f.1,
        None => Seq::empty(),
    }
}

/// Parse a line in the record into a `RecordItem`.
pub fn record_entry(line: &str) -> (r: Result<RecordItem, RipError>)
    ensures
        match r {
            Ok(item) => spec_parse_line(line@) == Some((item.time@, item.orig@, item.dest@)),
            Err(e) => !spec_line_ok(line@) && e == RipError::CorruptRecord,
        },
{
    let n = line.unicode_len();
    proof {
        lemma_first_index_of(line@, '\t');
    }
    match find_char(line, '\t') {
        None => Err(RipError::CorruptRecord),
        Some(t1) => {
            let rest1 = line.substring_char(t1 + 1, n);
            let m = rest1.unicode_len();
            proof {
                lemma_first_index_of(rest1@, '\t');
            }
            match find_char(rest1, '\t') {
                None => Err(RipError::CorruptRecord),
                Some(t2) => {
                    let rest2 = rest1.substring_char(t2 + 1, m);
                    proof {
                        lemma_first_index_of(rest2@, '\t');
                    }
                    let dest = match find_char(rest2, '\t') {
                        None => String::from_str(rest2),
                        Some(t3) => String::from_str(rest2.substring_char(0, t3)),
                    };
                    let item = RecordItem {
                        time: String::from_str(line.substring_char(0, t1)),
                        orig: String::from_str(rest1.substring_char(0, t2)),
                        dest,
                    };
                    Ok(item)
                },
            }
        },
    }
}

/// Parse the whole record, entry by entry, in order.
pub fn scan_record(lines: &Vec<String>) -> (r: Result<Vec<RecordItem>, RipError>)
    ensures
        match r {
            Ok(items) => {
                &&& items@.len() == lines@.len()
                &&& forall|i: int|
                    0 <= i < lines@.len() ==> spec_parse_line(#[trigger] lines.deep_view()[i])
                        == Some((items@[i].time@, items@[i].orig@, items@[i].dest@))
            },
            Err(e) => {
                &&& e == RipError::CorruptRecord
                &&& exists|i: int|
                    0 <= i < lines@.len() && !spec_line_ok(#[trigger] lines.deep_view()[i])
            },
        },
{
    let mut items: Vec<RecordItem> = Vec::new();
    let n = lines.len();
    for i in 0..n
        invariant
            n == lines@.len(),
            items@.len() == i,
            forall|j: int|
                0 <= j < i ==> spec_parse_line(#[trigger] lines.deep_view()[j]) == Some(
                    (items@[j].time@, items@[j].orig@, items@[j].dest@),
                ),
    {
        match record_entry(lines[i].as_str()) {
            Ok(item) => {
                items.push(item);
            },
            Err(e) => {
                proof {
                    assert(!spec_line_ok(lines.deep_view()[i as int]));
                }
                return Err(e);
            },
        }
    }
    Ok(items)
}

/// A tab-free field followed by a tab puts the first tab exactly at the
/// end of the field.
proof fn lemma_first_tab_at_sep(s1: Seq<char>, tail: Seq<char>)
    requires
        wf_field(s1),
    ensures
        first_index_of(s1 + seq!['\t'] + tail, '\t') == s1.len(),
{
    crate::text::lemma_first_index_at_sep(s1, '\t', tail);
}

/// A tab-free string has no first tab.
proof fn lemma_no_tab(s: Seq<char>)
    requires
        wf_field(s),
    ensures
        first_index_of(s, '\t') == -1,
{
    lemma_first_index_of(s, '\t');
    if first_index_of(s, '\t') >= 0 {
        assert(s[first_index_of(s, '\t')] == '\t');
    }
}

/// Formatting a record line from tab-free fields and parsing it back
/// yields exactly those fields.
pub proof fn lemma_record_line_roundtrip(t: Seq<char>, o: Seq<char>, g: Seq<char>)
    requires
        wf_field(t),
        wf_field(o),
        wf_field(g),
    ensures
        spec_parse_line(spec_record_line(t, o, g)) == Some((t, o, g)),
{
    let l = spec_record_line(t, o, g);
    let tail1 = o + seq!['\t'] + g;
    assert(l =~= t + seq!['\t'] + tail1);
    lemma_first_tab_at_sep(t, tail1);
    let t1 = first_index_of(l, '\t');
    assert(t1 == t.len());
    let rest1 = l.subrange(t1 + 1, l.len() as int);
    assert(rest1 =~= tail1);
    lemma_first_tab_at_sep(o, g);
    let t2 = first_index_of(rest1, '\t');
    assert(t2 == o.len());
    let rest2 = rest1.subrange(t2 + 1, rest1.len() as int);
    assert(rest2 =~= g);
    lemma_no_tab(g);
    assert(l.subrange(0, t1) =~= t);
    assert(rest1.subrange(0, t2) =~= o);
}

/// Relies on chrono's `Local::now` and its format pattern
/// `%a %b %e %T %Y`: the output is built of weekday and month names,
/// digits, spaces and colons, and so never holds a tab or newline.
#[verifier::external_body]
fn now_string() -> (r: String)
    ensures
        wf_field(r@),
{
    chrono::offset::Local::now().format("%a %b %e %T %Y").to_string()
}

/// The record line for burying `source` at `dest`, timestamped now.
///
/// Parsing the line back yields `source` and `dest` exactly — this is
/// what keeps a bury recoverable — and the line holds no newline, so it
/// stays one line of the log file.
pub fn write_log(source: &str, dest: &str) -> (line: String)
    requires
        wf_field(source@),
        wf_field(dest@),
    ensures
        spec_line_ok(line@),
        spec_line_orig(line@) == source@,
        spec_line_dest(line@) == dest@,
        forall|i: int| 0 <= i < line@.len() ==> line@[i] != '\n',
{
    let t = now_string();
    let line = t.concat("\t").concat(source).concat("\t").concat(dest);
    proof {
        reveal_strlit("\t");
        assert("\t"@ =~= seq!['\t']);
        assert(line@ =~= spec_record_line(t@, source@, dest@));
        lemma_record_line_roundtrip(t@, source@, dest@);
        assert forall|i: int| 0 <= i < line@.len() implies line@[i] != '\n' by {
            let tl = t@.len() as int;
            let sl = source@.len() as int;
            if i < tl {
                assert(line@[i] == t@[i]);
            } else if i == tl {
                assert(line@[i] == '\t');
            } else if i < tl + 1 + sl {
                assert(line@[i] == source@[i - tl - 1]);
            } else if i == tl + 1 + sl {
                assert(line@[i] == '\t');
            } else {
                assert(line@[i] == dest@[i - tl - sl - 2]);
            }
        }
    }
    line
}

/// Appending `x` to a sequence filters to the old result, plus `x` itself
/// when it satisfies the predicate.
proof fn lemma_filter_push<A>(s: Seq<A>, x: A, pred: spec_fn(A) -> bool)
    ensures
        (s.push(x)).filter(pred) == if pred(x) {
            s.filter(pred).push(x)
        } else {
            s.filter(pred)
        },
{
    reveal(Seq::filter);
    assert((s.push(x)).drop_last() =~= s);
    assert((s.push(x)).last() == x);
}

/// Filtering keeps everything when the predicate holds throughout.
proof fn lemma_filter_all<A>(s: Seq<A>, pred: spec_fn(A) -> bool)
    requires
        forall|i: int| 0 <= i < s.len() ==> pred(#[trigger] s[i]),
    ensures
        s.filter(pred) == s,
    decreases s.len(),
{
    reveal(Seq::filter);
    if s.len() > 0 {
        assert(forall|i: int| 0 <= i < s.len() - 1 ==> s.drop_last()[i] == s[i]);
        lemma_filter_all(s.drop_last(), pred);
        assert(s.drop_last().filter(pred).push(s.last()) =~= s);
    }
}

/// Filtering keeps nothing when the predicate fails throughout.
proof fn lemma_filter_empty<A>(s: Seq<A>, pred: spec_fn(A) -> bool)
    requires
        forall|i: int| 0 <= i < s.len() ==> !pred(#[trigger] s[i]),
    ensures
        s.filter(pred) == Seq::<A>::empty(),
    decreases s.len(),
{
    reveal(Seq::filter);
    if s.len() > 0 {
        assert(forall|i: int| 0 <= i < s.len() - 1 ==> s.drop_last()[i] == s[i]);
        lemma_filter_empty(s.drop_last(), pred);
    }
}

/// The grave path of `l` is one of `graves`.
pub open spec fn spec_dest_matches(l: Seq<char>, graves: Seq<Seq<char>>) -> bool {
    graves.contains(spec_line_dest(l))
}

/// The record lines whose grave path is one of `graves`: the entries an
/// unbury of those graves will restore, in record order.
pub fn lines_of_graves(lines: &Vec<String>, graves: &Vec<String>) -> (r: Result<
    Vec<String>,
    RipError,
>)
    ensures
        match r {
            Ok(sel) => {
                &&& forall|i: int|
                    0 <= i < lines@.len() ==> spec_line_ok(#[trigger] lines.deep_view()[i])
                &&& sel.deep_view() == lines.deep_view().filter(
                    |l: Seq<char>| spec_dest_matches(l, graves.deep_view()),
                )
            },
            Err(e) => {
                &&& e == RipError::CorruptRecord
                &&& exists|i: int|
                    0 <= i < lines@.len() && !spec_line_ok(#[trigger] lines.deep_view()[i])
            },
        },
{
    let ghost pred = |l: Seq<char>| spec_dest_matches(l, graves.deep_view());
    let mut sel: Vec<String> = Vec::new();
    let n = lines.len();
    proof {
        assert(lines.deep_view().take(0) =~= Seq::<Seq<char>>::empty());
        lemma_filter_empty(Seq::<Seq<char>>::empty(), pred);
        assert(sel.deep_view() =~= Seq::<Seq<char>>::empty());
    }
    for i in 0..n
        invariant
            n == lines@.len(),
            pred == (|l: Seq<char>| spec_dest_matches(l, graves.deep_view())),
            forall|j: int| 0 <= j < i ==> spec_line_ok(#[trigger] lines.deep_view()[j]),
            sel.deep_view() == lines.deep_view().take(i as int).filter(pred),
    {
        let line = &lines[i];
        match record_entry(line.as_str()) {
            Err(e) => {
                proof {
                    assert(!spec_line_ok(lines.deep_view()[i as int]));
                }
                return Err(e);
            },
            Ok(item) => {
                let ghost prev = sel.deep_view();
                if crate::text::string_list_contains(graves, &item.dest) {
                    sel.push(line.clone());
                    proof {
                        assert(sel.deep_view() =~= prev.push(line@));
                    }
                } else {
                }
                proof {
                    let dv = lines.deep_view();
                    assert(dv.take(i + 1).drop_last() =~= dv.take(i as int));
                    assert(dv.take(i + 1) =~= dv.take(i as int).push(dv[i as int]));
                    assert(spec_line_dest(dv[i as int]) == item.dest@);
                    lemma_filter_push(dv.take(i as int), dv[i as int], pred);
                }
            },
        }
    }
    proof {
        assert(lines.deep_view().take(n as int) =~= lines.deep_view());
    }
    Ok(sel)
}

/// The record with every entry for `graves` removed: what the log must
/// hold after those graves are exhumed.  Every other line survives,
/// unchanged and in order.
pub fn delete_lines_from_record(lines: &Vec<String>, graves: &Vec<String>) -> (r: Result<
    Vec<String>,
    RipError,
>)
    ensures
        match r {
            Ok(kept) => {
                &&& forall|i: int|
                    0 <= i < lines@.len() ==> spec_line_ok(#[trigger] lines.deep_view()[i])
                &&& kept.deep_view() == lines.deep_view().filter(
                    |l: Seq<char>| !spec_dest_matches(l, graves.deep_view()),
                )
            },
            Err(e) => {
                &&& e == RipError::CorruptRecord
                &&& exists|i: int|
                    0 <= i < lines@.len() && !spec_line_ok(#[trigger] lines.deep_view()[i])
            },
        },
{
    let ghost pred = |l: Seq<char>| !spec_dest_matches(l, graves.deep_view());
    let mut kept: Vec<String> = Vec::new();
    let n = lines.len();
    proof {
        assert(lines.deep_view().take(0) =~= Seq::<Seq<char>>::empty());
        lemma_filter_empty(Seq::<Seq<char>>::empty(), pred);
        assert(kept.deep_view() =~= Seq::<Seq<char>>::empty());
    }
    for i in 0..n
        invariant
            n == lines@.len(),
            pred == (|l: Seq<char>| !spec_dest_matches(l, graves.deep_view())),
            forall|j: int| 0 <= j < i ==> spec_line_ok(#[trigger] lines.deep_view()[j]),
            kept.deep_view() == lines.deep_view().take(i as int).filter(pred),
    {
        let line = &lines[i];
        match record_entry(line.as_str()) {
            Err(e) => {
                proof {
                    assert(!spec_line_ok(lines.deep_view()[i as int]));
                }
                return Err(e);
            },
            Ok(item) => {
                let ghost prev = kept.deep_view();
                if !crate::text::string_list_contains(graves, &item.dest) {
                    kept.push(line.clone());
                    proof {
                        assert(kept.deep_view() =~= prev.push(line@));
                    }
                } else {
                }
                proof {
                    let dv = lines.deep_view();
                    assert(dv.take(i + 1).drop_last() =~= dv.take(i as int));
                    assert(dv.take(i + 1) =~= dv.take(i as int).push(dv[i as int]));
                    assert(spec_line_dest(dv[i as int]) == item.dest@);
                    lemma_filter_push(dv.take(i as int), dv[i as int], pred);
                }
            },
        }
    }
    proof {
        assert(lines.deep_view().take(n as int) =~= lines.deep_view());
    }
    Ok(kept)
}

/// The graves listed by a seance over `scope`: the grave path of every
/// entry lying under the scope directory, in record order.
pub open spec fn spec_seance(ls: Seq<Seq<char>>, scope: Seq<char>) -> Seq<Seq<char>> {
    ls.filter(|l: Seq<char>| spec_path_starts_with(spec_line_dest(l), scope)).map_values(
        |l: Seq<char>| spec_line_dest(l),
    )
}

/// All graves in the record that lie under `gravepath`.  Read-only: the
/// record is not altered, so an unchanged record always lists the same
/// graves in the same order.
pub fn seance(lines: &Vec<String>, gravepath: &str) -> (r: Result<Vec<String>, RipError>)
    ensures
        match r {
            Ok(sel) => {
                &&& forall|i: int|
                    0 <= i < lines@.len() ==> spec_line_ok(#[trigger] lines.deep_view()[i])
                &&& sel.deep_view() == spec_seance(lines.deep_view(), gravepath@)
            },
            Err(e) => {
                &&& e == RipError::CorruptRecord
                &&& exists|i: int|
                    0 <= i < lines@.len() && !spec_line_ok(#[trigger] lines.deep_view()[i])
            },
        },
{
    let ghost pred = |l: Seq<char>| spec_path_starts_with(spec_line_dest(l), gravepath@);
    let ghost dest_of = |l: Seq<char>| spec_line_dest(l);
    let mut sel: Vec<String> = Vec::new();
    let n = lines.len();
    proof {
        assert(lines.deep_view().take(0) =~= Seq::<Seq<char>>::empty());
        lemma_filter_empty(Seq::<Seq<char>>::empty(), pred);
        assert(sel.deep_view() =~= Seq::<Seq<char>>::empty());
        assert(Seq::<Seq<char>>::empty().map_values(dest_of) =~= Seq::<Seq<char>>::empty());
    }
    for i in 0..n
        invariant
            n == lines@.len(),
            pred == (|l: Seq<char>| spec_path_starts_with(spec_line_dest(l), gravepath@)),
            dest_of == (|l: Seq<char>| spec_line_dest(l)),
            forall|j: int| 0 <= j < i ==> spec_line_ok(#[trigger] lines.deep_view()[j]),
            sel.deep_view() == lines.deep_view().take(i as int).filter(pred).map_values(dest_of),
    {
        let line = &lines[i];
        match record_entry(line.as_str()) {
            Err(e) => {
                proof {
                    assert(!spec_line_ok(lines.deep_view()[i as int]));
                }
                return Err(e);
            },
            Ok(item) => {
                let ghost prev = sel.deep_view();
                if crate::text::path_starts_with(item.dest.as_str(), gravepath) {
                    let ghost d = item.dest@;
                    sel.push(item.dest);
                    proof {
                        assert(sel.deep_view() =~= prev.push(d));
                    }
                } else {
                }
                proof {
                    let dv = lines.deep_view();
                    assert(dv.take(i + 1).drop_last() =~= dv.take(i as int));
                    assert(dv.take(i + 1) =~= dv.take(i as int).push(dv[i as int]));
                    assert(spec_line_dest(dv[i as int]) == item.dest@);
                    lemma_filter_push(dv.take(i as int), dv[i as int], pred);
                    if pred(dv[i as int]) {
                        assert(dv.take(i + 1).filter(pred).map_values(dest_of) =~= dv.take(
                            i as int,
                        ).filter(pred).map_values(dest_of).push(spec_line_dest(dv[i as int])));
                    }
                }
            },
        }
    }
    proof {
        assert(lines.deep_view().take(n as int) =~= lines.deep_view());
    }
    Ok(sel)
}

/// Whether a grave path is in scope for a "last bury" lookup: always, for
/// a global lookup; for a local one, only when it passes through the
/// working directory — the directory occurs in the grave path as a whole
/// run of components, which is how a grave under the directory's mirror
/// inside the graveyard looks.
pub open spec fn spec_in_scope(dest: Seq<char>, cwd: Seq<char>, local: bool) -> bool {
    !local || spec_path_contains(dest, cwd)
}

/// Scan entries from the most recent backwards: the result is the last
/// in-scope grave that is still present, and the list of in-scope graves
/// that were found missing on the way (most recent first).
pub open spec fn spec_last_bury(
    dests: Seq<Seq<char>>,
    present: Seq<bool>,
    cwd: Seq<char>,
    local: bool,
) -> (Option<Seq<char>>, Seq<Seq<char>>)
    decreases dests.len(),
{
    if dests.len() == 0 {
        (None, Seq::empty())
    } else {
        let d = dests.last();
        if spec_in_scope(d, cwd, local) {
            if present.last() {
                (Some(d), Seq::empty())
            } else {
                let rest = spec_last_bury(dests.drop_last(), present.drop_last(), cwd, local);
                (rest.0, seq![d] + rest.1)
            }
        } else {
            spec_last_bury(dests.drop_last(), present.drop_last(), cwd, local)
        }
    }
}

/// The grave paths of a parsed record, in record order.
pub open spec fn spec_dests_of(items: Seq<RecordItem>) -> Seq<Seq<char>> {
    items.map_values(|it: RecordItem| it.dest@)
}

/// Return the grave path of the last buried item that is still on disk,
/// scanning the record from its end.
///
/// `present` holds, for each entry, whether its grave path currently
/// exists on disk.  Entries that are in scope but whose grave is gone are
/// handed back as the stale list, for the caller to prune from the record;
/// a local lookup ignores (and keeps) entries outside the working
/// directory.
pub fn get_last_bury(items: &Vec<RecordItem>, present: &Vec<bool>, cwd: &str, local: bool) -> (r: (
    Option<String>,
    Vec<String>,
))
    requires
        items@.len() == present@.len(),
    ensures
        ({
            let sr = spec_last_bury(spec_dests_of(items@), present@, cwd@, local);
            &&& match r.0 {
                Some(d) => sr.0 == Some(d@),
                None => sr.0 is None,
            }
            &&& r.1.deep_view() == sr.1
        }),
{
    let mut stale: Vec<String> = Vec::new();
    let mut idx = items.len();
    proof {
        assert(spec_dests_of(items@).take(idx as int) =~= spec_dests_of(items@));
        assert(present@.take(idx as int) =~= present@);
        assert(stale.deep_view() =~= Seq::<Seq<char>>::empty());
    }
    while idx > 0
        invariant
            idx <= items@.len(),
            items@.len() == present@.len(),
            ({
                let full = spec_last_bury(spec_dests_of(items@), present@, cwd@, local);
                let sub = spec_last_bury(
                    spec_dests_of(items@).take(idx as int),
                    present@.take(idx as int),
                    cwd@,
                    local,
                );
                full.0 == sub.0 && full.1 == stale.deep_view() + sub.1
            }),
        decreases idx,
    {
        let i = idx - 1;
        let item = &items[i];
        let ghost dests = spec_dests_of(items@);
        proof {
            assert(dests.take(idx as int).drop_last() =~= dests.take(i as int));
            assert(present@.take(idx as int).drop_last() =~= present@.take(i as int));
            assert(dests.take(idx as int).last() == item.dest@);
            assert(present@.take(idx as int).last() == present@[i as int]);
        }
        let in_scope = if local {
            path_contains(item.dest.as_str(), cwd)
        } else {
            true
        };
        if in_scope {
            if present[i] {
                proof {
                    let sub = spec_last_bury(
                        dests.take(idx as int),
                        present@.take(idx as int),
                        cwd@,
                        local,
                    );
                    assert(sub.0 == Some(item.dest@));
                    assert(stale.deep_view() + sub.1 =~= stale.deep_view());
                }
                return (Some(item.dest.clone()), stale);
            } else {
                let ghost prev = stale.deep_view();
                stale.push(item.dest.clone());
                proof {
                    assert(stale.deep_view() =~= prev.push(item.dest@));
                    let sub_prev = spec_last_bury(
                        dests.take(i as int),
                        present@.take(i as int),
                        cwd@,
                        local,
                    );
                    assert(prev + (seq![item.dest@] + sub_prev.1) =~= stale.deep_view()
                        + sub_prev.1);
                }
            }
        } else {
        }
        idx = i;
    }
    proof {
        assert(spec_dests_of(items@).take(0) =~= Seq::<Seq<char>>::empty());
        assert(present@.take(0) =~= Seq::<bool>::empty());
        assert(stale.deep_view() + Seq::<Seq<char>>::empty() =~= stale.deep_view());
    }
    (None, stale)
}

/// Round trip, at the record level: burying appends one line; the entries
/// selected when unburying that grave are exactly that line, whose
/// original-path field leads back to where the item came from; and
/// removing them restores the record exactly as it was before the bury.
///
/// The freshness condition — no earlier entry already claims the grave
/// path — is what conflict resolution establishes before every bury.
pub proof fn lemma_bury_unbury_roundtrip(
    lines: Seq<Seq<char>>,
    t: Seq<char>,
    o: Seq<char>,
    g: Seq<char>,
)
    requires
        wf_field(t),
        wf_field(o),
        wf_field(g),
        forall|i: int| 0 <= i < lines.len() ==> spec_line_dest(#[trigger] lines[i]) != g,
    ensures
        ({
            let line = spec_record_line(t, o, g);
            let after = lines.push(line);
            &&& spec_line_ok(line)
            &&& spec_line_orig(line) == o
            &&& spec_line_dest(line) == g
            &&& after.filter(|l: Seq<char>| spec_dest_matches(l, seq![g])) == seq![line]
            &&& after.filter(|l: Seq<char>| !spec_dest_matches(l, seq![g])) == lines
        }),
{
    lemma_record_line_roundtrip(t, o, g);
    let line = spec_record_line(t, o, g);
    let selp = |l: Seq<char>| spec_dest_matches(l, seq![g]);
    let keepp = |l: Seq<char>| !spec_dest_matches(l, seq![g]);
    assert(seq![g][0] == g);
    assert(selp(line));
    assert forall|i: int| 0 <= i < lines.len() implies !selp(lines[i]) by {
        if selp(lines[i]) {
            let k = choose|k: int|
                0 <= k < seq![g].len() && seq![g][k] == spec_line_dest(lines[i]);
            assert(seq![g][k] == g);
        }
    }
    lemma_filter_empty(lines, selp);
    lemma_filter_push(lines, line, selp);
    assert(Seq::<Seq<char>>::empty().push(line) =~= seq![line]);
    lemma_filter_all(lines, keepp);
    lemma_filter_push(lines, line, keepp);
}

/// Record consistency: after a successful bury exactly one entry carries
/// the new grave path, and removing that grave removes only its entry,
/// leaving every other line unchanged and in order.
///
/// The freshness hypothesis — no existing line already claims the grave
/// path — is what conflict resolution establishes against the live disk.
/// A grave deleted out-of-band and not yet pruned leaves its line behind;
/// a later bury that reuses the freed path would then share it between
/// two lines, and this count would not hold of such a record.
pub proof fn lemma_record_consistency(
    lines: Seq<Seq<char>>,
    t: Seq<char>,
    o: Seq<char>,
    g: Seq<char>,
)
    requires
        wf_field(t),
        wf_field(o),
        wf_field(g),
        forall|i: int| 0 <= i < lines.len() ==> spec_line_dest(#[trigger] lines[i]) != g,
    ensures
        ({
            let line = spec_record_line(t, o, g);
            let after = lines.push(line);
            &&& after.filter(|l: Seq<char>| spec_dest_matches(l, seq![g])).len() == 1
            &&& after.filter(|l: Seq<char>| !spec_dest_matches(l, seq![g])) == lines
        }),
{
    lemma_bury_unbury_roundtrip(lines, t, o, g);
}

/// Idempotent listing: a seance reads the record and changes nothing, so
/// its outcome is a function of the record and the scope alone — two
/// listings of the same unchanged record agree, entry for entry, in order.
pub proof fn lemma_seance_idempotent(
    lines: Seq<Seq<char>>,
    scope: Seq<char>,
    a: Seq<Seq<char>>,
    b: Seq<Seq<char>>,
)
    requires
        a == spec_seance(lines, scope),
        b == spec_seance(lines, scope),
    ensures
        a == b,
{
}

/// Stale pruning: when presence on disk is a function of the grave path,
/// a "last bury" scan never returns a grave it collected as stale; every
/// collected grave was indeed missing, and a returned grave is present.
pub proof fn lemma_stale_pruning(
    dests: Seq<Seq<char>>,
    present: Seq<bool>,
    cwd: Seq<char>,
    local: bool,
)
    requires
        dests.len() == present.len(),
        forall|i: int, j: int|
            0 <= i < dests.len() && 0 <= j < dests.len() && #[trigger] dests[i]
                == #[trigger] dests[j] ==> present[i] == present[j],
    ensures
        ({
            let r = spec_last_bury(dests, present, cwd, local);
            &&& forall|k: int|
                0 <= k < r.1.len() ==> exists|j: int|
                    0 <= j < dests.len() && #[trigger] dests[j] == #[trigger] r.1[k]
                        && !present[j]
            &&& match r.0 {
                Some(d) => (exists|j: int|
                    0 <= j < dests.len() && #[trigger] dests[j] == d && present[j])
                    && !r.1.contains(d),
                None => true,
            }
        }),
    decreases dests.len(),
{
    if dests.len() == 0 {
    } else {
        let d = dests.last();
        let n = dests.len() - 1;
        let dd = dests.drop_last();
        let pp = present.drop_last();
        assert(forall|i: int| 0 <= i < dd.len() ==> #[trigger] dd[i] == dests[i]);
        assert(forall|i: int| 0 <= i < pp.len() ==> #[trigger] pp[i] == present[i]);
        let r = spec_last_bury(dests, present, cwd, local);
        if spec_in_scope(d, cwd, local) && present.last() {
            assert(dests[n] == d && present[n]);
        } else {
            assert forall|i: int, j: int|
                0 <= i < dd.len() && 0 <= j < dd.len() && #[trigger] dd[i] == #[trigger] dd[j]
                implies pp[i] == pp[j] by {
                assert(dests[i] == dests[j]);
            }
            lemma_stale_pruning(dd, pp, cwd, local);
            let rr = spec_last_bury(dd, pp, cwd, local);
            if spec_in_scope(d, cwd, local) {
                assert(r.0 == rr.0 && r.1 == seq![d] + rr.1);
                assert forall|k: int| 0 <= k < r.1.len() implies exists|j: int|
                    0 <= j < dests.len() && #[trigger] dests[j] == #[trigger] r.1[k]
                        && !present[j] by {
                    if k == 0 {
                        assert(r.1[0] == d);
                        assert(dests[n] == d && !present[n]);
                    } else {
                        assert(r.1[k] == rr.1[k - 1]);
                        let j = choose|j: int|
                            0 <= j < dd.len() && #[trigger] dd[j] == rr.1[k - 1] && !pp[j];
                        assert(dests[j] == r.1[k] && !present[j]);
                    }
                }
                match r.0 {
                    Some(d0) => {
                        let j0 = choose|j: int|
                            0 <= j < dd.len() && #[trigger] dd[j] == d0 && pp[j];
                        assert(dests[j0] == d0 && present[j0]);
                        assert(d0 != d) by {
                            if d0 == d {
                                assert(dests[j0] == dests[n]);
                                assert(present[j0] == present[n]);
                            }
                        }
                        assert(!r.1.contains(d0)) by {
                            if r.1.contains(d0) {
                                let k = choose|k: int| 0 <= k < r.1.len() && r.1[k] == d0;
                                if k == 0 {
                                    assert(r.1[0] == d);
                                } else {
                                    assert(rr.1[k - 1] == d0);
                                    assert(rr.1.contains(d0));
                                }
                            }
                        }
                    },
                    None => {},
                }
            } else {
                assert(r == rr);
                assert forall|k: int| 0 <= k < r.1.len() implies exists|j: int|
                    0 <= j < dests.len() && #[trigger] dests[j] == #[trigger] r.1[k]
                        && !present[j] by {
                    let j = choose|j: int|
                        0 <= j < dd.len() && #[trigger] dd[j] == rr.1[k] && !pp[j];
                    assert(dests[j] == r.1[k] && !present[j]);
                }
                match r.0 {
                    Some(d0) => {
                        let j0 = choose|j: int|
                            0 <= j < dd.len() && #[trigger] dd[j] == d0 && pp[j];
                        assert(dests[j0] == d0 && present[j0]);
                    },
                    None => {},
                }
            }
        }
    }
}

} // verus!
