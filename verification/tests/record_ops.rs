use rip::errors::RipError;
use rip::record::delete_lines_from_record;
use rip::record::get_last_bury;
use rip::record::lines_of_graves;
use rip::record::record_entry;
use rip::record::scan_record;
use rip::record::seance;
use rip::record::write_log;
use rip::record::RecordItem;
use rip::text::render_lines;
use rip::text::split_lines;

fn line(time: &str, orig: &str, dest: &str) -> String {
    format!("{}\t{}\t{}", time, orig, dest)
}

fn item(time: &str, orig: &str, dest: &str) -> RecordItem {
    RecordItem {
        time: String::from(time),
        orig: String::from(orig),
        dest: String::from(dest),
    }
}

#[test]
fn record_entry_parses_three_fields() {
    let entry = record_entry("Mon Jan  1 00:00:00 2024\t/home/u/a.txt\t/tmp/g/home/u/a.txt")
        .expect("well-formed line");
    assert_eq!(entry.time, "Mon Jan  1 00:00:00 2024");
    assert_eq!(entry.orig, "/home/u/a.txt");
    assert_eq!(entry.dest, "/tmp/g/home/u/a.txt");
}

#[test]
fn record_entry_ignores_extra_fields() {
    let entry = record_entry("t\t/a\t/b\textra\tmore").expect("three fields present");
    assert_eq!(entry.time, "t");
    assert_eq!(entry.orig, "/a");
    assert_eq!(entry.dest, "/b");
}

#[test]
fn record_entry_rejects_short_lines() {
    assert!(matches!(record_entry(""), Err(RipError::CorruptRecord)));
    assert!(matches!(record_entry("no tabs here"), Err(RipError::CorruptRecord)));
    assert!(matches!(record_entry("one\tfield"), Err(RipError::CorruptRecord)));
}

#[test]
fn scan_record_reports_the_corrupt_line() {
    let lines = vec![line("t", "/a", "/g/a"), String::from("broken")];
    assert!(matches!(scan_record(&lines), Err(RipError::CorruptRecord)));
    let ok = vec![line("t", "/a", "/g/a"), line("u", "/b", "/g/b")];
    let items = scan_record(&ok).expect("well-formed record");
    assert_eq!(items.len(), 2);
    assert_eq!(items[1].orig, "/b");
}

#[test]
fn write_log_line_parses_back() {
    let l = write_log("/home/u/notes.txt", "/tmp/graveyard-u/home/u/notes.txt");
    let entry = record_entry(l.as_str()).expect("freshly written line");
    assert_eq!(entry.orig, "/home/u/notes.txt");
    assert_eq!(entry.dest, "/tmp/graveyard-u/home/u/notes.txt");
}

// Burying a file then unburying it: the grave path mirrors the original
// under the root, the log gains one line, the unbury lookup finds the
// same file, and removing its entry leaves the log as before.
#[test]
fn bury_then_unbury_scenario() {
    let graveyard = "/tmp/graveyard-u";
    let orig = "/home/u/notes.txt";
    let grave = rip::paths::join_absolute(graveyard, orig);
    assert_eq!(grave, "/tmp/graveyard-u/home/u/notes.txt");

    let mut lines: Vec<String> = Vec::new();
    lines.push(write_log(orig, grave.as_str()));
    assert_eq!(lines.len(), 1);

    // Unbury with no target: the most recent bury, globally.
    let items = scan_record(&lines).expect("fresh record");
    let present = vec![true];
    let (found, stale) = get_last_bury(&items, &present, "/home/u", false);
    assert_eq!(found.as_deref(), Some(grave.as_str()));
    assert!(stale.is_empty());

    // The entries to restore are exactly the new line, and restoring
    // leads back to the original path.
    let graves = vec![grave.clone()];
    let selected = lines_of_graves(&lines, &graves).expect("clean record");
    assert_eq!(selected.len(), 1);
    let entry = record_entry(selected[0].as_str()).expect("selected line");
    assert_eq!(entry.orig, orig);

    // After the unbury the log loses that line and nothing else.
    let kept = delete_lines_from_record(&lines, &graves).expect("clean record");
    assert!(kept.is_empty());
}

#[test]
fn delete_keeps_other_entries_in_order() {
    let lines = vec![
        line("t1", "/a", "/g/a"),
        line("t2", "/b", "/g/b"),
        line("t3", "/c", "/g/c"),
    ];
    let graves = vec![String::from("/g/b")];
    let kept = delete_lines_from_record(&lines, &graves).expect("clean record");
    assert_eq!(kept, vec![line("t1", "/a", "/g/a"), line("t3", "/c", "/g/c")]);
}

#[test]
fn seance_lists_scope_in_record_order() {
    let lines = vec![
        line("t1", "/home/u/a", "/g/home/u/a"),
        line("t2", "/etc/x", "/g/etc/x"),
        line("t3", "/home/u/b", "/g/home/u/b"),
    ];
    let listed = seance(&lines, "/g/home/u").expect("clean record");
    assert_eq!(listed, vec![String::from("/g/home/u/a"), String::from("/g/home/u/b")]);
    // A sibling directory sharing the prefix characters is not in scope.
    let lines2 = vec![line("t", "/x", "/g/home/userette/a")];
    let listed2 = seance(&lines2, "/g/home/u").expect("clean record");
    assert!(listed2.is_empty());
}

// Listing is read-only: repeating it over the unchanged record gives the
// same entries in the same order.
#[test]
fn seance_is_idempotent() {
    let lines = vec![
        line("t1", "/home/u/a", "/g/home/u/a"),
        line("t2", "/home/u/b", "/g/home/u/b"),
    ];
    let first = seance(&lines, "/g").expect("clean record");
    let second = seance(&lines, "/g").expect("clean record");
    assert_eq!(first, second);
}

#[test]
fn seance_fails_on_corrupt_record() {
    let lines = vec![String::from("not a record line")];
    assert!(matches!(seance(&lines, "/g"), Err(RipError::CorruptRecord)));
}

// A grave deleted out-of-band is pruned by the "last bury" lookup and is
// never the result.
#[test]
fn last_bury_prunes_stale_entries() {
    let items = vec![
        item("t1", "/home/u/a", "/g/home/u/a"),
        item("t2", "/home/u/b", "/g/home/u/b"),
    ];
    // The most recent grave is gone from disk.
    let present = vec![true, false];
    let (found, stale) = get_last_bury(&items, &present, "/home/u", false);
    assert_eq!(found.as_deref(), Some("/g/home/u/a"));
    assert_eq!(stale, vec![String::from("/g/home/u/b")]);

    // Pruning drops exactly the stale entry from the log.
    let lines = vec![
        line("t1", "/home/u/a", "/g/home/u/a"),
        line("t2", "/home/u/b", "/g/home/u/b"),
    ];
    let kept = delete_lines_from_record(&lines, &stale).expect("clean record");
    assert_eq!(kept, vec![line("t1", "/home/u/a", "/g/home/u/a")]);
}

#[test]
fn last_bury_local_scope_skips_other_directories() {
    let items = vec![
        item("t1", "/home/u/a", "/g/home/u/a"),
        item("t2", "/etc/x", "/g/etc/x"),
    ];
    let present = vec![true, true];
    // Locally, the /etc entry is out of scope; the /home/u one is found.
    let (found, stale) = get_last_bury(&items, &present, "/home/u", true);
    assert_eq!(found.as_deref(), Some("/g/home/u/a"));
    assert!(stale.is_empty());
    // Out-of-scope entries are not collected as stale even when absent.
    let present2 = vec![true, false];
    let (found2, stale2) = get_last_bury(&items, &present2, "/home/u", true);
    assert_eq!(found2.as_deref(), Some("/g/home/u/a"));
    assert!(stale2.is_empty());
}

// Local scope follows directory boundaries: a sibling user's graves,
// whose names merely share the working directory's characters, stay out
// of scope.
#[test]
fn last_bury_local_scope_respects_component_boundaries() {
    let items = vec![
        item("t1", "/home/u/a", "/g/home/u/a"),
        item("t2", "/home/userette/b", "/g/home/userette/b"),
    ];
    let present = vec![true, true];
    let (found, stale) = get_last_bury(&items, &present, "/home/u", true);
    assert_eq!(found.as_deref(), Some("/g/home/u/a"));
    assert!(stale.is_empty());
}

#[test]
fn last_bury_on_empty_record_finds_nothing() {
    let items: Vec<RecordItem> = Vec::new();
    let present: Vec<bool> = Vec::new();
    let (found, stale) = get_last_bury(&items, &present, "/home/u", false);
    assert!(found.is_none());
    assert!(stale.is_empty());
}

#[test]
fn split_and_render_lines_round_trip() {
    let text = "a\tb\tc\nd\te\tf\n";
    let lines = split_lines(text);
    assert_eq!(lines, vec![String::from("a\tb\tc"), String::from("d\te\tf")]);
    assert_eq!(render_lines(&lines), text);
    assert!(split_lines("").is_empty());
    assert_eq!(split_lines("\n"), vec![String::new()]);
    assert_eq!(split_lines("x"), vec![String::from("x")]);
}
