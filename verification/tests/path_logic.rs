use rip::errors::RipError;
use rip::glob::glob_walk;
use rip::glob::has_glob_chars;
use rip::mover::copy_method;
use rip::mover::file_type_label;
use rip::mover::is_big_file;
use rip::mover::orphan_dest;
use rip::mover::CopyMethod;
use rip::mover::FileKind;
use rip::mover::BIG_FILE_THRESHOLD;
use rip::ops::build_exhume_candidates;
use rip::ops::default_graveyard;
use rip::ops::grave_display;
use rip::ops::record_path;
use rip::ops::resolve_unbury_target;
use rip::ops::shorten_grave;
use rip::ops::xdg_graveyard;
use rip::paths::join_absolute;
use rip::paths::parent_file_exists;
use rip::paths::path_ancestors;
use rip::paths::rename_grave;
use rip::text::path_contains;
use rip::text::path_starts_with;
use rip::text::str_contains;
use rip::text::str_starts_with;
use rip::util::humanize_bytes;

#[test]
fn join_absolute_mirrors_absolute_paths() {
    assert_eq!(
        join_absolute("/tmp/graveyard-u", "/home/u/notes.txt"),
        "/tmp/graveyard-u/home/u/notes.txt"
    );
    assert_eq!(join_absolute("/g", "relative/p"), "/g/relative/p");
    assert_eq!(join_absolute("/g/", "/a"), "/g/a");
    assert_eq!(join_absolute("", "/a"), "a");
    assert_eq!(join_absolute("/g", ""), "/g");
}

// Burying the same file twice without unburying: the second grave gets
// the first numbered suffix.
#[test]
fn second_bury_gets_numbered_suffix() {
    let graveyard = "/tmp/graveyard-u";
    let first = join_absolute(graveyard, "/home/u/draft.txt");
    assert_eq!(first, "/tmp/graveyard-u/home/u/draft.txt");
    let taken = vec![first.clone()];
    let second = rename_grave(first.as_str(), &taken);
    assert_eq!(second, "/tmp/graveyard-u/home/u/draft.txt~1");
}

#[test]
fn rename_grave_skips_every_taken_variant() {
    let taken = vec![
        String::from("/g/a"),
        String::from("/g/a~1"),
        String::from("/g/a~2"),
    ];
    assert_eq!(rename_grave("/g/a", &taken), "/g/a~3");
    let none_taken: Vec<String> = Vec::new();
    assert_eq!(rename_grave("/g/a", &none_taken), "/g/a~1");
}

// A run of buries of equally named files: every resolved grave is new at
// its time, so all stay distinct and independently recoverable.
#[test]
fn conflict_chain_stays_distinct() {
    let mut taken: Vec<String> = vec![String::from("/g/home/u/draft.txt")];
    let mut picks: Vec<String> = Vec::new();
    for _ in 0..3 {
        let pick = rename_grave("/g/home/u/draft.txt", &taken);
        assert!(!taken.contains(&pick));
        taken.push(pick.clone());
        picks.push(pick);
    }
    assert_eq!(
        picks,
        vec![
            String::from("/g/home/u/draft.txt~1"),
            String::from("/g/home/u/draft.txt~2"),
            String::from("/g/home/u/draft.txt~3"),
        ]
    );
}

#[test]
fn ancestors_walk_to_the_root() {
    assert_eq!(
        path_ancestors("/a/b/c"),
        vec![
            String::from("/a/b/c"),
            String::from("/a/b"),
            String::from("/a"),
            String::from("/")
        ]
    );
    assert_eq!(path_ancestors("/"), vec![String::from("/")]);
    assert_eq!(path_ancestors("plain"), vec![String::from("plain")]);
}

#[test]
fn parent_file_exists_finds_first_blocking_ancestor() {
    // Ancestors of /a/b/c are [/a/b/c, /a/b, /a, /]; the flags say /a/b
    // exists as a plain file.
    let flags = vec![false, true, false, false];
    assert_eq!(parent_file_exists("/a/b/c", &flags).as_deref(), Some("/a/b"));
    let clear = vec![false, false, false, false];
    assert!(parent_file_exists("/a/b/c", &clear).is_none());
}

#[test]
fn orphan_dest_mirrors_tree_entries() {
    assert_eq!(
        orphan_dest("/src/dir", "/dst/dir", "/src/dir/sub/f").as_deref(),
        Some("/dst/dir/sub/f")
    );
    // The walked root itself lands at the destination root.
    assert_eq!(orphan_dest("/src/dir", "/dst/dir", "/src/dir").as_deref(), Some("/dst/dir"));
    assert!(orphan_dest("/src/dir", "/dst/dir", "/elsewhere/f").is_none());
}

// Mirroring an entry into the grave tree and mirroring it back restores
// its path: what keeps a buried directory's structure recoverable.
#[test]
fn tree_entries_mirror_back() {
    let f = orphan_dest("/src/dir", "/dst/dir", "/src/dir/sub/f").expect("entry under source");
    assert_eq!(
        orphan_dest("/dst/dir", "/src/dir", &f).as_deref(),
        Some("/src/dir/sub/f")
    );
}

#[test]
fn prefix_tests_respect_component_boundaries() {
    assert!(str_starts_with("/g/home", "/g"));
    assert!(path_starts_with("/g/home", "/g"));
    assert!(path_starts_with("/g", "/g"));
    // Character prefix but not a component boundary.
    assert!(str_starts_with("/graveyard2/x", "/graveyard"));
    assert!(!path_starts_with("/graveyard2/x", "/graveyard"));
    assert!(str_contains("/tmp/g/home/u/a", "/home/u"));
    assert!(!str_contains("/tmp/g/home/x/a", "/home/u"));
    // Raw substring search sees "/home/u" inside "userette"; the
    // component-boundary test does not.
    assert!(str_contains("/tmp/g/home/userette/a", "/home/u"));
    assert!(!path_contains("/tmp/g/home/userette/a", "/home/u"));
    assert!(path_contains("/tmp/g/home/u/a", "/home/u"));
    assert!(path_contains("/tmp/g/home/u", "/home/u"));
    assert!(!path_contains("/tmp/g/xx/home", "/home/u"));
}

#[test]
fn unbury_targets_resolve_in_fixed_order() {
    // Local: joined under graveyard + cwd.
    assert_eq!(
        resolve_unbury_target("/g", "/home/u", true, "notes.txt"),
        "/g/home/u/notes.txt"
    );
    // Already under the graveyard: kept as given.
    assert_eq!(resolve_unbury_target("/g", "/home/u", false, "/g/etc/x"), "/g/etc/x");
    // Otherwise: joined under the root.
    assert_eq!(
        resolve_unbury_target("/g", "/home/u", false, "/etc/x"),
        "/g/etc/x"
    );
}

#[test]
fn exhume_candidates_without_globs_are_the_resolved_targets() {
    let targets = vec![String::from("/etc/x"), String::from("b.txt")];
    let cands = build_exhume_candidates("/g", "/home/u", false, 10, &targets)
        .expect("no glob patterns");
    assert_eq!(cands, vec![String::from("/g/etc/x"), String::from("/g/b.txt")]);
}

#[test]
fn exhume_candidates_reject_bad_globs() {
    let targets = vec![String::from("a[*")];
    let r = build_exhume_candidates("/nonexistent_rip_base", "/home/u", false, 2, &targets);
    assert!(matches!(r, Err(RipError::BadGlob { .. })));
}

#[test]
fn glob_walk_of_missing_tree_matches_nothing() {
    assert!(has_glob_chars("*.txt"));
    assert!(has_glob_chars("a?c"));
    assert!(!has_glob_chars("plain/path"));
    let matches = glob_walk("*.txt", "/nonexistent_rip_base", 2).expect("valid pattern");
    assert!(matches.is_empty());
}

#[test]
fn glob_targets_expand_under_the_right_scope() {
    assert_eq!(rip::ops::glob_scope("/g", "/home/u", true), "/g/home/u");
    assert_eq!(rip::ops::glob_scope("/g", "/home/u", false), "/g");
}

#[test]
fn graveyard_configuration_paths() {
    assert_eq!(default_graveyard("u"), "/tmp/graveyard-u");
    assert_eq!(xdg_graveyard("/home/u/.local/share"), "/home/u/.local/share/graveyard");
    assert_eq!(xdg_graveyard("/home/u/.local/share/"), "/home/u/.local/share/graveyard");
    assert_eq!(record_path("/tmp/graveyard-u"), "/tmp/graveyard-u/.record");
}

#[test]
fn grave_paths_shown_short_or_abbreviated() {
    assert_eq!(shorten_grave("/g/home/u/a", "/g"), "/home/u/a");
    assert_eq!(shorten_grave("/elsewhere/a", "/g"), "/elsewhere/a");
    assert_eq!(grave_display("/g/home/u/a", "/g"), "$GRAVEYARD/home/u/a");
    assert_eq!(grave_display("/elsewhere/a", "/g"), "/elsewhere/a");
}

#[test]
fn copy_policy_by_file_kind() {
    assert_eq!(copy_method(FileKind::Regular), CopyMethod::ByteCopy);
    assert_eq!(copy_method(FileKind::Symlink), CopyMethod::RecreateSymlink);
    assert_eq!(copy_method(FileKind::Fifo), CopyMethod::RecreateFifo);
    assert_eq!(copy_method(FileKind::Other), CopyMethod::AttemptThenPrompt);
    assert!(!is_big_file(BIG_FILE_THRESHOLD));
    assert!(is_big_file(BIG_FILE_THRESHOLD + 1));
    assert_eq!(file_type_label(FileKind::Regular), "file");
    assert_eq!(file_type_label(FileKind::Directory), "dir");
    assert_eq!(file_type_label(FileKind::Fifo), "other");
}

#[test]
fn byte_counts_read_naturally() {
    assert_eq!(humanize_bytes(0), "0 bytes");
    assert_eq!(humanize_bytes(10), "10 bytes");
    assert_eq!(humanize_bytes(1024), "1024 bytes");
    assert_eq!(humanize_bytes(150000), "150 KB");
    assert_eq!(humanize_bytes(1500000000), "1500 MB");
    assert_eq!(humanize_bytes(123456789012), "123 GB");
    assert_eq!(humanize_bytes(20000000000000), "20 TB");
}

#[test]
fn error_messages_name_the_failure() {
    let corrupt = RipError::CorruptRecord;
    assert!(corrupt.message().contains("corrupt"));
    let glob = RipError::BadGlob { message: String::from("oops") };
    assert!(glob.message().contains("oops"));
}
