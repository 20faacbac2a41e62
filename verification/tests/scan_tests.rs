use clean_code::scan::{
    classify_entry, classify_walk_entry, contains_name, dir_stats, dir_tree_stats,
    scan_artifact_dirs, scan_dir, tree_stats, walk_dir_stats, DirStats, DirTree, EntryKind,
    EntryMeta, NamedEntry, RootStats, Visit, WalkEntry, WalkVisit,
};
use clean_code::path::is_component_name;
use clean_code::path::{is_blocked_path, FsPath};
use clean_code::time::{max_time, time_key_in_order, Span, Timestamp};

fn t(secs: i64) -> Option<Timestamp> {
    Some(Timestamp { secs, nanos: 0 })
}

fn stats(size_bytes: u64, newest_mtime: Option<Timestamp>) -> DirStats {
    DirStats { size_bytes, newest_mtime }
}

fn file(len: u64, modified: Option<Timestamp>) -> EntryMeta {
    EntryMeta { kind: EntryKind::File, len, modified }
}

fn named(name: &str, meta: EntryMeta) -> WalkEntry {
    WalkEntry { name: name.as_bytes().to_vec(), meta }
}

fn level(own_modified: Option<Timestamp>, metas: &[EntryMeta]) -> DirStats {
    let entries: Vec<WalkEntry> = metas.iter().map(|m| named("entry", *m)).collect();
    walk_dir_stats(&FsPath::from_text("/w"), own_modified, &entries).local
}

fn merged(a: DirStats, b: DirStats) -> DirStats {
    let mut out = a;
    out.merge(b);
    out
}

fn names(list: &[&str]) -> Vec<Vec<u8>> {
    list.iter().map(|n| n.as_bytes().to_vec()).collect()
}

fn entry(name: &str, is_dir: bool) -> NamedEntry {
    NamedEntry { name: name.as_bytes().to_vec(), is_dir }
}

#[test]
fn default_stats_are_empty() {
    assert_eq!(DirStats::default(), stats(0, None));
}

#[test]
fn merge_adds_sizes_and_keeps_the_newer_time() {
    assert_eq!(merged(stats(10, t(5)), stats(32, t(9))), stats(42, t(9)));
    assert_eq!(merged(stats(10, t(9)), stats(32, t(5))), stats(42, t(9)));
    assert_eq!(merged(stats(10, None), stats(32, t(5))), stats(42, t(5)));
    assert_eq!(merged(stats(10, t(5)), stats(32, None)), stats(42, t(5)));
    assert_eq!(merged(stats(0, None), stats(0, None)), stats(0, None));
}

#[test]
fn merge_holds_the_size_at_the_largest_value() {
    assert_eq!(merged(stats(u64::MAX - 1, None), stats(5, None)), stats(u64::MAX, None));
    assert_eq!(merged(stats(u64::MAX, None), stats(u64::MAX, None)), stats(u64::MAX, None));
}

#[test]
fn merge_mtime_leaves_the_size() {
    let mut s = stats(7, t(3));
    s.merge_mtime(t(8));
    assert_eq!(s, stats(7, t(8)));
    s.merge_mtime(None);
    assert_eq!(s, stats(7, t(8)));
    s.merge_mtime(t(2));
    assert_eq!(s, stats(7, t(8)));
    s.merge_mtime(Some(Timestamp { secs: 8, nanos: 1 }));
    assert_eq!(s, stats(7, Some(Timestamp { secs: 8, nanos: 1 })));
}

#[test]
fn merge_is_commutative_and_associative_on_samples() {
    let samples = [
        stats(0, None),
        stats(1, t(-5)),
        stats(u64::MAX - 3, t(7)),
        stats(12, Some(Timestamp { secs: 7, nanos: 1 })),
        stats(u64::MAX, None),
    ];
    for a in samples {
        for b in samples {
            assert_eq!(merged(a, b), merged(b, a));
            for c in samples {
                assert_eq!(merged(merged(a, b), c), merged(a, merged(b, c)));
            }
        }
    }
}

#[test]
fn parts_aggregated_apart_merge_to_the_whole() {
    let files = vec![file(5, t(1)), file(7, t(9)), file(11, None), file(13, t(4)), file(2, t(6))];
    let whole = level(None, &files);
    assert_eq!(whole, stats(38, t(9)));
    for cut in 0..=files.len() {
        let first = level(None, &files[..cut]);
        let second = level(None, &files[cut..]);
        assert_eq!(merged(first, second), whole);
        assert_eq!(merged(second, first), whole);
    }
    let shuffled = vec![files[3], files[0], files[4], files[2], files[1]];
    assert_eq!(level(None, &shuffled), whole);
}

#[test]
fn walk_counts_files_only() {
    let entries = vec![
        file(100, t(10)),
        EntryMeta { kind: EntryKind::Directory, len: 4096, modified: t(99) },
        EntryMeta { kind: EntryKind::Symlink, len: 50, modified: t(98) },
        EntryMeta { kind: EntryKind::Other, len: 60, modified: t(97) },
        file(1, t(20)),
    ];
    assert_eq!(level(None, &entries), stats(101, t(20)));
}

#[test]
fn walk_takes_the_time_of_the_directory_itself() {
    assert_eq!(level(t(50), &[file(3, t(10))]), stats(3, t(50)));
    assert_eq!(level(t(5), &[file(3, t(10))]), stats(3, t(10)));
    assert_eq!(level(t(5), &[]), stats(0, t(5)));
    assert_eq!(level(None, &[]), stats(0, None));
}

#[test]
fn walk_holds_the_size_at_the_largest_value() {
    let entries = vec![file(u64::MAX, None), file(1, None)];
    assert_eq!(level(None, &entries), stats(u64::MAX, None));
}

#[test]
fn dir_stats_of_a_file_is_its_length_and_time() {
    let root = file(1234, t(77));
    assert!(matches!(dir_stats(&root), RootStats::Known(s) if s == stats(1234, t(77))));
}

#[test]
fn dir_stats_of_a_symlink_is_nothing() {
    let root = EntryMeta { kind: EntryKind::Symlink, len: 1234, modified: t(77) };
    assert!(matches!(dir_stats(&root), RootStats::Known(s) if s == stats(0, None)));
    let other = EntryMeta { kind: EntryKind::Other, len: 1234, modified: t(77) };
    assert!(matches!(dir_stats(&other), RootStats::Known(s) if s == stats(0, None)));
}

#[test]
fn dir_stats_of_a_directory_starts_a_walk() {
    let root = EntryMeta { kind: EntryKind::Directory, len: 4096, modified: t(77) };
    assert!(matches!(dir_stats(&root), RootStats::Walk(s) if s == stats(0, t(77))));
}

#[test]
fn classify_entry_follows_the_rules() {
    let artifacts = names(&["target", "node_modules", ".git"]);
    assert_eq!(classify_entry(&entry("target", true), &artifacts), Visit::Record);
    assert_eq!(classify_entry(&entry("node_modules", true), &artifacts), Visit::Record);
    assert_eq!(classify_entry(&entry("src", true), &artifacts), Visit::Descend);
    assert_eq!(classify_entry(&entry("target", false), &artifacts), Visit::Skip);
    assert_eq!(classify_entry(&entry("notes.txt", false), &artifacts), Visit::Skip);
    assert_eq!(classify_entry(&entry(".git", true), &artifacts), Visit::Skip);
    assert_eq!(classify_entry(&entry(".github", true), &artifacts), Visit::Descend);
}

#[test]
fn contains_name_compares_whole_names() {
    let artifacts = names(&["target", "dist"]);
    assert!(contains_name(&artifacts, &b"dist".to_vec()));
    assert!(!contains_name(&artifacts, &b"dis".to_vec()));
    assert!(!contains_name(&Vec::new(), &b"dist".to_vec()));
}

#[test]
fn scan_dir_notes_artifacts_and_lists_the_rest() {
    let artifacts = names(&["target", "node_modules", ".git"]);
    let entries = vec![
        entry("src", true),
        entry("target", true),
        entry(".git", true),
        entry("README.md", false),
        entry("node_modules", true),
        entry("docs", true),
    ];
    let level = scan_dir(&FsPath::from_text("/work/repo"), &entries, &artifacts);
    assert_eq!(
        level.found,
        vec![FsPath::from_text("/work/repo/target"), FsPath::from_text("/work/repo/node_modules")]
    );
    assert_eq!(
        level.descend,
        vec![FsPath::from_text("/work/repo/src"), FsPath::from_text("/work/repo/docs")]
    );
    for path in &level.found {
        assert!(!is_blocked_path(path));
    }
}

#[test]
fn scan_artifact_dirs_sorts_and_drops_repeats() {
    let found = vec![
        FsPath::from_text("/w/b/target"),
        FsPath::from_text("/w/a/target"),
        FsPath::from_text("/w/b/target"),
        FsPath::from_text("/w/a-x/target"),
        FsPath::from_text("/w/a/node_modules"),
    ];
    assert_eq!(
        scan_artifact_dirs(&found),
        vec![
            FsPath::from_text("/w/a/node_modules"),
            FsPath::from_text("/w/a/target"),
            FsPath::from_text("/w/a-x/target"),
            FsPath::from_text("/w/b/target"),
        ]
    );
    assert_eq!(scan_artifact_dirs(&Vec::new()), Vec::<FsPath>::new());
}

#[test]
fn timestamps_order_by_seconds_then_nanoseconds() {
    let a = Timestamp { secs: 5, nanos: 10 };
    let b = Timestamp { secs: 5, nanos: 11 };
    let c = Timestamp { secs: 6, nanos: 0 };
    let d = Timestamp { secs: -1, nanos: 999_999_999 };
    assert!(a.is_at_or_before(&a));
    assert!(a.is_at_or_before(&b));
    assert!(!b.is_at_or_before(&a));
    assert!(b.is_at_or_before(&c));
    assert!(d.is_at_or_before(&a));
    assert_eq!(d.nanos_since_epoch(), -1);
    assert_eq!(c.nanos_since_epoch(), 6_000_000_000);
}

#[test]
fn whole_days_since_counts_full_days() {
    let day = 86_400;
    let now = Timestamp { secs: 1000 * day, nanos: 0 };
    assert_eq!(now.whole_days_since(&Timestamp { secs: 1000 * day, nanos: 0 }), Some(0));
    assert_eq!(now.whole_days_since(&Timestamp { secs: 997 * day, nanos: 0 }), Some(3));
    assert_eq!(now.whole_days_since(&Timestamp { secs: 997 * day, nanos: 1 }), Some(2));
    assert_eq!(now.whole_days_since(&Timestamp { secs: 997 * day - 1, nanos: 999 }), Some(3));
    assert_eq!(now.whole_days_since(&Timestamp { secs: 1000 * day, nanos: 1 }), None);
    assert_eq!(now.whole_days_since(&Timestamp { secs: 1001 * day, nanos: 0 }), None);
    let far = Timestamp { secs: i64::MAX, nanos: 999_999_999 };
    let back = Timestamp { secs: i64::MIN, nanos: 0 };
    assert_eq!(far.whole_days_since(&back), Some(u64::MAX / 86_400));
}

#[test]
fn has_passed_compares_with_a_span() {
    let now = Timestamp { secs: 100, nanos: 500 };
    let then = Timestamp { secs: 90, nanos: 600 };
    assert!(now.has_passed(&then, &Span { secs: 9, nanos: 999_999_900 }));
    assert!(!now.has_passed(&then, &Span { secs: 9, nanos: 999_999_901 }));
    assert!(now.has_passed(&then, &Span { secs: 0, nanos: 0 }));
    assert!(!then.has_passed(&now, &Span { secs: 0, nanos: 0 }));
    assert!(!now.has_passed(&then, &Span { secs: u64::MAX, nanos: 999_999_999 }));
}

#[test]
fn a_missing_time_is_older_than_any_time() {
    assert_eq!(max_time(None, t(1)), t(1));
    assert_eq!(max_time(t(1), None), t(1));
    assert_eq!(max_time(None, None), None);
    assert_eq!(max_time(t(1), t(2)), t(2));
    assert!(time_key_in_order(None, t(i64::MIN)));
    assert!(!time_key_in_order(t(i64::MIN), None));
    assert!(time_key_in_order(None, None));
    assert!(time_key_in_order(t(1), t(1)));
    assert!(time_key_in_order(t(1), t(2)));
    assert!(!time_key_in_order(t(2), t(1)));
}

#[test]
fn the_walk_passes_by_links_and_the_metadata_directory() {
    let dir = |name: &str| named(name, EntryMeta { kind: EntryKind::Directory, len: 0, modified: None });
    assert_eq!(classify_walk_entry(&named("a.txt", file(1, None))), WalkVisit::Count);
    assert_eq!(classify_walk_entry(&named(".git", file(1, None))), WalkVisit::Count);
    assert_eq!(classify_walk_entry(&dir("src")), WalkVisit::Descend);
    assert_eq!(classify_walk_entry(&dir(".github")), WalkVisit::Descend);
    assert_eq!(classify_walk_entry(&dir(".git")), WalkVisit::Skip);
    let link = named("link", EntryMeta { kind: EntryKind::Symlink, len: 9, modified: t(1) });
    assert_eq!(classify_walk_entry(&link), WalkVisit::Skip);
    let pipe = named("pipe", EntryMeta { kind: EntryKind::Other, len: 9, modified: t(1) });
    assert_eq!(classify_walk_entry(&pipe), WalkVisit::Skip);
}

#[test]
fn the_walk_lists_the_directories_to_go_on_in() {
    let dir = |name: &str| named(name, EntryMeta { kind: EntryKind::Directory, len: 4096, modified: t(99) });
    let entries = vec![
        named("a.txt", file(100, t(10))),
        dir("src"),
        dir(".git"),
        named("link", EntryMeta { kind: EntryKind::Symlink, len: 50, modified: t(98) }),
        dir("deps"),
        named("b.txt", file(1, t(20))),
    ];
    let level = walk_dir_stats(&FsPath::from_text("/w/target"), t(5), &entries);
    assert_eq!(level.local, stats(101, t(20)));
    assert_eq!(
        level.descend,
        vec![FsPath::from_text("/w/target/src"), FsPath::from_text("/w/target/deps")]
    );
}

fn dir_entry(name: &str) -> WalkEntry {
    named(name, EntryMeta { kind: EntryKind::Directory, len: 4096, modified: t(999) })
}

fn tree(path: &str, own: Option<Timestamp>, entries: Vec<WalkEntry>, subdirs: Vec<DirTree>) -> DirTree {
    DirTree { path: FsPath::from_text(path), own_modified: own, entries, subdirs }
}

fn sample_tree() -> DirTree {
    tree(
        "/w/target",
        t(5),
        vec![named("a", file(100, t(10))), dir_entry("debug"), dir_entry("doc"), named("b", file(1, t(3)))],
        vec![
            tree(
                "/w/target/debug",
                t(40),
                vec![named("x", file(1000, t(20))), dir_entry("deps")],
                vec![tree("/w/target/debug/deps", t(7), vec![named("y", file(7, t(70)))], Vec::new())],
            ),
            tree("/w/target/doc", None, vec![named("z", file(30, None))], Vec::new()),
        ],
    )
}

#[test]
fn a_tree_counts_every_file_and_keeps_the_newest_time() {
    assert_eq!(tree_stats(&sample_tree()), stats(1138, t(70)));
    assert_eq!(tree_stats(&tree("/w/empty", None, Vec::new(), Vec::new())), stats(0, None));
    assert_eq!(tree_stats(&tree("/w/empty", t(4), Vec::new(), Vec::new())), stats(0, t(4)));
}

#[test]
fn the_levels_of_a_tree_merge_to_its_statistics_in_any_order() {
    let whole = tree_stats(&sample_tree());
    let levels = [
        stats(101, t(10)),
        stats(1000, t(40)),
        stats(7, t(70)),
        stats(30, None),
    ];
    let orders: [[usize; 4]; 5] = [[0, 1, 2, 3], [3, 2, 1, 0], [2, 0, 3, 1], [1, 3, 0, 2], [3, 0, 2, 1]];
    for order in orders {
        let mut total = DirStats::default();
        for i in order {
            total.merge(levels[i]);
        }
        assert_eq!(total, whole);
    }
}

#[test]
fn the_statistics_of_a_path_start_from_what_the_path_is() {
    let root = EntryMeta { kind: EntryKind::Directory, len: 4096, modified: t(90) };
    assert_eq!(dir_tree_stats(&root, &sample_tree()), stats(1138, t(90)));
    let old_root = EntryMeta { kind: EntryKind::Directory, len: 4096, modified: t(1) };
    assert_eq!(dir_tree_stats(&old_root, &sample_tree()), stats(1138, t(70)));
    assert_eq!(dir_tree_stats(&file(12, t(3)), &sample_tree()), stats(12, t(3)));
    let link = EntryMeta { kind: EntryKind::Symlink, len: 12, modified: t(3) };
    assert_eq!(dir_tree_stats(&link, &sample_tree()), stats(0, None));
}

#[test]
fn names_that_no_entry_can_have_are_passed_by() {
    for name in ["", ".", "..", "a/b", "/", "x/"] {
        assert!(!is_component_name(&name.as_bytes().to_vec()), "{name:?}");
        assert_eq!(classify_entry(&entry(name, true), &names(&[name, "target"])), Visit::Skip);
        assert_eq!(classify_walk_entry(&dir_entry(name)), WalkVisit::Skip);
    }
    for name in ["a", "...", ".a", "a.", ".git"] {
        assert!(is_component_name(&name.as_bytes().to_vec()), "{name:?}");
    }
    assert_eq!(classify_walk_entry(&dir_entry("...")), WalkVisit::Descend);
}
