use clean_code::git::GitHead;
use clean_code::path::FsPath;
use clean_code::report::{
    collect_candidates, collect_reports, group_by_repository, process_candidate, ArtifactOrder, ArtifactRecord,
    RepoReport, ReportOrder,
};
use clean_code::scan::DirStats;
use clean_code::sort::{insert_in_order, reversed, stable_sort, Ranking};
use clean_code::time::{Span, Timestamp};
use std::cell::RefCell;

const DAY: i64 = 86_400;
const MIB: u64 = 1024 * 1024;
const GIB: u64 = 1024 * MIB;

fn p(text: &str) -> FsPath {
    FsPath::from_text(text)
}

fn t(secs: i64) -> Option<Timestamp> {
    Some(Timestamp { secs, nanos: 0 })
}

fn record(root: &str, path: &str, size_bytes: u64, newest_mtime: Option<Timestamp>) -> ArtifactRecord {
    ArtifactRecord { repo_root: p(root), path: p(path), stats: DirStats { size_bytes, newest_mtime } }
}

fn head(hash: &str, unix_seconds: i64) -> GitHead {
    GitHead { hash: hash.to_string(), unix_seconds, iso8601: format!("date-{unix_seconds}") }
}

fn paths(artifacts: &[ArtifactRecord]) -> Vec<FsPath> {
    artifacts.iter().map(|a| a.path.clone()).collect()
}

#[test]
fn an_artifact_without_time_is_stale() {
    let now = Timestamp { secs: 1000 * DAY, nanos: 0 };
    let r = record("/r", "/r/target", 1, None);
    assert!(r.is_stale(now, Span { secs: 30 * 86_400, nanos: 0 }));
}

#[test]
fn an_artifact_is_stale_from_the_span_on() {
    let now = Timestamp { secs: 1000 * DAY, nanos: 0 };
    let span = Span { secs: 30 * 86_400, nanos: 0 };
    assert!(record("/r", "/r/a", 1, t(970 * DAY)).is_stale(now, span));
    assert!(record("/r", "/r/a", 1, t(900 * DAY)).is_stale(now, span));
    assert!(!record("/r", "/r/a", 1, t(970 * DAY + 1)).is_stale(now, span));
    assert!(!record("/r", "/r/a", 1, t(1000 * DAY)).is_stale(now, span));
    assert!(!record("/r", "/r/a", 1, t(1001 * DAY)).is_stale(now, span));
    assert!(!record("/r", "/r/a", 1, t(1001 * DAY)).is_stale(now, Span { secs: 0, nanos: 0 }));
}

#[test]
fn stale_size_counts_the_stale_artifacts() {
    let now = Timestamp { secs: 1000 * DAY, nanos: 0 };
    let span = Span { secs: 30 * 86_400, nanos: 0 };
    let mut report = RepoReport::new(p("/r"), None);
    report.add_artifact(record("/r", "/r/old", 100, t(900 * DAY)));
    report.add_artifact(record("/r", "/r/new", 20, t(999 * DAY)));
    report.add_artifact(record("/r", "/r/timeless", 3, None));
    assert_eq!(report.stale_size_bytes(now, span), 103);
    assert_eq!(report.stale_size_bytes(now, Span { secs: 0, nanos: 0 }), 123);
    let mut huge = RepoReport::new(p("/r"), None);
    huge.add_artifact(record("/r", "/r/a", u64::MAX, None));
    huge.add_artifact(record("/r", "/r/b", 1, None));
    assert_eq!(huge.stale_size_bytes(now, span), u64::MAX);
}

#[test]
fn a_new_report_is_empty() {
    let report = RepoReport::new(p("/r"), Some(head("abc", 5)));
    assert_eq!(report.repo_root, p("/r"));
    assert_eq!(report.head, Some(head("abc", 5)));
    assert!(report.artifacts.is_empty());
    assert_eq!(report.total_size_bytes, 0);
    assert_eq!(report.newest_mtime, None);
}

#[test]
fn add_artifact_keeps_larger_first_then_path() {
    let mut report = RepoReport::new(p("/r"), None);
    report.add_artifact(record("/r", "/r/m", 10, t(5)));
    report.add_artifact(record("/r", "/r/z", 50, t(3)));
    report.add_artifact(record("/r", "/r/a", 10, None));
    report.add_artifact(record("/r", "/r/q", 10, t(9)));
    report.add_artifact(record("/r", "/r/b", 1, t(1)));
    assert_eq!(paths(&report.artifacts), vec![p("/r/z"), p("/r/a"), p("/r/m"), p("/r/q"), p("/r/b")]);
    assert_eq!(report.total_size_bytes, 81);
    assert_eq!(report.newest_mtime, t(9));
}

#[test]
fn add_artifact_holds_the_total_at_the_largest_value() {
    let mut report = RepoReport::new(p("/r"), None);
    report.add_artifact(record("/r", "/r/a", u64::MAX - 1, None));
    report.add_artifact(record("/r", "/r/b", 7, None));
    assert_eq!(report.total_size_bytes, u64::MAX);
}

#[test]
fn target_and_node_modules_make_one_report() {
    let now = 1000 * DAY;
    let target_size = 5 * GIB / 2;
    let records = vec![
        record("/w/project", "/w/project/node_modules", 10 * MIB, t(now - 3 * DAY)),
        record("/w/project", "/w/project/target", target_size, t(now - 200 * DAY)),
    ];
    let reports = collect_reports(records, |_| Some(head("0123456789abcdef", 77)));
    assert_eq!(reports.len(), 1);
    let report = &reports[0];
    assert_eq!(report.repo_root, p("/w/project"));
    assert_eq!(report.total_size_bytes, target_size + 10 * MIB);
    assert_eq!(paths(&report.artifacts), vec![p("/w/project/target"), p("/w/project/node_modules")]);
    assert_eq!(report.newest_mtime, t(now - 3 * DAY));
    assert_eq!(report.head, Some(head("0123456789abcdef", 77)));
}

#[test]
fn collect_reports_groups_by_repository() {
    let records = vec![
        record("/w/b", "/w/b/target", 5, t(1)),
        record("/w/a", "/w/a/dist", 7, t(2)),
        record("/w/b", "/w/b/node_modules", 50, t(3)),
        record("/w/a", "/w/a/build", 7, None),
    ];
    let asked: RefCell<Vec<FsPath>> = RefCell::new(Vec::new());
    let reports = collect_reports(records, |root| {
        asked.borrow_mut().push(root.clone());
        None
    });
    assert_eq!(reports.len(), 2);
    assert_eq!(reports[0].repo_root, p("/w/a"));
    assert_eq!(paths(&reports[0].artifacts), vec![p("/w/a/build"), p("/w/a/dist")]);
    assert_eq!(reports[0].total_size_bytes, 14);
    assert_eq!(reports[0].newest_mtime, t(2));
    assert_eq!(reports[1].repo_root, p("/w/b"));
    assert_eq!(paths(&reports[1].artifacts), vec![p("/w/b/node_modules"), p("/w/b/target")]);
    assert_eq!(reports[1].total_size_bytes, 55);
    assert_eq!(reports[1].newest_mtime, t(3));
    let mut asked = asked.into_inner();
    asked.sort_by(|a, b| a.as_bytes().cmp(b.as_bytes()));
    assert_eq!(asked, vec![p("/w/a"), p("/w/b")]);
}

#[test]
fn collect_reports_orders_by_commit_time_then_root() {
    let records = vec![
        record("/w/none-b", "/w/none-b/target", 1, None),
        record("/w/young", "/w/young/target", 1, None),
        record("/w/old", "/w/old/target", 1, None),
        record("/w/none-a", "/w/none-a/target", 1, None),
        record("/w/twin-b", "/w/twin-b/target", 1, None),
        record("/w/twin-a", "/w/twin-a/target", 1, None),
        record("/w/last", "/w/last/target", 1, None),
    ];
    let reports = collect_reports(records, |root| {
        if root.same(&p("/w/young")) {
            Some(head("y", 900))
        } else if root.same(&p("/w/old")) {
            Some(head("o", -5))
        } else if root.same(&p("/w/twin-a")) || root.same(&p("/w/twin-b")) {
            Some(head("t", 100))
        } else if root.same(&p("/w/last")) {
            Some(head("l", i64::MAX))
        } else {
            None
        }
    });
    let roots: Vec<FsPath> = reports.iter().map(|r| r.repo_root.clone()).collect();
    assert_eq!(
        roots,
        vec![
            p("/w/old"),
            p("/w/twin-a"),
            p("/w/twin-b"),
            p("/w/young"),
            p("/w/last"),
            p("/w/none-a"),
            p("/w/none-b"),
        ]
    );
}

#[test]
fn collect_reports_of_nothing_is_empty() {
    let reports = collect_reports(Vec::new(), |_| None);
    assert!(reports.is_empty());
}

#[test]
fn report_order_puts_no_commit_last() {
    let mut with = RepoReport::new(p("/z"), Some(head("h", i64::MAX)));
    with.add_artifact(record("/z", "/z/t", 1, None));
    let without = RepoReport::new(p("/a"), None);
    assert!(ReportOrder.in_order(&with, &without));
    assert!(!ReportOrder.in_order(&without, &with));
    assert!(ReportOrder.in_order(&without, &without));
}

#[test]
fn artifact_order_is_larger_first_then_path() {
    let big = record("/r", "/r/z", 10, None);
    let small = record("/r", "/r/a", 9, None);
    let twin = record("/r", "/r/b", 10, None);
    assert!(ArtifactOrder.in_order(&big, &small));
    assert!(!ArtifactOrder.in_order(&small, &big));
    assert!(ArtifactOrder.in_order(&twin, &big));
    assert!(!ArtifactOrder.in_order(&big, &twin));
    assert!(ArtifactOrder.in_order(&big, &big));
}

#[test]
fn stable_sort_keeps_ties_in_their_order() {
    let mut list = vec![
        record("/one", "/r/same", 5, None),
        record("/two", "/r/big", 9, None),
        record("/three", "/r/same", 5, None),
        record("/four", "/r/a", 5, None),
        record("/five", "/r/same", 5, None),
    ];
    stable_sort(&mut list, &ArtifactOrder);
    let roots: Vec<FsPath> = list.iter().map(|a| a.repo_root.clone()).collect();
    assert_eq!(roots, vec![p("/two"), p("/four"), p("/one"), p("/three"), p("/five")]);
    let mut empty: Vec<ArtifactRecord> = Vec::new();
    stable_sort(&mut empty, &ArtifactOrder);
    assert!(empty.is_empty());
}

#[test]
fn insert_in_order_goes_behind_its_equals() {
    let mut list = vec![record("/two", "/r/big", 9, None), record("/one", "/r/same", 5, None)];
    insert_in_order(&mut list, record("/new", "/r/same", 5, None), &ArtifactOrder);
    insert_in_order(&mut list, record("/top", "/r/top", 100, None), &ArtifactOrder);
    let roots: Vec<FsPath> = list.iter().map(|a| a.repo_root.clone()).collect();
    assert_eq!(roots, vec![p("/top"), p("/two"), p("/one"), p("/new")]);
}

#[test]
fn reversed_turns_the_order_round() {
    assert_eq!(reversed(vec![1, 2, 3]), vec![3, 2, 1]);
    assert_eq!(reversed(Vec::<u8>::new()), Vec::<u8>::new());
}

#[test]
fn a_candidate_that_is_ignored_becomes_an_artifact() {
    let asked: RefCell<Vec<(FsPath, FsPath)>> = RefCell::new(Vec::new());
    let found = process_candidate(
        &p("/w/repo/sub/target"),
        &|marker: &FsPath| marker.same(&p("/w/repo/.git")) || marker.same(&p("/w/.git")),
        &|root: &FsPath, path: &FsPath| {
            asked.borrow_mut().push((root.clone(), path.clone()));
            Ok(true)
        },
        &|_: &FsPath| Ok(DirStats { size_bytes: 42, newest_mtime: t(7) }),
    );
    assert_eq!(found, Some(record("/w/repo", "/w/repo/sub/target", 42, t(7))));
    assert_eq!(asked.into_inner(), vec![(p("/w/repo"), p("/w/repo/sub/target"))]);
}

#[test]
fn a_candidate_that_is_not_ignored_is_no_artifact() {
    let measured = std::cell::Cell::new(false);
    let found = process_candidate(
        &p("/w/repo/target"),
        &|marker: &FsPath| marker.same(&p("/w/repo/.git")),
        &|_: &FsPath, _: &FsPath| Ok(false),
        &|_: &FsPath| {
            measured.set(true);
            Ok(DirStats { size_bytes: 42, newest_mtime: None })
        },
    );
    assert_eq!(found, None);
    assert!(!measured.get());
}

#[test]
fn a_candidate_outside_any_repository_is_no_artifact() {
    let asked = std::cell::Cell::new(false);
    let found = process_candidate(
        &p("/w/loose/target"),
        &|_: &FsPath| false,
        &|_: &FsPath, _: &FsPath| {
            asked.set(true);
            Ok(true)
        },
        &|_: &FsPath| Ok(DirStats { size_bytes: 42, newest_mtime: None }),
    );
    assert_eq!(found, None);
    assert!(!asked.get());
}

#[test]
fn a_candidate_for_which_a_question_fails_is_no_artifact() {
    let failed_check = process_candidate(
        &p("/w/repo/target"),
        &|marker: &FsPath| marker.same(&p("/w/repo/.git")),
        &|_: &FsPath, _: &FsPath| Err("git is missing".to_string()),
        &|_: &FsPath| Ok(DirStats { size_bytes: 42, newest_mtime: None }),
    );
    assert_eq!(failed_check, None);
    let failed_stats = process_candidate(
        &p("/w/repo/target"),
        &|marker: &FsPath| marker.same(&p("/w/repo/.git")),
        &|_: &FsPath, _: &FsPath| Ok(true),
        &|_: &FsPath| Err("gone".to_string()),
    );
    assert_eq!(failed_stats, None);
}

#[test]
fn groups_stand_by_root_and_know_no_commit() {
    let groups = group_by_repository(vec![
        record("/w/b", "/w/b/target", 5, t(1)),
        record("/w/a", "/w/a/dist", 7, t(2)),
        record("/w/b", "/w/b/node_modules", 50, t(3)),
        record("/w/a-x", "/w/a-x/out", 1, None),
    ]);
    let roots: Vec<FsPath> = groups.iter().map(|g| g.repo_root.clone()).collect();
    assert_eq!(roots, vec![p("/w/a"), p("/w/a-x"), p("/w/b")]);
    assert!(groups.iter().all(|g| g.head.is_none()));
    assert_eq!(paths(&groups[2].artifacts), vec![p("/w/b/node_modules"), p("/w/b/target")]);
    assert_eq!(groups[2].total_size_bytes, 55);
    assert_eq!(groups[2].newest_mtime, t(3));
    assert!(group_by_repository(Vec::new()).is_empty());
}

#[test]
fn only_the_nearest_repository_is_asked_about_a_candidate() {
    let asked: RefCell<Vec<FsPath>> = RefCell::new(Vec::new());
    let found = process_candidate(
        &p("/w/outer/inner/target"),
        &|marker: &FsPath| marker.same(&p("/w/outer/.git")) || marker.same(&p("/w/outer/inner/.git")),
        &|root: &FsPath, _: &FsPath| {
            asked.borrow_mut().push(root.clone());
            Ok(root.same(&p("/w/outer")))
        },
        &|_: &FsPath| Ok(DirStats { size_bytes: 42, newest_mtime: None }),
    );
    assert_eq!(found, None);
    assert_eq!(asked.into_inner(), vec![p("/w/outer/inner")]);
}

#[test]
fn candidates_that_are_not_ignored_appear_in_no_report() {
    let candidates = vec![
        p("/w/a/target"),
        p("/w/a/dist"),
        p("/w/loose/target"),
        p("/w/b/target"),
        p("/w/b/broken"),
    ];
    let reports = collect_candidates(
        &candidates,
        |marker: &FsPath| marker.same(&p("/w/a/.git")) || marker.same(&p("/w/b/.git")),
        |_: &FsPath, path: &FsPath| {
            if path.same(&p("/w/b/broken")) {
                Err("cannot tell".to_string())
            } else {
                Ok(!path.same(&p("/w/a/dist")))
            }
        },
        |path: &FsPath| Ok(DirStats { size_bytes: path.as_bytes().len() as u64, newest_mtime: None }),
        |root: &FsPath| {
            if root.same(&p("/w/a")) {
                Some(head("a", 7))
            } else {
                None
            }
        },
    );
    assert_eq!(reports.len(), 2);
    assert_eq!(reports[0].repo_root, p("/w/a"));
    assert_eq!(paths(&reports[0].artifacts), vec![p("/w/a/target")]);
    assert_eq!(reports[0].head, Some(head("a", 7)));
    assert_eq!(reports[1].repo_root, p("/w/b"));
    assert_eq!(paths(&reports[1].artifacts), vec![p("/w/b/target")]);
    assert_eq!(reports[1].head, None);
}
