use clean_code::clean::{DeleteSummary, DeleteTarget};
use clean_code::git::{head_display, GitHead};
use clean_code::path::FsPath;
use clean_code::report::{print_scan_report, ArtifactRecord, RepoReport};
use clean_code::scan::DirStats;
use clean_code::screens::{
    cleaning_lines, column_labels, confirm_message, empty_list_message, main_header,
    progress_line, render_repo_row, result_title, size_style, SizeEmphasis,
};
use clean_code::select::SortMode;
use clean_code::text::{dry_run_label, format_delete_summary, root_line, target_display};
use clean_code::time::Timestamp;
use clean_code::tui::{App, CleaningData, ConfirmData, ScanEvent, TuiOptions};

const DAY: i64 = 86_400;
const MIB: u64 = 1024 * 1024;
const GIB: u64 = 1024 * MIB;

fn p(text: &str) -> FsPath {
    FsPath::from_text(text)
}

fn record(root: &str, path: &str, size_bytes: u64) -> ArtifactRecord {
    ArtifactRecord { repo_root: p(root), path: p(path), stats: DirStats { size_bytes, newest_mtime: None } }
}

fn summary() -> DeleteSummary {
    let mut s = DeleteSummary::default();
    s.planned_paths = 3;
    s.planned_bytes = 5 * GIB / 2;
    s.deleted_paths = 1;
    s.deleted_bytes = 2 * GIB;
    s.skipped_paths = 2;
    s
}

fn cleaning() -> CleaningData {
    CleaningData {
        total: 5,
        planned_bytes: 3 * MIB,
        processed: 2,
        deleted_paths: 1,
        deleted_bytes: 1536,
        skipped_paths: 1,
        error_count: 0,
        current: Some("repo  target".to_string()),
        cancel_requested: false,
    }
}

#[test]
fn delete_summary_without_errors() {
    let lines = format_delete_summary(&p("/w"), &summary(), false, false);
    assert_eq!(
        lines,
        vec![
            "root: /w",
            "planned: 3 dirs, reclaim 2.5 GiB",
            "deleted: 1 dirs, reclaimed 2.0 GiB",
            "skipped: 2 dirs",
            "",
            "Press any key to exit.",
        ]
    );
}

#[test]
fn delete_summary_lists_errors_and_marks_cancel_and_dry_run() {
    let mut s = summary();
    s.errors.push((p("/w/repo/.git"), "refusing to delete blocked path".to_string()));
    s.errors.push((p("/elsewhere/x"), "permission denied".to_string()));
    let lines = format_delete_summary(&p("/w"), &s, true, true);
    assert_eq!(
        lines,
        vec![
            "root: /w",
            "status: canceled",
            "planned: 3 dirs, reclaim 2.5 GiB (dry run)",
            "deleted: 1 dirs, reclaimed 2.0 GiB",
            "skipped: 2 dirs",
            "",
            "errors (2):",
            "- repo/.git: refusing to delete blocked path",
            "- /elsewhere/x: permission denied",
            "",
            "Press any key to exit.",
        ]
    );
}

#[test]
fn small_pieces_of_text() {
    assert_eq!(dry_run_label(true), " (dry run)");
    assert_eq!(dry_run_label(false), "");
    assert_eq!(root_line(&p("/work/area")), "root: /work/area");
    assert_eq!(result_title(&p("/work/area")), "Result (/work/area)");
    let target = DeleteTarget { repo_root: p("/w/repo"), path: p("/w/repo/sub/target"), planned_bytes: 1 };
    assert_eq!(target_display(&p("/w"), &target), "repo  sub/target");
    assert_eq!(target_display(&p("/w/repo"), &target), ".  sub/target");
}

#[test]
fn the_head_shows_the_date_and_the_short_hash() {
    let head = GitHead {
        hash: "0123456789abcdef0123".to_string(),
        unix_seconds: 5,
        iso8601: "2024-01-02T03:04:05+00:00".to_string(),
    };
    assert_eq!(head_display(&Some(head)), "2024-01-02T03:04:05+00:00 01234567");
    let short = GitHead { hash: "abc".to_string(), unix_seconds: 5, iso8601: "d".to_string() };
    assert_eq!(head_display(&Some(short)), "d abc");
    let exact = GitHead { hash: "abcdefgh".to_string(), unix_seconds: 5, iso8601: "d".to_string() };
    assert_eq!(head_display(&Some(exact)), "d abcdefgh");
    let split = GitHead { hash: "abcdefg\u{e9}xyz".to_string(), unix_seconds: 5, iso8601: "d".to_string() };
    assert_eq!(head_display(&Some(split)), "d abcdefg\u{e9}xyz");
    let wide = GitHead { hash: "abcdef\u{e9}xyz".to_string(), unix_seconds: 5, iso8601: "d".to_string() };
    assert_eq!(head_display(&Some(wide)), "d abcdef\u{e9}");
    assert_eq!(head_display(&None), "no commits");
}

#[test]
fn the_batch_report_lists_repositories_and_artifacts() {
    let mut first = RepoReport::new(
        p("/w/project"),
        Some(GitHead {
            hash: "0123456789abcdef".to_string(),
            unix_seconds: 5,
            iso8601: "2024-01-02T03:04:05+00:00".to_string(),
        }),
    );
    first.add_artifact(record("/w/project", "/w/project/node_modules", 10 * MIB));
    first.add_artifact(record("/w/project", "/w/project/target", 5 * GIB / 2));
    let mut second = RepoReport::new(p("/w/other"), None);
    second.add_artifact(record("/w/other", "/w/other/deep/dist", 512));
    let lines = print_scan_report(&p("/w"), &vec![first, second]);
    assert_eq!(
        lines,
        vec![
            "Scan root: /w",
            "Repos with gitignored artifacts: 2  Total: 2.5 GiB",
            "",
            "project  2024-01-02T03:04:05+00:00 01234567  total 2.5 GiB",
            "  2.5 GiB  target",
            "  10.0 MiB  node_modules",
            "",
            "other  no commits  total 512 B",
            "  512 B  deep/dist",
            "",
        ]
    );
}

#[test]
fn the_batch_report_of_nothing() {
    let lines = print_scan_report(&p("/w"), &Vec::new());
    assert_eq!(lines, vec!["Scan root: /w", "Repos with gitignored artifacts: 0  Total: 0 B", ""]);
}

#[test]
fn the_batch_report_holds_the_total_at_the_largest_value() {
    let mut first = RepoReport::new(p("/w/a"), None);
    first.add_artifact(record("/w/a", "/w/a/t", u64::MAX));
    let mut second = RepoReport::new(p("/w/b"), None);
    second.add_artifact(record("/w/b", "/w/b/t", 5));
    let lines = print_scan_report(&p("/w"), &vec![first, second]);
    assert_eq!(lines[1], "Repos with gitignored artifacts: 2  Total: 16.0 EiB");
}

#[test]
fn the_confirmation_names_the_plan() {
    let confirm = ConfirmData { targets: Vec::new(), selected_repos: 2, planned_dirs: 7, planned_bytes: 3 * GIB };
    let dry = TuiOptions { min_size_bytes: MIB, dry_run: true };
    assert_eq!(
        confirm_message(&p("/w"), &dry, &confirm),
        vec![
            "root: /w",
            "plan: delete 7 artifact dirs from 2 repos, reclaim 3.0 GiB (dry run)",
            "",
            "Press 'y' to confirm, 'n' to cancel.",
        ]
    );
    let wet = TuiOptions { min_size_bytes: MIB, dry_run: false };
    assert_eq!(
        confirm_message(&p("/w"), &wet, &confirm)[1],
        "plan: delete 7 artifact dirs from 2 repos, reclaim 3.0 GiB"
    );
}

#[test]
fn the_cleaning_screen_counts_what_was_done() {
    let opts = TuiOptions { min_size_bytes: MIB, dry_run: false };
    assert_eq!(
        cleaning_lines(&p("/w"), &opts, &cleaning(), "1.5s"),
        vec![
            "root: /w",
            "plan: 5 dirs, reclaim 3.0 MiB",
            "progress: 2/5  deleted: 1 (1.5 KiB)  skipped: 1  errors: 0  elapsed: 1.5s",
            "",
            "current: repo  target",
            "",
            "Press Ctrl+C to cancel.",
        ]
    );
    let mut waiting = cleaning();
    waiting.current = None;
    waiting.cancel_requested = true;
    let dry = TuiOptions { min_size_bytes: MIB, dry_run: true };
    let lines = cleaning_lines(&p("/w"), &dry, &waiting, "20ms");
    assert_eq!(lines[1], "plan: 5 dirs, reclaim 3.0 MiB (dry run)");
    assert_eq!(
        lines[2],
        "progress: 2/5  deleted: 1 (1.5 KiB)  skipped: 1  errors: 0  elapsed: 20ms cancel requested"
    );
    assert_eq!(lines[4], "current: starting...");
}

fn scanned() -> App {
    let opts = TuiOptions { min_size_bytes: MIB, dry_run: false };
    let mut app = App::new(Timestamp { secs: 1000 * DAY, nanos: 0 });
    for (root, path, size, age) in [
        ("/w/a", "/w/a/target", 3 * GIB, 400),
        ("/w/a", "/w/a/dist", 5 * MIB, 300),
        ("/w/b", "/w/b/target", 200 * MIB, 2),
        ("/w/c", "/w/c/target", 100, 500),
    ] {
        app.apply_scan_event(
            &p("/w"),
            &opts,
            ScanEvent::Artifact {
                record: ArtifactRecord {
                    repo_root: p(root),
                    path: p(path),
                    stats: DirStats {
                        size_bytes: size,
                        newest_mtime: Some(Timestamp { secs: (1000 - age) * DAY, nanos: 0 }),
                    },
                },
            },
        );
    }
    app
}

#[test]
fn the_progress_line_follows_the_scan() {
    let opts = TuiOptions { min_size_bytes: MIB, dry_run: false };
    let mut app = scanned();
    assert_eq!(
        progress_line(&app, "12ms"),
        "scan: discovering candidates  repos: 3  artifacts: 4  elapsed: 12ms"
    );
    app.apply_scan_event(&p("/w"), &opts, ScanEvent::CandidatesTotal { total: 9 });
    app.apply_scan_event(&p("/w"), &opts, ScanEvent::CandidateProcessed { processed: 4 });
    assert_eq!(
        progress_line(&app, "1.2s"),
        "scan: 4/9 candidates  repos: 3  artifacts: 4  elapsed: 1.2s"
    );
    app.apply_scan_event(&p("/w"), &opts, ScanEvent::Finished);
    assert_eq!(
        progress_line(&app, "2.0s"),
        "scan: 9/9 candidates  repos: 3  artifacts: 4  elapsed: 2.0s done"
    );
}

#[test]
fn the_header_names_settings_and_selection() {
    let opts = TuiOptions { min_size_bytes: MIB, dry_run: false };
    let mut app = scanned();
    assert_eq!(
        main_header(&p("/w"), &opts, &app),
        vec![
            "clean-code  show>=1.0 MiB  auto-select>=180d  sort=age",
            "root: /w",
            "shown: 2 repos  selected: 1 repos  planned: 2 dirs  reclaim: 3.0 GiB",
            "",
        ]
    );
    app.toggle_sort_mode(&opts);
    let dry = TuiOptions { min_size_bytes: 0, dry_run: true };
    let lines = main_header(&p("/w"), &dry, &app);
    assert_eq!(lines[0], "clean-code  show>=0 B  auto-select>=180d DRY RUN  sort=size");
    assert_eq!(lines[2], "shown: 3 repos  selected: 1 repos  planned: 2 dirs  reclaim: 3.0 GiB");
}

#[test]
fn labels_and_messages_of_the_main_screen() {
    let opts = TuiOptions { min_size_bytes: 10 * MIB, dry_run: false };
    assert_eq!(empty_list_message(&opts, false), "Scanning...");
    assert_eq!(empty_list_message(&opts, true), "No gitignored artifacts >= 10.0 MiB found.");
    assert_eq!(column_labels(SortMode::Age), ("Size", "Age*"));
    assert_eq!(column_labels(SortMode::Size), ("Size*", "Age"));
}

#[test]
fn sizes_stand_out_from_a_hundred_mebibytes_on() {
    assert_eq!(size_style(0), SizeEmphasis::Plain);
    assert_eq!(size_style(100 * MIB - 1), SizeEmphasis::Plain);
    assert_eq!(size_style(100 * MIB), SizeEmphasis::Bright);
    assert_eq!(size_style(GIB - 1), SizeEmphasis::Bright);
    assert_eq!(size_style(GIB), SizeEmphasis::Loud);
    assert_eq!(size_style(10 * GIB - 1), SizeEmphasis::Loud);
    assert_eq!(size_style(10 * GIB), SizeEmphasis::ExtraBold);
    assert_eq!(size_style(u64::MAX), SizeEmphasis::ExtraBold);
}

#[test]
fn a_row_shows_selection_size_age_and_name() {
    let app = scanned();
    let now = Timestamp { secs: 1000 * DAY, nanos: 0 };
    let a = app.items.iter().find(|i| i.report.repo_root.same(&p("/w/a"))).unwrap();
    let row = render_repo_row(a, now);
    assert_eq!(row.checkbox, "[x]");
    assert_eq!(row.size, "3.0 GiB");
    assert_eq!(row.emphasis, SizeEmphasis::Loud);
    assert_eq!(row.age, "300d");
    assert_eq!(row.repo, "a");
    let b = app.items.iter().find(|i| i.report.repo_root.same(&p("/w/b"))).unwrap();
    let row = render_repo_row(b, now);
    assert_eq!(row.checkbox, "[ ]");
    assert_eq!(row.size, "200.0 MiB");
    assert_eq!(row.emphasis, SizeEmphasis::Bright);
    assert_eq!(row.age, "2d");
    let row = render_repo_row(b, Timestamp { secs: 0, nanos: 0 });
    assert_eq!(row.age, "-");
}
