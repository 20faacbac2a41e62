//! What the screens of a session say, as lines of text ready to be drawn.

use vstd::prelude::*;
use vstd::string::StringExecFns;
use crate::format::{count_text, decimal, decimal_text, format_bytes, human_size};
use crate::path::FsPath;
use crate::select::{
    age_days, repo_age_days, selection_totals, shown, summarize_selection, visible_count, RepoItem,
    SortMode,
};
use crate::format::texts;
use crate::text::{dry_run_label, dry_run_note, root_line, root_text};
use crate::time::Timestamp;
use crate::tui::{App, CleaningData, ConfirmData, TuiOptions};

verus! {

/// What the confirmation screen says.
pub open spec fn confirm_texts(scan_root: Seq<u8>, dry_run: bool, confirm: ConfirmData) -> Seq<
    Seq<char>,
> {
    seq![
        root_text(scan_root),
        "plan: delete "@ + decimal(confirm.planned_dirs as nat) + " artifact dirs from "@ + decimal(
            confirm.selected_repos as nat,
        ) + " repos, reclaim "@ + human_size(confirm.planned_bytes) + dry_run_note(dry_run),
        Seq::empty(),
        "Press 'y' to confirm, 'n' to cancel."@,
    ]
}

/// The lines of the confirmation screen.
pub fn confirm_message(scan_root: &FsPath, options: &TuiOptions, confirm: &ConfirmData) -> (lines:
    Vec<String>)
    ensures
        texts(lines@) == confirm_texts(scan_root@, options.dry_run, *confirm),
{
    let mut lines: Vec<String> = Vec::new();
    lines.push(root_line(scan_root));
    let mut plan = String::from_str("plan: delete ");
    plan.append(count_text(confirm.planned_dirs).as_str());
    plan.append(" artifact dirs from ");
    plan.append(count_text(confirm.selected_repos).as_str());
    plan.append(" repos, reclaim ");
    plan.append(format_bytes(confirm.planned_bytes).as_str());
    plan.append(dry_run_label(options.dry_run).as_str());
    lines.push(plan);
    lines.push(String::new());
    lines.push(String::from_str("Press 'y' to confirm, 'n' to cancel."));
    proof {
        assert(texts(lines@) =~= confirm_texts(scan_root@, options.dry_run, *confirm));
    }
    lines
}

/// The note that the operator has asked to cancel.
pub open spec fn cancel_note(requested: bool) -> Seq<char> {
    if requested {
        " cancel requested"@
    } else {
        Seq::empty()
    }
}

/// The target that the deletion is at, or that it is about to start.
pub open spec fn current_text(current: Option<String>) -> Seq<char> {
    match current {
        Some(text) => text@,
        None => "starting..."@,
    }
}

/// The line that counts what the deletion has done so far.
pub open spec fn cleaning_progress_text(cleaning: CleaningData, elapsed: Seq<char>) -> Seq<char> {
    "progress: "@ + decimal(cleaning.processed as nat) + "/"@ + decimal(cleaning.total as nat)
        + "  deleted: "@ + decimal(cleaning.deleted_paths as nat) + " ("@ + human_size(
        cleaning.deleted_bytes,
    ) + ")  skipped: "@ + decimal(cleaning.skipped_paths as nat) + "  errors: "@ + decimal(
        cleaning.error_count as nat,
    ) + "  elapsed: "@ + elapsed + cancel_note(cleaning.cancel_requested)
}

/// What the cleaning screen says; `elapsed` is the time that the deletion
/// has taken so far, as it is to be shown.
pub open spec fn cleaning_texts(
    scan_root: Seq<u8>,
    dry_run: bool,
    cleaning: CleaningData,
    elapsed: Seq<char>,
) -> Seq<Seq<char>> {
    seq![
        root_text(scan_root),
        "plan: "@ + decimal(cleaning.total as nat) + " dirs, reclaim "@ + human_size(
            cleaning.planned_bytes,
        ) + dry_run_note(dry_run),
        cleaning_progress_text(cleaning, elapsed),
        Seq::empty(),
        "current: "@ + current_text(cleaning.current),
        Seq::empty(),
        "Press Ctrl+C to cancel."@,
    ]
}

/// The lines of the cleaning screen.
pub fn cleaning_lines(
    scan_root: &FsPath,
    options: &TuiOptions,
    cleaning: &CleaningData,
    elapsed: &str,
) -> (lines: Vec<String>)
    ensures
        texts(lines@) == cleaning_texts(scan_root@, options.dry_run, *cleaning, elapsed@),
{
    let mut lines: Vec<String> = Vec::new();
    lines.push(root_line(scan_root));

    let mut plan = String::from_str("plan: ");
    plan.append(count_text(cleaning.total).as_str());
    plan.append(" dirs, reclaim ");
    plan.append(format_bytes(cleaning.planned_bytes).as_str());
    plan.append(dry_run_label(options.dry_run).as_str());
    lines.push(plan);

    let mut progress = String::from_str("progress: ");
    progress.append(count_text(cleaning.processed).as_str());
    progress.append("/");
    progress.append(count_text(cleaning.total).as_str());
    progress.append("  deleted: ");
    progress.append(count_text(cleaning.deleted_paths).as_str());
    progress.append(" (");
    progress.append(format_bytes(cleaning.deleted_bytes).as_str());
    progress.append(")  skipped: ");
    progress.append(count_text(cleaning.skipped_paths).as_str());
    progress.append("  errors: ");
    progress.append(count_text(cleaning.error_count).as_str());
    progress.append("  elapsed: ");
    progress.append(elapsed);
    if cleaning.cancel_requested {
        progress.append(" cancel requested");
    } else {
        proof {
            assert(progress@ + Seq::<char>::empty() =~= progress@);
        }
    }
    lines.push(progress);
    lines.push(String::new());

    let mut current = String::from_str("current: ");
    match &cleaning.current {
        Some(text) => current.append(text.as_str()),
        None => current.append("starting..."),
    }
    lines.push(current);
    lines.push(String::new());
    lines.push(String::from_str("Press Ctrl+C to cancel."));
    proof {
        assert(texts(lines@) =~= cleaning_texts(
            scan_root@,
            options.dry_run,
            *cleaning,
            elapsed@,
        ));
    }
    lines
}

/// The note that the scan has ended.
pub open spec fn done_note(done: bool) -> Seq<char> {
    if done {
        " done"@
    } else {
        Seq::empty()
    }
}

/// What the line on the scan says; `elapsed` is the time that the scan has
/// taken, as it is to be shown.
pub open spec fn progress_text(app: App, elapsed: Seq<char>) -> Seq<char> {
    let tail = "  repos: "@ + decimal(app.items@.len()) + "  artifacts: "@ + decimal(
        app.artifacts_found as nat,
    ) + "  elapsed: "@ + elapsed + done_note(app.scan_done);
    match app.scan_total {
        Some(total) => "scan: "@ + decimal(app.scan_processed as nat) + "/"@ + decimal(
            total as nat,
        ) + " candidates"@ + tail,
        None => "scan: discovering candidates"@ + tail,
    }
}

/// The line that says how far the scan has come.
pub fn progress_line(app: &App, elapsed: &str) -> (line: String)
    ensures
        line@ == progress_text(*app, elapsed@),
{
    let mut tail = String::from_str("  repos: ");
    tail.append(count_text(app.items.len()).as_str());
    tail.append("  artifacts: ");
    tail.append(count_text(app.artifacts_found).as_str());
    tail.append("  elapsed: ");
    tail.append(elapsed);
    if app.scan_done {
        tail.append(" done");
    } else {
        proof {
            assert(tail@ + Seq::<char>::empty() =~= tail@);
        }
    }
    let mut line = match app.scan_total {
        Some(total) => {
            let mut head = String::from_str("scan: ");
            head.append(count_text(app.scan_processed).as_str());
            head.append("/");
            head.append(count_text(total).as_str());
            head.append(" candidates");
            head
        },
        None => String::from_str("scan: discovering candidates"),
    };
    line.append(tail.as_str());
    line
}

/// The name of a sort mode.
pub open spec fn sort_name(mode: SortMode) -> Seq<char> {
    match mode {
        SortMode::Age => "age"@,
        SortMode::Size => "size"@,
    }
}

/// The mark of a run in which nothing is removed, on the main screen.
pub open spec fn dry_run_mark(dry_run: bool) -> Seq<char> {
    if dry_run {
        " DRY RUN"@
    } else {
        Seq::empty()
    }
}

/// What the head of the main screen says: the settings, the root of the
/// scan, and what is shown and selected.
pub open spec fn header_texts(scan_root: Seq<u8>, options: TuiOptions, app: App) -> Seq<Seq<char>> {
    let totals = selection_totals(app.items@, options.min_size_bytes);
    seq![
        "clean-code  show>="@ + human_size(options.min_size_bytes) + "  auto-select>=180d"@
            + dry_run_mark(options.dry_run) + "  sort="@ + sort_name(app.sort_mode),
        root_text(scan_root),
        "shown: "@ + decimal(shown(app.items@, options.min_size_bytes).len()) + " repos  selected: "@
            + decimal(totals.2 as nat) + " repos  planned: "@ + decimal(totals.0 as nat)
            + " dirs  reclaim: "@ + human_size(totals.1),
        Seq::empty(),
    ]
}

/// The lines at the head of the main screen.
pub fn main_header(scan_root: &FsPath, options: &TuiOptions, app: &App) -> (lines: Vec<String>)
    ensures
        texts(lines@) == header_texts(scan_root@, *options, *app),
{
    let (planned_dirs, reclaim_bytes, selected_repos) = summarize_selection(&app.items, options);
    let visible_repos = visible_count(&app.items, options);
    let mut lines: Vec<String> = Vec::new();

    let mut first = String::from_str("clean-code  show>=");
    first.append(format_bytes(options.min_size_bytes).as_str());
    first.append("  auto-select>=180d");
    if options.dry_run {
        first.append(" DRY RUN");
    } else {
        proof {
            assert(first@ + Seq::<char>::empty() =~= first@);
        }
    }
    first.append("  sort=");
    match app.sort_mode {
        SortMode::Age => first.append("age"),
        SortMode::Size => first.append("size"),
    }
    lines.push(first);
    lines.push(root_line(scan_root));

    let mut third = String::from_str("shown: ");
    third.append(count_text(visible_repos).as_str());
    third.append(" repos  selected: ");
    third.append(count_text(selected_repos).as_str());
    third.append(" repos  planned: ");
    third.append(count_text(planned_dirs).as_str());
    third.append(" dirs  reclaim: ");
    third.append(format_bytes(reclaim_bytes).as_str());
    lines.push(third);
    lines.push(String::new());
    proof {
        assert(texts(lines@) =~= header_texts(scan_root@, *options, *app));
    }
    lines
}

/// What the main screen says where no repository is shown.
pub open spec fn empty_list_text(min_size_bytes: u64, scan_done: bool) -> Seq<char> {
    if scan_done {
        "No gitignored artifacts >= "@ + human_size(min_size_bytes) + " found."@
    } else {
        "Scanning..."@
    }
}

/// The message of the main screen where no repository is shown.
pub fn empty_list_message(options: &TuiOptions, scan_done: bool) -> (text: String)
    ensures
        text@ == empty_list_text(options.min_size_bytes, scan_done),
{
    if scan_done {
        let mut text = String::from_str("No gitignored artifacts >= ");
        text.append(format_bytes(options.min_size_bytes).as_str());
        text.append(" found.");
        text
    } else {
        String::from_str("Scanning...")
    }
}

/// The titles of the size and of the age column; a star marks the one by
/// which the list is sorted.
pub fn column_labels(mode: SortMode) -> (labels: (&'static str, &'static str))
    ensures
        labels.0@ == match mode {
            SortMode::Age => "Size"@,
            SortMode::Size => "Size*"@,
        },
        labels.1@ == match mode {
            SortMode::Age => "Age*"@,
            SortMode::Size => "Age"@,
        },
{
    match mode {
        SortMode::Age => ("Size", "Age*"),
        SortMode::Size => ("Size*", "Age"),
    }
}

/// How much a size is made to stand out.
#[derive(Debug, Clone, Copy, PartialEq, Eq, Structural)]
pub enum SizeEmphasis {
    Plain,
    Bright,
    Loud,
    ExtraBold,
}

/// One mebibyte.
pub const MIB: u64 = 1024 * 1024;

/// One gibibyte.
pub const GIB: u64 = 1024 * 1024 * 1024;

/// How much a size stands out: from 100 MiB it is bright, from 1 GiB loud,
/// and from 10 GiB loud and bold.
pub open spec fn emphasis_of(bytes: u64) -> SizeEmphasis {
    if bytes >= 10 * GIB {
        SizeEmphasis::ExtraBold
    } else if bytes >= GIB {
        SizeEmphasis::Loud
    } else if bytes >= 100 * MIB {
        SizeEmphasis::Bright
    } else {
        SizeEmphasis::Plain
    }
}

/// How much a size is made to stand out.
pub fn size_style(bytes: u64) -> (emphasis: SizeEmphasis)
    ensures
        emphasis == emphasis_of(bytes),
{
    if bytes >= 10 * GIB {
        SizeEmphasis::ExtraBold
    } else if bytes >= GIB {
        SizeEmphasis::Loud
    } else if bytes >= 100 * MIB {
        SizeEmphasis::Bright
    } else {
        SizeEmphasis::Plain
    }
}

/// One row of the list, cell by cell.
#[derive(Debug)]
pub struct RepoRow {
    pub checkbox: String,
    pub size: String,
    pub emphasis: SizeEmphasis,
    pub age: String,
    pub repo: String,
}

/// The box that shows whether a repository is selected.
pub open spec fn checkbox_text(selected: bool) -> Seq<char> {
    if selected {
        "[x]"@
    } else {
        "[ ]"@
    }
}

/// The age of a repository in days, or a dash where it has none.
pub open spec fn age_text(days: Option<int>) -> Seq<char> {
    match days {
        Some(d) => decimal(d as nat) + "d"@,
        None => "-"@,
    }
}

/// The row of a repository in the list.
pub fn render_repo_row(item: &RepoItem, now: Timestamp) -> (row: RepoRow)
    ensures
        row.checkbox@ == checkbox_text(item.selected),
        row.size@ == human_size(item.report.total_size_bytes),
        row.emphasis == emphasis_of(item.report.total_size_bytes),
        row.age@ == age_text(age_days(item.report, now)),
        row.repo@ == item.repo_display@,
{
    let checkbox = if item.selected {
        String::from_str("[x]")
    } else {
        String::from_str("[ ]")
    };
    let bytes = item.report.total_size_bytes;
    let age = match repo_age_days(&item.report, now) {
        Some(days) => {
            let mut text = decimal_text(days);
            text.append("d");
            text
        },
        None => String::from_str("-"),
    };
    RepoRow {
        checkbox,
        size: format_bytes(bytes),
        emphasis: size_style(bytes),
        age,
        repo: item.repo_display.clone(),
    }
}

/// The title of the result screen.
pub fn result_title(scan_root: &FsPath) -> (title: String)
    ensures
        title@ == "Result ("@ + crate::format::utf8_lossy(scan_root@) + ")"@,
{
    let mut title = String::from_str("Result (");
    title.append(crate::format::display_path(scan_root).as_str());
    title.append(")");
    title
}

} // verus!
