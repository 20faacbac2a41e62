//! The lines of text that the screens and the batch report show.

use vstd::prelude::*;
use vstd::string::StringExecFns;
use crate::clean::{DeleteSummary, DeleteTarget, SummaryModel, TargetModel};
use crate::format::{
    count_text, decimal, display_path, display_rel_path, format_bytes, human_size, rel_display,
    texts, utf8_lossy,
};
use crate::path::FsPath;

verus! {

/// The note that marks a run in which nothing is removed.
pub open spec fn dry_run_note(dry_run: bool) -> Seq<char> {
    if dry_run {
        " (dry run)"@
    } else {
        Seq::empty()
    }
}

/// The note that marks a run in which nothing is removed.
pub fn dry_run_label(dry_run: bool) -> (text: String)
    ensures
        text@ == dry_run_note(dry_run),
{
    if dry_run {
        String::from_str(" (dry run)")
    } else {
        String::new()
    }
}

/// The line that names the root of the scan.
pub open spec fn root_text(scan_root: Seq<u8>) -> Seq<char> {
    "root: "@ + utf8_lossy(scan_root)
}

/// The line that names the root of the scan.
pub fn root_line(scan_root: &FsPath) -> (line: String)
    ensures
        line@ == root_text(scan_root@),
{
    let mut line = String::from_str("root: ");
    line.append(display_path(scan_root).as_str());
    line
}

/// How a target is named on screen: its repository as seen from the root of
/// the scan, and its path as seen from the repository.
pub open spec fn target_text(scan_root: Seq<u8>, target: TargetModel) -> Seq<char> {
    rel_display(scan_root, target.repo_root) + "  "@ + rel_display(target.repo_root, target.path)
}

/// The name of a target on screen.
pub fn target_display(scan_root: &FsPath, target: &DeleteTarget) -> (text: String)
    ensures
        text@ == target_text(scan_root@, target@),
{
    let mut text = display_rel_path(scan_root, &target.repo_root);
    text.append("  ");
    text.append(display_rel_path(&target.repo_root, &target.path).as_str());
    text
}

/// One line for each error: the path as seen from the root of the scan, and
/// what went wrong.
pub open spec fn error_texts(scan_root: Seq<u8>, errors: Seq<(Seq<u8>, Seq<char>)>) -> Seq<
    Seq<char>,
> {
    errors.map_values(
        |e: (Seq<u8>, Seq<char>)| "- "@ + rel_display(scan_root, e.0) + ": "@ + e.1,
    )
}

/// The lines that say what was planned and what was done.
pub open spec fn summary_counts(summary: SummaryModel, dry_run: bool) -> Seq<Seq<char>> {
    seq![
        "planned: "@ + decimal(summary.planned_paths as nat) + " dirs, reclaim "@ + human_size(
            summary.planned_bytes,
        ) + dry_run_note(dry_run),
        "deleted: "@ + decimal(summary.deleted_paths as nat) + " dirs, reclaimed "@ + human_size(
            summary.deleted_bytes,
        ),
        "skipped: "@ + decimal(summary.skipped_paths as nat) + " dirs"@,
    ]
}

/// The lines that list the errors of a deletion, or none where there was no
/// error.
pub open spec fn summary_errors(scan_root: Seq<u8>, summary: SummaryModel) -> Seq<Seq<char>> {
    if summary.errors.len() == 0 {
        Seq::empty()
    } else {
        seq![Seq::empty(), "errors ("@ + decimal(summary.errors.len()) + "):"@] + error_texts(
            scan_root,
            summary.errors,
        )
    }
}

/// What the result screen says of a deletion.
pub open spec fn summary_texts(
    scan_root: Seq<u8>,
    summary: SummaryModel,
    dry_run: bool,
    canceled: bool,
) -> Seq<Seq<char>> {
    let head = if canceled {
        seq![root_text(scan_root), "status: canceled"@]
    } else {
        seq![root_text(scan_root)]
    };
    head + summary_counts(summary, dry_run) + summary_errors(scan_root, summary) + seq![
        Seq::empty(),
        "Press any key to exit."@,
    ]
}

/// The lines of the result screen after a deletion.
pub fn format_delete_summary(
    scan_root: &FsPath,
    summary: &DeleteSummary,
    dry_run: bool,
    canceled: bool,
) -> (lines: Vec<String>)
    ensures
        texts(lines@) == summary_texts(scan_root@, summary@, dry_run, canceled),
{
    let mut lines: Vec<String> = Vec::new();
    lines.push(root_line(scan_root));
    if canceled {
        lines.push(String::from_str("status: canceled"));
    }
    let ghost head = texts(lines@);

    let mut planned = String::from_str("planned: ");
    planned.append(count_text(summary.planned_paths).as_str());
    planned.append(" dirs, reclaim ");
    planned.append(format_bytes(summary.planned_bytes).as_str());
    planned.append(dry_run_label(dry_run).as_str());
    lines.push(planned);

    let mut deleted = String::from_str("deleted: ");
    deleted.append(count_text(summary.deleted_paths).as_str());
    deleted.append(" dirs, reclaimed ");
    deleted.append(format_bytes(summary.deleted_bytes).as_str());
    lines.push(deleted);

    let mut skipped = String::from_str("skipped: ");
    skipped.append(count_text(summary.skipped_paths).as_str());
    skipped.append(" dirs");
    lines.push(skipped);
    proof {
        assert(texts(lines@) =~= head + summary_counts(summary@, dry_run));
    }
    let ghost counted = texts(lines@);

    if summary.errors.len() > 0 {
        lines.push(String::new());
        let mut title = String::from_str("errors (");
        title.append(count_text(summary.errors.len()).as_str());
        title.append("):");
        lines.push(title);
        let ghost listed = texts(lines@);
        let mut i: usize = 0;
        while i < summary.errors.len()
            invariant
                i <= summary.errors@.len(),
                summary@.errors.len() == summary.errors@.len(),
                texts(lines@) == listed + error_texts(scan_root@, summary@.errors).subrange(
                    0,
                    i as int,
                ),
            decreases summary.errors@.len() - i,
        {
            let mut line = String::from_str("- ");
            line.append(display_rel_path(scan_root, &summary.errors[i].0).as_str());
            line.append(": ");
            line.append(summary.errors[i].1.as_str());
            proof {
                assert(summary@.errors[i as int] == (
                    summary.errors@[i as int].0@,
                    summary.errors@[i as int].1@,
                ));
            }
            let ghost said = line@;
            let ghost upto = texts(lines@);
            lines.push(line);
            proof {
                let all = error_texts(scan_root@, summary@.errors);
                assert(said == all[i as int]);
                assert(texts(lines@) =~= upto.push(said));
                assert(all.subrange(0, i + 1) =~= all.subrange(0, i as int).push(all[i as int]));
                assert(texts(lines@) =~= listed + all.subrange(0, i + 1));
            }
            i += 1;
        }
        proof {
            let all = error_texts(scan_root@, summary@.errors);
            assert(all.subrange(0, all.len() as int) =~= all);
            assert(listed =~= counted + seq![
                Seq::empty(),
                "errors ("@ + decimal(summary@.errors.len()) + "):"@,
            ]);
            assert(texts(lines@) =~= counted + summary_errors(scan_root@, summary@));
        }
    } else {
        proof {
            assert(texts(lines@) =~= counted + summary_errors(scan_root@, summary@));
        }
    }
    let ghost with_errors = texts(lines@);
    lines.push(String::new());
    lines.push(String::from_str("Press any key to exit."));
    proof {
        assert(texts(lines@) =~= with_errors + seq![Seq::empty(), "Press any key to exit."@]);
    }
    lines
}

} // verus!
