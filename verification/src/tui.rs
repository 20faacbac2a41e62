//! The state of an interactive session, and how events and keys change it.
//!
//! The session belongs to one loop. Background work reaches it as events
//! only, and what a key asks of the outside world comes back as a
//! `KeyOutcome` for the loop to carry out.

use vstd::prelude::*;
use vstd::string::StringExecFns;
use crate::clean::{
    fates_allowed, models, plan_delete_targets, plan_of, planned_total, progress_in_range,
    progress_reported, run_delete, run_summary, selected_targets, snapshot_after, DeleteProgress,
    DeleteSummary, DeleteTarget, IgnoreCheck, Removal, TargetFate,
};
use crate::path::is_blocked;
use crate::format::{display_rel_path, rel_display};
use crate::git::GitHead;
use crate::keyed::{
    distinct, first_index_of, keys, lemma_first_index_of, position_of, PathKeyed,
};
use crate::path::FsPath;
use crate::pending::PendingHeads;
use crate::report::{ArtifactOrder, ArtifactRecord, RepoReport};
use crate::scan::saturating_sum;
use crate::select::{
    visible, auto_selects, cursor_root, fitted_cursor, index_of_row, is_row, is_visible,
    lemma_restored_cursor, lemma_shown_contains, lemma_sort_keeps_shown, restored_cursor,
    row_of_root, selection_totals, set_to, should_auto_select, shown, summarize_selection,
    toggled, visible_count, ItemOrder, RepoItem, SelectionMode, SortMode,
};
use crate::sort::{
    insert_sorted, is_sorted, lemma_insert_sorted_is_insert, lemma_sorted_by,
    lemma_sorted_by_contains, lemma_sorted_by_no_duplicates, sorted_by, stable_sort, Ranking,
};
use crate::format::texts;
use crate::text::{format_delete_summary, summary_texts, target_display, target_text};
use crate::time::{later_of, Timestamp};

verus! {

/// What the operator has set for a session.
#[derive(Debug, Clone, Copy, PartialEq, Eq, Structural)]
pub struct TuiOptions {
    pub min_size_bytes: u64,
    pub dry_run: bool,
}

/// What the operator is asked to confirm.
#[derive(Debug)]
pub struct ConfirmData {
    pub targets: Vec<DeleteTarget>,
    pub selected_repos: usize,
    pub planned_dirs: usize,
    pub planned_bytes: u64,
}

/// How far the running deletion has come.
#[derive(Debug)]
pub struct CleaningData {
    pub total: usize,
    pub planned_bytes: u64,
    pub processed: usize,
    pub deleted_paths: usize,
    pub deleted_bytes: u64,
    pub skipped_paths: usize,
    pub error_count: usize,
    pub current: Option<String>,
    pub cancel_requested: bool,
}

/// The screen that the session shows.
#[derive(Debug)]
pub enum Screen {
    Main,
    Confirm(ConfirmData),
    Cleaning(CleaningData),
    Result,
}

/// The state of a session.
#[derive(Debug)]
pub struct App {
    pub now: Timestamp,
    pub sort_mode: SortMode,
    pub items: Vec<RepoItem>,
    pub cursor: Option<usize>,
    pub pending_heads: PendingHeads,
    pub screen: Screen,
    pub result_lines: Vec<String>,
    pub scan_total: Option<usize>,
    pub scan_processed: usize,
    pub scan_done: bool,
    pub artifacts_found: usize,
    pub new_repo_default_selected: Option<bool>,
}

/// The other sort mode.
pub open spec fn other_mode(mode: SortMode) -> SortMode {
    match mode {
        SortMode::Age => SortMode::Size,
        SortMode::Size => SortMode::Age,
    }
}

/// The cursor one row up, within `rows` rows.
pub open spec fn cursor_up(cursor: Option<usize>, rows: int) -> Option<usize> {
    if rows == 0 {
        None
    } else {
        let at = match cursor {
            Some(row) => row as int,
            None => 0,
        };
        let current = if at < rows - 1 {
            at
        } else {
            rows - 1
        };
        if current == 0 {
            Some(0)
        } else {
            Some((current - 1) as usize)
        }
    }
}

/// The cursor one row down, within `rows` rows.
pub open spec fn cursor_down(cursor: Option<usize>, rows: int) -> Option<usize> {
    if rows == 0 {
        None
    } else {
        let at = match cursor {
            Some(row) => row as int,
            None => 0,
        };
        if at + 1 < rows - 1 {
            Some((at + 1) as usize)
        } else {
            Some((rows - 1) as usize)
        }
    }
}

/// The cursor moved by `delta` rows and held within `rows` rows.
pub open spec fn cursor_moved(cursor: Option<usize>, rows: int, delta: int) -> Option<usize> {
    if rows == 0 {
        None
    } else {
        let at = match cursor {
            Some(row) => row as int,
            None => 0,
        };
        if at + delta < 0 {
            Some(0)
        } else if at + delta > rows - 1 {
            Some((rows - 1) as usize)
        } else {
            Some((at + delta) as usize)
        }
    }
}

/// What an optional path holds.
pub open spec fn root_view(root: Option<FsPath>) -> Option<Seq<u8>> {
    match root {
        Some(path) => Some(path@),
        None => None,
    }
}

impl App {
    /// The repositories that are shown, in the order of the list.
    pub open spec fn rows(self, options: TuiOptions) -> Seq<RepoItem> {
        shown(self.items@, options.min_size_bytes)
    }

    /// The session is consistent: its list is sound and stands in the order
    /// of the sort mode.
    pub open spec fn is_consistent(self) -> bool {
        &&& items_sound(self.items@)
        &&& is_sorted(ItemOrder { mode: self.sort_mode }, self.items@)
    }

    /// The root of the repository under the cursor.
    pub open spec fn selected_root(self, options: TuiOptions) -> Option<Seq<u8>> {
        cursor_root(self.rows(options), self.cursor)
    }

    /// The session as it starts: nothing found yet, the main screen, the
    /// list by age.
    pub fn new(now: Timestamp) -> (app: Self)
        ensures
            app.now == now,
            app.sort_mode == SortMode::Age,
            app.items@.len() == 0,
            app.cursor.is_none(),
            app.pending_heads@ == Map::<Seq<u8>, Option<GitHead>>::empty(),
            app.screen is Main,
            app.result_lines@.len() == 0,
            app.scan_total.is_none(),
            app.scan_processed == 0,
            !app.scan_done,
            app.artifacts_found == 0,
            app.new_repo_default_selected.is_none(),
            app.is_consistent(),
    {
        App {
            now,
            sort_mode: SortMode::Age,
            items: Vec::new(),
            cursor: None,
            pending_heads: PendingHeads::new(),
            screen: Screen::Main,
            result_lines: Vec::new(),
            scan_total: None,
            scan_processed: 0,
            scan_done: false,
            artifacts_found: 0,
            new_repo_default_selected: None,
        }
    }

    /// The number of shown repositories.
    pub fn visible_len(&self, options: &TuiOptions) -> (n: usize)
        ensures
            n == self.rows(*options).len(),
    {
        visible_count(&self.items, options)
    }

    /// The root of the repository under the cursor.
    pub fn selected_repo_root(&self, options: &TuiOptions) -> (root: Option<FsPath>)
        ensures
            root_view(root) == self.selected_root(*options),
    {
        match self.cursor {
            None => None,
            Some(row) => match index_of_row(&self.items, options, row) {
                Some(i) => Some(self.items[i].report.repo_root.clone()),
                None => None,
            },
        }
    }

    /// Makes the cursor fit what is shown.
    pub fn ensure_selection_valid(&mut self, options: &TuiOptions)
        ensures
            *final(self) == (App {
                cursor: fitted_cursor(old(self).cursor, old(self).rows(*options).len() as int),
                ..*old(self)
            }),
    {
        let visible_len = self.visible_len(options);
        if visible_len == 0 {
            self.cursor = None;
            return ;
        }
        match self.cursor {
            Some(row) => {
                if row < visible_len {
                    return ;
                }
            },
            None => {},
        }
        self.cursor = Some(0);
    }

    /// Puts the cursor on the repository with the given root.
    pub fn restore_selection(&mut self, options: &TuiOptions, repo_root: Option<FsPath>)
        ensures
            *final(self) == (App {
                cursor: restored_cursor(old(self).rows(*options), root_view(repo_root)),
                ..*old(self)
            }),
    {
        let visible_len = self.visible_len(options);
        if visible_len == 0 {
            self.cursor = None;
            return ;
        }
        match repo_root {
            Some(root) => match row_of_root(&self.items, options, &root) {
                Some(row) => {
                    self.cursor = Some(row);
                },
                None => {
                    self.cursor = Some(0);
                },
            },
            None => {
                self.cursor = Some(0);
            },
        }
    }

    /// Sorts the list by the current sort mode and puts the cursor on the
    /// repository with the given root.
    pub fn sort_and_restore(&mut self, options: &TuiOptions, repo_root: Option<FsPath>)
        ensures
            final(self).items@ == sorted_by(
                ItemOrder { mode: old(self).sort_mode },
                old(self).items@,
            ),
            final(self).cursor == restored_cursor(final(self).rows(*options), root_view(repo_root)),
            *final(self) == (App {
                items: final(self).items,
                cursor: final(self).cursor,
                ..*old(self)
            }),
            items_sound(old(self).items@) ==> final(self).is_consistent(),
            keeps_repositories(*old(self), *final(self)),
    {
        let order = ItemOrder { mode: self.sort_mode };
        proof {
            if items_sound(self.items@) {
                lemma_sorted_items_sound(self.sort_mode, self.items@);
            }
            lemma_sorted_keys(self.sort_mode, self.items@);
        }
        stable_sort(&mut self.items, &order);
        self.restore_selection(options, repo_root);
    }

    /// Sorts the list by the current sort mode and keeps the cursor on the
    /// repository on which it stood.
    pub fn sort_keep_cursor(&mut self, options: &TuiOptions)
        ensures
            final(self).items@ == sorted_by(
                ItemOrder { mode: old(self).sort_mode },
                old(self).items@,
            ),
            final(self).cursor == restored_cursor(
                final(self).rows(*options),
                old(self).selected_root(*options),
            ),
            *final(self) == (App {
                items: final(self).items,
                cursor: final(self).cursor,
                ..*old(self)
            }),
            items_sound(old(self).items@) ==> final(self).is_consistent(),
            keeps_repositories(*old(self), *final(self)),
    {
        let current_repo_root = self.selected_repo_root(options);
        self.sort_and_restore(options, current_repo_root);
    }

    /// Switches to the other sort mode. The list is sorted anew; what is
    /// shown stays the same, and the cursor stays on its repository.
    pub fn toggle_sort_mode(&mut self, options: &TuiOptions)
        ensures
            final(self).sort_mode == other_mode(old(self).sort_mode),
            final(self).items@ == sorted_by(
                ItemOrder { mode: final(self).sort_mode },
                old(self).items@,
            ),
            final(self).items@.to_multiset() == old(self).items@.to_multiset(),
            forall|item: RepoItem|
                final(self).rows(*options).contains(item) <==> old(self).rows(*options).contains(
                    item,
                ),
            final(self).cursor == restored_cursor(
                final(self).rows(*options),
                old(self).selected_root(*options),
            ),
            old(self).selected_root(*options).is_some() ==> final(self).selected_root(*options)
                == old(self).selected_root(*options),
            *final(self) == (App {
                sort_mode: final(self).sort_mode,
                items: final(self).items,
                cursor: final(self).cursor,
                ..*old(self)
            }),
            old(self).is_consistent() ==> final(self).is_consistent(),
            keeps_repositories(*old(self), *final(self)),
    {
        self.sort_mode = match self.sort_mode {
            SortMode::Age => SortMode::Size,
            SortMode::Size => SortMode::Age,
        };
        self.sort_keep_cursor(options);
        // Calling `len` brings in that the length of the list fits a `usize`.
        let _len: usize = self.items.len();
        proof {
            let order = ItemOrder { mode: self.sort_mode };
            lemma_sort_keeps_shown(order, old(self).items@, options.min_size_bytes);
            match old(self).selected_root(*options) {
                Some(root) => {
                    let row = old(self).cursor.unwrap() as int;
                    let before = old(self).rows(*options);
                    assert(keys(before)[row] == root);
                    assert(keys(before).contains(root));
                    lemma_shown_len(self.items@, options.min_size_bytes);
                    lemma_restored_cursor(self.rows(*options), root);
                },
                None => {},
            }
        }
    }

    /// Moves the cursor one row up.
    pub fn move_cursor_up(&mut self, options: &TuiOptions)
        ensures
            *final(self) == (App {
                cursor: cursor_up(old(self).cursor, old(self).rows(*options).len() as int),
                ..*old(self)
            }),
    {
        let visible_len = self.visible_len(options);
        if visible_len == 0 {
            self.cursor = None;
            return ;
        }
        let at = match self.cursor {
            Some(row) => row,
            None => 0,
        };
        let current = if at < visible_len - 1 {
            at
        } else {
            visible_len - 1
        };
        self.cursor = Some(if current == 0 {
            0
        } else {
            current - 1
        });
    }

    /// Moves the cursor one row down.
    pub fn move_cursor_down(&mut self, options: &TuiOptions)
        ensures
            *final(self) == (App {
                cursor: cursor_down(old(self).cursor, old(self).rows(*options).len() as int),
                ..*old(self)
            }),
    {
        let visible_len = self.visible_len(options);
        if visible_len == 0 {
            self.cursor = None;
            return ;
        }
        let at = match self.cursor {
            Some(row) => row,
            None => 0,
        };
        self.cursor = Some(if at < visible_len - 1 {
            at + 1
        } else {
            visible_len - 1
        });
    }

    /// Moves the cursor by `delta` rows, as far as there are rows.
    pub fn move_cursor_by(&mut self, options: &TuiOptions, delta: isize)
        ensures
            *final(self) == (App {
                cursor: cursor_moved(
                    old(self).cursor,
                    old(self).rows(*options).len() as int,
                    delta as int,
                ),
                ..*old(self)
            }),
    {
        let visible_len = self.visible_len(options);
        if visible_len == 0 {
            self.cursor = None;
            return ;
        }
        let at = match self.cursor {
            Some(row) => row,
            None => 0,
        };
        let last = visible_len - 1;
        let there: i128 = at as i128 + delta as i128;
        let next = if there < 0 {
            0
        } else if there > last as i128 {
            last
        } else {
            there as usize
        };
        self.cursor = Some(next);
    }

    /// Switches the repository under the cursor between selected and not
    /// selected. From then on it stays as the operator set it.
    pub fn toggle_current(&mut self, options: &TuiOptions)
        ensures
            match old(self).cursor {
                Some(row) => if row < old(self).rows(*options).len() {
                    exists|i: int|
                        is_row(old(self).items@, options.min_size_bytes, i, row as int)
                            && final(self).items@ == old(self).items@.update(
                            i,
                            toggled(old(self).items@[i]),
                        )
                } else {
                    final(self).items@ == old(self).items@
                },
                None => final(self).items@ == old(self).items@,
            },
            *final(self) == (App { items: final(self).items, ..*old(self) }),
            old(self).is_consistent() ==> final(self).is_consistent(),
            keeps_repositories(*old(self), *final(self)),
    {
        let row = match self.cursor {
            Some(row) => row,
            None => {
                return ;
            },
        };
        match index_of_row(&self.items, options, row) {
            Some(i) => {
                let selected = self.items[i].selected;
                self.items[i].selected = !selected;
                self.items[i].selection_mode = SelectionMode::Manual;
                proof {
                    assert(self.items@ =~= old(self).items@.update(
                        i as int,
                        toggled(old(self).items@[i as int]),
                    ));
                    if old(self).is_consistent() {
                        lemma_same_reports_sound(self.sort_mode, old(self).items@, self.items@);
                    }
                    assert(keys(self.items@) =~= keys(old(self).items@));
                }
            },
            None => {},
        }
    }

    /// Selects every repository, or none. What is found later in the session
    /// starts out the same way.
    pub fn select_all(&mut self, value: bool)
        ensures
            final(self).new_repo_default_selected == Some(value),
            final(self).items@.len() == old(self).items@.len(),
            forall|i: int|
                0 <= i < old(self).items@.len() ==> final(self).items@[i] == set_to(
                    old(self).items@[i],
                    value,
                ),
            *final(self) == (App {
                items: final(self).items,
                new_repo_default_selected: Some(value),
                ..*old(self)
            }),
            old(self).is_consistent() ==> final(self).is_consistent(),
            keeps_repositories(*old(self), *final(self)),
    {
        self.new_repo_default_selected = Some(value);
        let mut i: usize = 0;
        while i < self.items.len()
            invariant
                i <= self.items@.len(),
                self.items@.len() == old(self).items@.len(),
                forall|j: int| 0 <= j < i ==> self.items@[j] == set_to(old(self).items@[j], value),
                forall|j: int| i <= j < self.items@.len() ==> self.items@[j] == old(self).items@[j],
                *self == (App {
                    items: self.items,
                    new_repo_default_selected: Some(value),
                    ..*old(self)
                }),
            decreases self.items@.len() - i,
        {
            self.items[i].selected = value;
            self.items[i].selection_mode = SelectionMode::Manual;
            i += 1;
        }
        proof {
            if old(self).is_consistent() {
                lemma_same_reports_sound(self.sort_mode, old(self).items@, self.items@);
            }
            assert(keys(self.items@) =~= keys(old(self).items@));
        }
    }
}

/// What decides where a repository stands in the list under a sort mode,
/// its root aside.
#[derive(Debug, Clone, Copy)]
pub enum SortKey {
    Age(Option<Timestamp>),
    Size { bytes: u64, time: Option<Timestamp> },
}

/// The sort key of a repository.
pub open spec fn sort_key(mode: SortMode, report: RepoReport) -> SortKey {
    match mode {
        SortMode::Age => SortKey::Age(report.newest_mtime),
        SortMode::Size => SortKey::Size {
            bytes: report.total_size_bytes,
            time: report.newest_mtime,
        },
    }
}

/// The sort key of a repository.
pub fn sort_key_for_report(mode: SortMode, report: &RepoReport) -> (key: SortKey)
    ensures
        key == sort_key(mode, *report),
{
    match mode {
        SortMode::Age => SortKey::Age(report.newest_mtime),
        SortMode::Size => SortKey::Size {
            bytes: report.total_size_bytes,
            time: report.newest_mtime,
        },
    }
}

/// Whether two sort keys are the same.
pub fn same_sort_key(a: &SortKey, b: &SortKey) -> (r: bool)
    ensures
        r == (*a == *b),
{
    match (a, b) {
        (SortKey::Age(x), SortKey::Age(y)) => crate::select::same_time(*x, *y),
        (SortKey::Size { bytes: p, time: x }, SortKey::Size { bytes: q, time: y }) => *p == *q
            && crate::select::same_time(*x, *y),
        _ => false,
    }
}

/// `after` is `before` with one more artifact: the artifact stands at its
/// place among the others, the totals count it, and a repository that
/// selects itself has applied its rule again.
pub open spec fn with_artifact(
    before: RepoItem,
    after: RepoItem,
    record: ArtifactRecord,
    min_size_bytes: u64,
    now: Timestamp,
) -> bool {
    &&& after.report.repo_root == before.report.repo_root
    &&& after.report.head == before.report.head
    &&& after.report.artifacts@ == insert_sorted(ArtifactOrder, before.report.artifacts@, record)
    &&& after.report.total_size_bytes == saturating_sum(
        before.report.total_size_bytes,
        record.stats.size_bytes,
    )
    &&& after.report.newest_mtime == later_of(
        before.report.newest_mtime,
        record.stats.newest_mtime,
    )
    &&& after.head_loaded == before.head_loaded
    &&& after.repo_display == before.repo_display
    &&& after.selection_mode == before.selection_mode
    &&& after.selected == if before.selection_mode == SelectionMode::Auto {
        auto_selects(after.report, min_size_bytes, now)
    } else {
        before.selected
    }
}

/// `item` is what the list holds of a repository of which `record` is the
/// first artifact: its commit is the one that became known before, if any;
/// it is selected as the operator last set all repositories, or else by
/// its own rule.
pub open spec fn first_of_repo(
    item: RepoItem,
    record: ArtifactRecord,
    scan_root: Seq<u8>,
    pending: Map<Seq<u8>, Option<GitHead>>,
    default_selected: Option<bool>,
    min_size_bytes: u64,
    now: Timestamp,
) -> bool {
    let root = record.repo_root@;
    &&& item.report.repo_root@ == root
    &&& item.report.head == if pending.dom().contains(root) {
        pending[root]
    } else {
        None
    }
    &&& item.head_loaded == pending.dom().contains(root)
    &&& item.report.artifacts@ == seq![record]
    &&& item.report.total_size_bytes == record.stats.size_bytes
    &&& item.report.newest_mtime == record.stats.newest_mtime
    &&& item.repo_display@ == rel_display(scan_root, root)
    &&& match default_selected {
        Some(value) => item.selected == value && item.selection_mode == SelectionMode::Manual,
        None => item.selected == auto_selects(item.report, min_size_bytes, now)
            && item.selection_mode == SelectionMode::Auto,
    }
}

/// The list and the cursor once the list `changed` has been sorted and the
/// cursor put back on the repository on which it stood before the change.
pub open spec fn resorted(
    before: App,
    after: App,
    changed: Seq<RepoItem>,
    min_size_bytes: u64,
) -> bool {
    &&& after.items@ == sorted_by(ItemOrder { mode: before.sort_mode }, changed)
    &&& after.cursor == restored_cursor(
        shown(after.items@, min_size_bytes),
        cursor_root(shown(before.items@, min_size_bytes), before.cursor),
    )
}

/// The sort key that a repository has once it holds one more artifact.
pub open spec fn grown_key(mode: SortMode, report: RepoReport, record: ArtifactRecord) -> SortKey {
    match mode {
        SortMode::Age => SortKey::Age(later_of(report.newest_mtime, record.stats.newest_mtime)),
        SortMode::Size => SortKey::Size {
            bytes: saturating_sum(report.total_size_bytes, record.stats.size_bytes),
            time: later_of(report.newest_mtime, record.stats.newest_mtime),
        },
    }
}

/// Taking in the artifact makes the session sort its list anew: the
/// artifact starts a new repository, or it is new to its repository and
/// changes what decides the place of that repository in the list.
pub open spec fn moves_repository(before: App, record: ArtifactRecord) -> bool {
    let root = record.repo_root@;
    let i = first_index_of(keys(before.items@), root);
    if keys(before.items@).contains(root) {
        !keys(before.items@[i].report.artifacts@).contains(record.path@) && grown_key(
            before.sort_mode,
            before.items@[i].report,
            record,
        ) != sort_key(before.sort_mode, before.items@[i].report)
    } else {
        true
    }
}

/// A repository that is shown is still shown once an entry of the list has
/// been replaced by one with the same root that is shown if the replaced
/// one was.
pub proof fn lemma_update_keeps_shown(
    items: Seq<RepoItem>,
    i: int,
    item: RepoItem,
    min_size_bytes: u64,
    root: Seq<u8>,
)
    requires
        0 <= i < items.len(),
        item.key() == items[i].key(),
        visible(items[i].report, min_size_bytes) ==> visible(item.report, min_size_bytes),
        keys(shown(items, min_size_bytes)).contains(root),
    ensures
        keys(shown(items.update(i, item), min_size_bytes)).contains(root),
{
    let rows = shown(items, min_size_bytes);
    let changed = items.update(i, item);
    let k = choose|k: int| 0 <= k < keys(rows).len() && keys(rows)[k] == root;
    let x = rows[k];
    assert(rows.contains(x));
    lemma_shown_contains(items, min_size_bytes, x);
    let m = choose|m: int| 0 <= m < items.len() && items[m] == x;
    let y = changed[m];
    assert(changed.contains(y));
    lemma_shown_contains(changed, min_size_bytes, y);
    let after = shown(changed, min_size_bytes);
    let n = choose|n: int| 0 <= n < after.len() && after[n] == y;
    assert(keys(after)[n] == root);
}

/// A repository that is shown is still shown once the list has one more
/// entry.
pub proof fn lemma_push_keeps_shown(
    items: Seq<RepoItem>,
    item: RepoItem,
    min_size_bytes: u64,
    root: Seq<u8>,
)
    requires
        keys(shown(items, min_size_bytes)).contains(root),
    ensures
        keys(shown(items.push(item), min_size_bytes)).contains(root),
{
    let rows = shown(items, min_size_bytes);
    let after = shown(items.push(item), min_size_bytes);
    assert(items.push(item).drop_last() =~= items);
    let k = choose|k: int| 0 <= k < keys(rows).len() && keys(rows)[k] == root;
    assert(keys(after)[k] == root);
}

/// What taking in an artifact does to a session. An artifact that the
/// session holds already changes nothing. One of a known repository is
/// added to it; the list is sorted anew where that moves the repository. One
/// of a new repository makes a new entry in the list, which is sorted anew.
/// Whenever the list is sorted anew, the cursor goes with the repository on
/// which it stood before the artifact came, whatever row that now is; where
/// the list stays as it is, the cursor stays on its row, as far as there
/// are rows.
pub open spec fn upserted(
    before: App,
    after: App,
    scan_root: Seq<u8>,
    options: TuiOptions,
    record: ArtifactRecord,
) -> bool {
    let min = options.min_size_bytes;
    let root = record.repo_root@;
    let i = first_index_of(keys(before.items@), root);
    &&& after == (App {
        items: after.items,
        cursor: after.cursor,
        pending_heads: after.pending_heads,
        ..before
    })
    &&& if keys(before.items@).contains(root) {
        &&& after.pending_heads == before.pending_heads
        &&& if keys(before.items@[i].report.artifacts@).contains(record.path@) {
            after.items == before.items && after.cursor == before.cursor
        } else {
            exists|item: RepoItem|
                with_artifact(before.items@[i], item, record, min, before.now) && {
                    let changed = before.items@.update(i, item);
                    if sort_key(before.sort_mode, before.items@[i].report) != sort_key(
                        before.sort_mode,
                        item.report,
                    ) {
                        resorted(before, after, changed, min)
                    } else {
                        after.items@ == changed && after.cursor == fitted_cursor(
                            before.cursor,
                            shown(changed, min).len() as int,
                        )
                    }
                }
        }
    } else {
        &&& after.pending_heads@ == before.pending_heads@.remove(root)
        &&& exists|item: RepoItem|
            first_of_repo(
                item,
                record,
                scan_root,
                before.pending_heads@,
                before.new_repo_default_selected,
                min,
                before.now,
            ) && resorted(before, after, before.items@.push(item), min)
    }
}

impl App {
    /// Takes an artifact into the session.
    pub fn upsert_artifact(
        &mut self,
        scan_root: &FsPath,
        options: &TuiOptions,
        record: ArtifactRecord,
    )
        ensures
            upserted(*old(self), *final(self), scan_root@, *options, record),
            old(self).is_consistent() ==> final(self).is_consistent(),
            keeps_repositories(*old(self), *final(self)),
            keys(final(self).items@).contains(record.repo_root@),
            old(self).selected_root(*options).is_some() && moves_repository(*old(self), record)
                ==> final(self).selected_root(*options) == old(self).selected_root(*options),
    {
        let now = self.now;
        let sort_mode = self.sort_mode;
        let current_repo_root = self.selected_repo_root(options);
        match position_of(&self.items, &record.repo_root) {
            Some(i) => {
                if position_of(&self.items[i].report.artifacts, &record.path).is_some() {
                    return ;
                }
                let old_sort_key = sort_key_for_report(sort_mode, &self.items[i].report);
                proof {
                    if old(self).is_consistent() {
                        assert(item_sound(old(self).items@[i as int]));
                        lemma_insert_keeps_distinct(
                            old(self).items@[i as int].report.artifacts@,
                            record,
                        );
                    }
                }
                self.items[i].report.add_artifact(record);
                if let SelectionMode::Auto = self.items[i].selection_mode {
                    let selected = should_auto_select(&self.items[i].report, options, now);
                    self.items[i].selected = selected;
                }
                let new_sort_key = sort_key_for_report(sort_mode, &self.items[i].report);
                let ghost item = self.items@[i as int];
                let ghost changed = self.items@;
                proof {
                    assert(with_artifact(
                        old(self).items@[i as int],
                        item,
                        record,
                        options.min_size_bytes,
                        now,
                    ));
                    assert(changed =~= old(self).items@.update(i as int, item));
                    assert(keys(changed) =~= keys(old(self).items@));
                    if old(self).is_consistent() {
                        let before = old(self).items@;
                        let order = ItemOrder { mode: sort_mode };
                        assert forall|k: int| 0 <= k < changed.len() implies item_sound(
                            #[trigger] changed[k],
                        ) by {
                            if k != i {
                                assert(item_sound(before[k]));
                            }
                        }
                        assert(items_sound(changed));
                        if old_sort_key == new_sort_key {
                            assert forall|a: int, b: int|
                                0 <= a < b < changed.len() implies order.le(
                                changed[a],
                                changed[b],
                            ) by {
                                assert(order.le(before[a], before[b]));
                            }
                        }
                    }
                }
                if !same_sort_key(&old_sort_key, &new_sort_key) {
                    proof {
                        match old(self).selected_root(*options) {
                            Some(r) => {
                                let rows = old(self).rows(*options);
                                assert(keys(rows)[old(self).cursor.unwrap() as int] == r);
                                crate::sort::lemma_insert_sorted_items(
                                    ArtifactOrder,
                                    old(self).items@[i as int].report.artifacts@,
                                    record,
                                );
                                lemma_update_keeps_shown(
                                    old(self).items@,
                                    i as int,
                                    item,
                                    options.min_size_bytes,
                                    r,
                                );
                                lemma_sort_keeps_shown(
                                    ItemOrder { mode: sort_mode },
                                    changed,
                                    options.min_size_bytes,
                                );
                            },
                            None => {},
                        }
                    }
                    self.sort_and_restore(options, current_repo_root);
                    // Calling `len` brings in that the length of the list fits a `usize`.
                    let _sorted_len: usize = self.items.len();
                    proof {
                        match old(self).selected_root(*options) {
                            Some(r) => {
                                lemma_shown_len(self.items@, options.min_size_bytes);
                                lemma_restored_cursor(self.rows(*options), r);
                            },
                            None => {},
                        }
                    }
                } else {
                    self.ensure_selection_valid(options);
                }
            },
            None => {
                let repo_root = record.repo_root.clone();
                let (head, head_loaded) = match self.pending_heads.remove(&repo_root) {
                    Some(head) => (head, true),
                    None => (None, false),
                };
                let repo_display = display_rel_path(scan_root, &repo_root);
                let mut report = RepoReport::new(repo_root, head);
                report.add_artifact(record);
                let (selected, selection_mode) = match self.new_repo_default_selected {
                    Some(selected) => (selected, SelectionMode::Manual),
                    None => (should_auto_select(&report, options, now), SelectionMode::Auto),
                };
                let item = RepoItem { report, head_loaded, selected, selection_mode, repo_display };
                let ghost added = item;
                self.items.push(item);
                let ghost pushed = self.items@;
                proof {
                    assert(added.report.artifacts@ =~= seq![record]);
                    assert(keys(pushed) =~= keys(old(self).items@).push(record.repo_root@));
                    assert(keys(pushed)[pushed.len() - 1] == record.repo_root@);
                    assert forall|root: Seq<u8>|
                        keys(old(self).items@).contains(root) implies keys(pushed).contains(
                        root,
                    ) by {
                        let m = choose|m: int|
                            0 <= m < old(self).items@.len() && keys(old(self).items@)[m] == root;
                        assert(keys(pushed)[m] == root);
                    }
                    if old(self).is_consistent() {
                        let before = old(self).items@;
                        assert forall|a: int, b: int|
                            0 <= a < b < pushed.len() implies keys(pushed)[a] != keys(
                            pushed,
                        )[b] by {
                            if b == before.len() {
                                assert(keys(before).contains(keys(before)[a]));
                            } else {
                                assert(keys(before)[a] != keys(before)[b]);
                            }
                        }
                        assert forall|k: int| 0 <= k < pushed.len() implies item_sound(
                            #[trigger] pushed[k],
                        ) by {
                            if k < before.len() {
                                assert(item_sound(before[k]));
                            }
                        }
                        assert(items_sound(pushed));
                    }
                    assert(first_of_repo(
                        added,
                        record,
                        scan_root@,
                        old(self).pending_heads@,
                        old(self).new_repo_default_selected,
                        options.min_size_bytes,
                        now,
                    ));
                }
                proof {
                    match old(self).selected_root(*options) {
                        Some(r) => {
                            let rows = old(self).rows(*options);
                            assert(keys(rows)[old(self).cursor.unwrap() as int] == r);
                            lemma_push_keeps_shown(
                                old(self).items@,
                                added,
                                options.min_size_bytes,
                                r,
                            );
                            lemma_sort_keeps_shown(
                                ItemOrder { mode: sort_mode },
                                pushed,
                                options.min_size_bytes,
                            );
                        },
                        None => {},
                    }
                }
                self.sort_and_restore(options, current_repo_root);
                // Calling `len` brings in that the length of the list fits a `usize`.
                let _sorted_len: usize = self.items.len();
                proof {
                    match old(self).selected_root(*options) {
                        Some(r) => {
                            lemma_shown_len(self.items@, options.min_size_bytes);
                            lemma_restored_cursor(self.rows(*options), r);
                        },
                        None => {},
                    }
                    assert(resorted(*old(self), *self, pushed, options.min_size_bytes));
                }
            },
        }
    }
}

/// What the scan tells the session.
#[derive(Debug)]
pub enum ScanEvent {
    CandidatesTotal { total: usize },
    CandidateProcessed { processed: usize },
    RepoHead { repo_root: FsPath, head: Option<GitHead> },
    Artifact { record: ArtifactRecord },
    Finished,
}

/// What the deletion tells the session.
#[derive(Debug)]
pub enum CleanEvent {
    Progress { progress: DeleteProgress, current: DeleteTarget },
    Finished { summary: DeleteSummary, canceled: bool },
}

/// What background work tells the session.
#[derive(Debug)]
pub enum AppEvent {
    Scan(ScanEvent),
    Clean(CleanEvent),
}

/// Candidates between two reports of how far the scan has come.
pub const PROGRESS_STEP: usize = 64;

/// Whether the scan reports how far it has come once `processed` of `total`
/// candidates are done: after each `PROGRESS_STEP` candidates, and after
/// the last.
pub fn progress_due(processed: usize, total: usize) -> (due: bool)
    ensures
        due == (processed == total || processed % PROGRESS_STEP == 0),
{
    processed == total || processed % PROGRESS_STEP == 0
}

/// Notes that a repository has shown itself in the scan, and says whether
/// this is the first time: the newest commit of a repository is looked up
/// and told once, when its first artifact is found. `started` holds the
/// roots of the repositories that have shown themselves so far.
pub fn first_sighting(started: &mut Vec<FsPath>, root: &FsPath) -> (first: bool)
    ensures
        first == !keys(old(started)@).contains(root@),
        !first ==> final(started)@ == old(started)@,
        first ==> final(started)@.len() == old(started)@.len() + 1,
        first ==> final(started)@.drop_last() == old(started)@,
        first ==> final(started)@.last()@ == root@,
        forall|p: Seq<u8>|
            keys(final(started)@).contains(p) <==> (keys(old(started)@).contains(p) || p == root@),
{
    let ghost before = started@;
    match position_of(started, root) {
        Some(_) => false,
        None => {
            started.push(root.clone());
            proof {
                assert(started@.drop_last() =~= before);
                assert(keys(started@) =~= keys(before).push(root@));
                assert forall|p: Seq<u8>| keys(started@).contains(p) <==> (keys(before).contains(
                    p,
                ) || p == root@) by {
                    if keys(before).contains(p) {
                        let k = choose|k: int| 0 <= k < before.len() && keys(before)[k] == p;
                        assert(keys(started@)[k] == p);
                    }
                    if keys(started@).contains(p) {
                        let k = choose|k: int| 0 <= k < started@.len() && keys(started@)[k] == p;
                        if k < before.len() {
                            assert(keys(before)[k] == p);
                        }
                    }
                    assert(keys(started@)[before.len() as int] == root@);
                }
            }
            true
        },
    }
}

/// What the scan tells once it knows its candidates: their number, and at
/// once that it has finished where there is none.
pub open spec fn told_at_start(total: usize) -> Seq<ScanEvent> {
    if total == 0 {
        seq![ScanEvent::CandidatesTotal { total }, ScanEvent::Finished]
    } else {
        seq![ScanEvent::CandidatesTotal { total }]
    }
}

/// The events with which a scan of `total` candidates starts.
pub fn scan_started(total: usize) -> (events: Vec<ScanEvent>)
    ensures
        events@ == told_at_start(total),
{
    let mut events: Vec<ScanEvent> = Vec::new();
    events.push(ScanEvent::CandidatesTotal { total });
    if total == 0 {
        events.push(ScanEvent::Finished);
    }
    proof {
        assert(events@ =~= told_at_start(total));
    }
    events
}

/// What the scan tells of one candidate. `head` is the newest commit of a
/// repository that this candidate is the first to show, with the root of
/// that repository; `processed` is the number of candidates done with this
/// one. The commit comes before the artifact, and the count last, where it
/// is due.
pub open spec fn told_of_candidate(
    record: Option<ArtifactRecord>,
    head: Option<(FsPath, Option<GitHead>)>,
    processed: usize,
    total: usize,
) -> Seq<ScanEvent> {
    let commit = match head {
        Some(seen) => seq![ScanEvent::RepoHead { repo_root: seen.0, head: seen.1 }],
        None => Seq::empty(),
    };
    let found = match record {
        Some(artifact) => commit.push(ScanEvent::Artifact { record: artifact }),
        None => Seq::empty(),
    };
    if processed == total || processed % PROGRESS_STEP == 0 {
        found.push(ScanEvent::CandidateProcessed { processed })
    } else {
        found
    }
}

/// The events that the scan sends for one candidate.
pub fn candidate_events(
    record: Option<ArtifactRecord>,
    head: Option<(FsPath, Option<GitHead>)>,
    processed: usize,
    total: usize,
) -> (events: Vec<ScanEvent>)
    ensures
        events@ == told_of_candidate(record, head, processed, total),
{
    let mut events: Vec<ScanEvent> = Vec::new();
    match record {
        Some(artifact) => {
            match head {
                Some(seen) => {
                    events.push(ScanEvent::RepoHead { repo_root: seen.0, head: seen.1 });
                },
                None => {},
            }
            events.push(ScanEvent::Artifact { record: artifact });
        },
        None => {},
    }
    if progress_due(processed, total) {
        events.push(ScanEvent::CandidateProcessed { processed });
    }
    proof {
        assert(events@ =~= told_of_candidate(record, head, processed, total));
    }
    events
}

/// The events with which a scan of `total` candidates ends: the full count,
/// and that it has finished.
pub fn scan_finished(total: usize) -> (events: Vec<ScanEvent>)
    ensures
        events@ == seq![
            ScanEvent::CandidateProcessed { processed: total },
            ScanEvent::Finished,
        ],
{
    let mut events: Vec<ScanEvent> = Vec::new();
    events.push(ScanEvent::CandidateProcessed { processed: total });
    events.push(ScanEvent::Finished);
    proof {
        assert(events@ =~= seq![
            ScanEvent::CandidateProcessed { processed: total },
            ScanEvent::Finished,
        ]);
    }
    events
}

/// One more, held at the largest `usize`.
pub open spec fn one_more(n: usize) -> usize {
    if n == usize::MAX {
        n
    } else {
        (n + 1) as usize
    }
}

/// The repository with its newest commit made known.
pub open spec fn with_head(item: RepoItem, head: Option<GitHead>) -> RepoItem {
    RepoItem { head_loaded: true, report: RepoReport { head, ..item.report }, ..item }
}

/// What an event of the scan does to a session.
pub open spec fn scan_applied(
    before: App,
    after: App,
    scan_root: Seq<u8>,
    options: TuiOptions,
    event: ScanEvent,
) -> bool {
    match event {
        ScanEvent::CandidatesTotal { total } => after == (App {
            scan_total: Some(total),
            scan_processed: 0,
            ..before
        }),
        ScanEvent::CandidateProcessed { processed } => after == (App {
            scan_processed: processed,
            ..before
        }),
        ScanEvent::RepoHead { repo_root, head } => {
            let i = first_index_of(keys(before.items@), repo_root@);
            if keys(before.items@).contains(repo_root@) {
                after.items@ == before.items@.update(i, with_head(before.items@[i], head))
                    && after == (App { items: after.items, ..before })
            } else {
                after.pending_heads@ == before.pending_heads@.insert(repo_root@, head) && after
                    == (App { pending_heads: after.pending_heads, ..before })
            }
        },
        ScanEvent::Artifact { record } => upserted(
            App { artifacts_found: one_more(before.artifacts_found), ..before },
            after,
            scan_root,
            options,
            record,
        ),
        ScanEvent::Finished => after == (App {
            scan_done: true,
            scan_processed: match before.scan_total {
                Some(total) => total,
                None => before.scan_processed,
            },
            ..before
        }),
    }
}

/// The cleaning screen brought up to a snapshot, with the target that the
/// snapshot was taken after.
pub open spec fn cleaning_shows(
    before: CleaningData,
    after: CleaningData,
    scan_root: Seq<u8>,
    progress: DeleteProgress,
    current: DeleteTarget,
) -> bool {
    &&& after.total == progress.total
    &&& after.planned_bytes == before.planned_bytes
    &&& after.processed == progress.processed
    &&& after.deleted_paths == progress.deleted_paths
    &&& after.deleted_bytes == progress.deleted_bytes
    &&& after.skipped_paths == progress.skipped_paths
    &&& after.error_count == progress.error_count
    &&& after.cancel_requested == before.cancel_requested
    &&& after.current matches Some(text) && text@ == target_text(scan_root, current@)
}

/// What an event of the deletion does to a session. Progress shows on the
/// cleaning screen and nowhere else; the end of the deletion brings up the
/// result screen.
pub open spec fn clean_applied(
    before: App,
    after: App,
    scan_root: Seq<u8>,
    options: TuiOptions,
    event: CleanEvent,
) -> bool {
    match event {
        CleanEvent::Progress { progress, current } => match before.screen {
            Screen::Cleaning(shown_before) => {
                &&& after.screen matches Screen::Cleaning(shown_after) && cleaning_shows(
                    shown_before,
                    shown_after,
                    scan_root,
                    progress,
                    current,
                )
                &&& after == (App { screen: after.screen, ..before })
            },
            _ => after == before,
        },
        CleanEvent::Finished { summary, canceled } => {
            &&& after.screen is Result
            &&& texts(after.result_lines@) == summary_texts(
                scan_root,
                summary@,
                options.dry_run,
                canceled,
            )
            &&& after == (App {
                screen: after.screen,
                result_lines: after.result_lines,
                ..before
            })
        },
    }
}

impl App {
    /// Takes in what background work tells.
    pub fn apply_event(&mut self, scan_root: &FsPath, options: &TuiOptions, event: AppEvent)
        ensures
            match event {
                AppEvent::Scan(e) => scan_applied(
                    *old(self),
                    *final(self),
                    scan_root@,
                    *options,
                    e,
                ),
                AppEvent::Clean(e) => clean_applied(
                    *old(self),
                    *final(self),
                    scan_root@,
                    *options,
                    e,
                ),
            },
            old(self).is_consistent() ==> final(self).is_consistent(),
            keeps_repositories(*old(self), *final(self)),
    {
        match event {
            AppEvent::Scan(event) => self.apply_scan_event(scan_root, options, event),
            AppEvent::Clean(event) => self.apply_clean_event(scan_root, options, event),
        }
    }

    /// Takes in what the scan tells.
    pub fn apply_scan_event(&mut self, scan_root: &FsPath, options: &TuiOptions, event: ScanEvent)
        ensures
            scan_applied(*old(self), *final(self), scan_root@, *options, event),
            old(self).is_consistent() ==> final(self).is_consistent(),
            keeps_repositories(*old(self), *final(self)),
    {
        match event {
            ScanEvent::CandidatesTotal { total } => {
                self.scan_total = Some(total);
                self.scan_processed = 0;
            },
            ScanEvent::CandidateProcessed { processed } => {
                self.scan_processed = processed;
            },
            ScanEvent::RepoHead { repo_root, head } => {
                match position_of(&self.items, &repo_root) {
                    Some(i) => {
                        self.items[i].head_loaded = true;
                        self.items[i].report.head = head;
                        proof {
                            assert(self.items@ =~= old(self).items@.update(
                                i as int,
                                with_head(old(self).items@[i as int], head),
                            ));
                            if old(self).is_consistent() {
                                lemma_same_reports_sound(
                                    self.sort_mode,
                                    old(self).items@,
                                    self.items@,
                                );
                            }
                            assert(keys(self.items@) =~= keys(old(self).items@));
                        }
                    },
                    None => {
                        self.pending_heads.insert(repo_root, head);
                    },
                }
            },
            ScanEvent::Artifact { record } => {
                self.artifacts_found = self.artifacts_found.saturating_add(1);
                self.upsert_artifact(scan_root, options, record);
            },
            ScanEvent::Finished => {
                self.scan_done = true;
                match self.scan_total {
                    Some(total) => {
                        self.scan_processed = total;
                    },
                    None => {},
                }
            },
        }
    }

    /// Takes in what the deletion tells.
    pub fn apply_clean_event(
        &mut self,
        scan_root: &FsPath,
        options: &TuiOptions,
        event: CleanEvent,
    )
        ensures
            clean_applied(*old(self), *final(self), scan_root@, *options, event),
            old(self).is_consistent() ==> final(self).is_consistent(),
            keeps_repositories(*old(self), *final(self)),
    {
        match event {
            CleanEvent::Progress { progress, current } => {
                match &mut self.screen {
                    Screen::Cleaning(cleaning) => {
                        cleaning.processed = progress.processed;
                        cleaning.total = progress.total;
                        cleaning.deleted_paths = progress.deleted_paths;
                        cleaning.deleted_bytes = progress.deleted_bytes;
                        cleaning.skipped_paths = progress.skipped_paths;
                        cleaning.error_count = progress.error_count;
                        cleaning.current = Some(target_display(scan_root, &current));
                    },
                    _ => {},
                }
            },
            CleanEvent::Finished { summary, canceled } => {
                self.screen = Screen::Result;
                self.result_lines = format_delete_summary(
                    scan_root,
                    &summary,
                    options.dry_run,
                    canceled,
                );
            },
        }
    }
}

/// What an event does to a session.
pub open spec fn event_applied(
    before: App,
    after: App,
    scan_root: Seq<u8>,
    options: TuiOptions,
    event: AppEvent,
) -> bool {
    match event {
        AppEvent::Scan(e) => scan_applied(before, after, scan_root, options, e),
        AppEvent::Clean(e) => clean_applied(before, after, scan_root, options, e),
    }
}

/// What a run of events does to a session: each event is applied to what
/// the events before it have left.
pub open spec fn events_applied(
    before: App,
    after: App,
    scan_root: Seq<u8>,
    options: TuiOptions,
    events: Seq<AppEvent>,
) -> bool
    decreases events.len(),
{
    if events.len() == 0 {
        after == before
    } else {
        exists|between: App|
            events_applied(before, between, scan_root, options, events.drop_last())
                && #[trigger] event_applied(between, after, scan_root, options, events.last())
    }
}

impl App {
    /// Takes in all that background work has told since the last time, in
    /// the order in which it was told.
    pub fn apply_events(&mut self, scan_root: &FsPath, options: &TuiOptions, events: Vec<AppEvent>)
        ensures
            events_applied(*old(self), *final(self), scan_root@, *options, events@),
            old(self).is_consistent() ==> final(self).is_consistent(),
            keeps_repositories(*old(self), *final(self)),
    {
        let ghost all = events@;
        let mut queue = crate::sort::reversed(events);
        let ghost mut done: Seq<AppEvent> = Seq::empty();
        while queue.len() > 0
            invariant
                queue@.len() <= all.len(),
                done == all.subrange(0, all.len() - queue@.len()),
                forall|i: int| 0 <= i < queue@.len() ==> queue@[i] == all[all.len() - 1 - i],
                events_applied(*old(self), *self, scan_root@, *options, done),
                old(self).is_consistent() ==> self.is_consistent(),
                keeps_repositories(*old(self), *self),
            decreases queue@.len(),
        {
            let event = queue.pop().unwrap();
            let ghost between = *self;
            self.apply_event(scan_root, options, event);
            proof {
                let next = done.push(event);
                assert(next =~= all.subrange(0, all.len() - queue@.len()));
                assert(next.drop_last() =~= done);
                assert(event_applied(between, *self, scan_root@, *options, next.last()));
                assert forall|root: Seq<u8>|
                    keys(old(self).items@).contains(root) implies #[trigger] keys(
                    self.items@,
                ).contains(root) by {
                    assert(keys(between.items@).contains(root));
                }
                done = next;
            }
        }
        proof {
            assert(done =~= all);
        }
    }
}

/// A key, as far as the session tells keys apart.
#[derive(Debug, Clone, Copy, PartialEq, Eq)]
pub enum KeyCode {
    Char(char),
    Esc,
    Up,
    Down,
    PageUp,
    PageDown,
    Tab,
    Enter,
    Other,
}

/// A key that was pressed; `control` says that the control key, and no other
/// modifier, was held with it.
#[derive(Debug, Clone, Copy, PartialEq, Eq)]
pub struct KeyPress {
    pub code: KeyCode,
    pub control: bool,
}

/// What the loop that owns the session is to do after a key.
#[derive(Debug)]
pub enum KeyOutcome {
    /// Go on.
    Continue,
    /// End the session.
    Exit,
    /// Tell the running deletion to stop.
    CancelCleaning,
    /// Tell the scan to stop, and start deleting the targets.
    StartCleaning { targets: Vec<DeleteTarget> },
}

/// Rows that the cursor moves with a page key.
pub const PAGE_ROWS: isize = 10;

/// The key is the interrupt: the letter c with the control key.
pub open spec fn is_interrupt(key: KeyPress) -> bool {
    key.control && key.code == KeyCode::Char('c')
}

/// The shown repositories as a selection: each report, and whether it is
/// selected.
pub open spec fn selection<'a>(items: Seq<RepoItem>, min_size_bytes: u64) -> Seq<
    (&'a RepoReport, bool),
> {
    shown(items, min_size_bytes).map_values(|item: RepoItem| (&item.report, item.selected))
}

/// What the text of the result is where nothing is selected.
pub open spec fn nothing_to_delete() -> Seq<Seq<char>> {
    seq!["Nothing to delete for current selection."@]
}

/// What asking for the deletion does on the main screen: with nothing to
/// delete the result screen says so; else the plan is put up for
/// confirmation, with its totals.
pub open spec fn confirm_asked(before: App, after: App, options: TuiOptions) -> bool {
    let plan = plan_of(selected_targets(selection(before.items@, options.min_size_bytes)));
    if plan.len() == 0 {
        &&& after.screen is Result
        &&& texts(after.result_lines@) == nothing_to_delete()
        &&& after == (App { screen: after.screen, result_lines: after.result_lines, ..before })
    } else {
        &&& after.screen matches Screen::Confirm(confirm) && models(confirm.targets@) == plan
            && confirm.planned_dirs == plan.len() && confirm.planned_bytes == planned_total(plan)
            && confirm.selected_repos == selection_totals(
            before.items@,
            options.min_size_bytes,
        ).2
        &&& after == (App { screen: after.screen, ..before })
    }
}

/// What switching the repository under the cursor does to a session.
pub open spec fn current_toggled(before: App, after: App, options: TuiOptions) -> bool {
    &&& match before.cursor {
        Some(row) => if row < before.rows(options).len() {
            exists|i: int|
                is_row(before.items@, options.min_size_bytes, i, row as int) && after.items@
                    == before.items@.update(i, toggled(before.items@[i]))
        } else {
            after.items@ == before.items@
        },
        None => after.items@ == before.items@,
    }
    &&& after == (App { items: after.items, ..before })
}

/// What setting all repositories to `value` does to a session.
pub open spec fn all_set(before: App, after: App, value: bool) -> bool {
    &&& after.items@.len() == before.items@.len()
    &&& forall|i: int|
        0 <= i < before.items@.len() ==> after.items@[i] == set_to(before.items@[i], value)
    &&& after == (App {
        items: after.items,
        new_repo_default_selected: Some(value),
        ..before
    })
}

/// What switching the sort mode does to a session.
pub open spec fn mode_switched(before: App, after: App, options: TuiOptions) -> bool {
    &&& after.sort_mode == other_mode(before.sort_mode)
    &&& after.items@ == sorted_by(ItemOrder { mode: after.sort_mode }, before.items@)
    &&& after.cursor == restored_cursor(after.rows(options), before.selected_root(options))
    &&& after == (App {
        sort_mode: after.sort_mode,
        items: after.items,
        cursor: after.cursor,
        ..before
    })
}

/// What a key does on the main screen.
pub open spec fn main_key_applied(
    before: App,
    after: App,
    options: TuiOptions,
    key: KeyPress,
    outcome: KeyOutcome,
) -> bool {
    let rows = before.rows(options).len() as int;
    match key.code {
        KeyCode::Esc => outcome is Exit && after == before,
        KeyCode::Up => outcome is Continue && after == (App {
            cursor: cursor_up(before.cursor, rows),
            ..before
        }),
        KeyCode::Down => outcome is Continue && after == (App {
            cursor: cursor_down(before.cursor, rows),
            ..before
        }),
        KeyCode::PageUp => outcome is Continue && after == (App {
            cursor: cursor_moved(before.cursor, rows, -PAGE_ROWS),
            ..before
        }),
        KeyCode::PageDown => outcome is Continue && after == (App {
            cursor: cursor_moved(before.cursor, rows, PAGE_ROWS as int),
            ..before
        }),
        KeyCode::Tab => outcome is Continue && mode_switched(before, after, options),
        KeyCode::Enter => outcome is Continue && confirm_asked(before, after, options),
        KeyCode::Char(c) => if c == 'q' {
            outcome is Exit && after == before
        } else if c == ' ' {
            outcome is Continue && current_toggled(before, after, options)
        } else if c == 'a' {
            outcome is Continue && all_set(before, after, true)
        } else if c == 'n' {
            outcome is Continue && all_set(before, after, false)
        } else {
            outcome is Continue && after == before
        },
        KeyCode::Other => outcome is Continue && after == before,
    }
}

/// The cleaning screen as it starts for a plan.
pub open spec fn cleaning_starts(
    cleaning: CleaningData,
    scan_root: Seq<u8>,
    plan: Seq<crate::clean::TargetModel>,
) -> bool {
    &&& cleaning.total == plan.len()
    &&& cleaning.planned_bytes == planned_total(plan)
    &&& cleaning.processed == 0
    &&& cleaning.deleted_paths == 0
    &&& cleaning.deleted_bytes == 0
    &&& cleaning.skipped_paths == 0
    &&& cleaning.error_count == 0
    &&& !cleaning.cancel_requested
    &&& if plan.len() == 0 {
        cleaning.current.is_none()
    } else {
        cleaning.current matches Some(text) && text@ == target_text(scan_root, plan[0])
    }
}

/// The key says yes.
pub open spec fn is_yes(code: KeyCode) -> bool {
    code == KeyCode::Char('y') || code == KeyCode::Char('Y')
}

/// The key says no.
pub open spec fn is_no(code: KeyCode) -> bool {
    code == KeyCode::Esc || code == KeyCode::Char('q') || code == KeyCode::Char('n') || code
        == KeyCode::Char('N')
}

/// What a key does on the confirmation screen: yes starts the deletion of
/// the plan, no goes back to the main screen and drops the plan.
pub open spec fn confirm_key_applied(
    before: App,
    after: App,
    scan_root: Seq<u8>,
    key: KeyPress,
    outcome: KeyOutcome,
) -> bool {
    match before.screen {
        Screen::Confirm(confirm) => if is_yes(key.code) {
            &&& outcome matches KeyOutcome::StartCleaning { targets } && models(targets@)
                == models(confirm.targets@)
            &&& after.screen matches Screen::Cleaning(cleaning) && cleaning_starts(
                cleaning,
                scan_root,
                models(confirm.targets@),
            )
            &&& after == (App { screen: after.screen, ..before })
        } else if is_no(key.code) {
            &&& outcome is Continue
            &&& after == (App { screen: Screen::Main, ..before })
        } else {
            outcome is Continue && after == before
        },
        _ => outcome is Continue && after == before,
    }
}

/// The session with the wish to cancel noted on the cleaning screen.
pub open spec fn cancel_noted(before: App, after: App) -> bool {
    match before.screen {
        Screen::Cleaning(cleaning) => after == (App {
            screen: Screen::Cleaning(CleaningData { cancel_requested: true, ..cleaning }),
            ..before
        }),
        _ => after == before,
    }
}

/// The key asks to stop the deletion.
pub open spec fn is_stop(code: KeyCode) -> bool {
    code == KeyCode::Esc || code == KeyCode::Char('q')
}

/// What a key does on the cleaning screen: only the wish to cancel counts.
pub open spec fn cleaning_key_applied(
    before: App,
    after: App,
    key: KeyPress,
    outcome: KeyOutcome,
) -> bool {
    if is_stop(key.code) {
        outcome is CancelCleaning && cancel_noted(before, after)
    } else {
        outcome is Continue && after == before
    }
}

/// What a key does to a session. The interrupt cancels a running deletion
/// and ends the session on any other screen. Any other key goes to the
/// screen that is shown; on the result screen every key ends the session.
pub open spec fn key_applied(
    before: App,
    after: App,
    scan_root: Seq<u8>,
    options: TuiOptions,
    key: KeyPress,
    outcome: KeyOutcome,
) -> bool {
    if is_interrupt(key) {
        if before.screen is Cleaning {
            outcome is CancelCleaning && cancel_noted(before, after)
        } else {
            outcome is Exit && after == before
        }
    } else {
        match before.screen {
            Screen::Main => main_key_applied(before, after, options, key, outcome),
            Screen::Confirm(_) => confirm_key_applied(before, after, scan_root, key, outcome),
            Screen::Cleaning(_) => cleaning_key_applied(before, after, key, outcome),
            Screen::Result => outcome is Exit && after == before,
        }
    }
}

/// Notes on the cleaning screen that the operator wants to cancel.
pub fn note_cancel(app: &mut App)
    ensures
        cancel_noted(*old(app), *final(app)),
        old(app).is_consistent() ==> final(app).is_consistent(),
        keeps_repositories(*old(app), *final(app)),
{
    match &mut app.screen {
        Screen::Cleaning(cleaning) => {
            cleaning.cancel_requested = true;
        },
        _ => {},
    }
}

/// The shown repositories as a selection.
pub fn selection_of<'a>(items: &'a Vec<RepoItem>, options: &TuiOptions) -> (pairs: Vec<
    (&'a RepoReport, bool),
>)
    ensures
        pairs@ == selection(items@, options.min_size_bytes),
{
    let mut pairs: Vec<(&RepoReport, bool)> = Vec::new();
    let mut i: usize = 0;
    proof {
        assert(items@.subrange(0, 0) =~= Seq::empty());
        assert(pairs@ =~= selection(items@.subrange(0, 0), options.min_size_bytes));
    }
    while i < items.len()
        invariant
            i <= items@.len(),
            pairs@ == selection(items@.subrange(0, i as int), options.min_size_bytes),
        decreases items@.len() - i,
    {
        proof {
            crate::select::lemma_shown_step(items@, options.min_size_bytes, i as int);
        }
        if is_visible(&items[i].report, options) {
            pairs.push((&items[i].report, items[i].selected));
            proof {
                assert(pairs@ =~= selection(
                    items@.subrange(0, i + 1),
                    options.min_size_bytes,
                ));
            }
        }
        i += 1;
    }
    proof {
        assert(items@.subrange(0, items@.len() as int) =~= items@);
    }
    pairs
}

/// Handles a key on the main screen.
pub fn handle_key_main(app: &mut App, options: &TuiOptions, key: KeyPress) -> (outcome: KeyOutcome)
    ensures
        main_key_applied(*old(app), *final(app), *options, key, outcome),
        old(app).is_consistent() ==> final(app).is_consistent(),
        keeps_repositories(*old(app), *final(app)),
{
    match key.code {
        KeyCode::Esc => {
            return KeyOutcome::Exit;
        },
        KeyCode::Up => app.move_cursor_up(options),
        KeyCode::Down => app.move_cursor_down(options),
        KeyCode::PageUp => app.move_cursor_by(options, -PAGE_ROWS),
        KeyCode::PageDown => app.move_cursor_by(options, PAGE_ROWS),
        KeyCode::Tab => app.toggle_sort_mode(options),
        KeyCode::Enter => {
            let pairs = selection_of(&app.items, options);
            let targets = plan_delete_targets(&pairs);
            if targets.len() == 0 {
                let mut lines: Vec<String> = Vec::new();
                lines.push(String::from_str("Nothing to delete for current selection."));
                proof {
                    assert(texts(lines@) =~= nothing_to_delete());
                }
                app.screen = Screen::Result;
                app.result_lines = lines;
                return KeyOutcome::Continue;
            }
            let planned_dirs = targets.len();
            let planned_bytes = DeleteSummary::planned(&targets).planned_bytes;
            let selected_repos = summarize_selection(&app.items, options).2;
            app.screen = Screen::Confirm(
                ConfirmData { targets, selected_repos, planned_dirs, planned_bytes },
            );
        },
        KeyCode::Char(c) => {
            if c == 'q' {
                return KeyOutcome::Exit;
            } else if c == ' ' {
                app.toggle_current(options);
            } else if c == 'a' {
                app.select_all(true);
            } else if c == 'n' {
                app.select_all(false);
            }
        },
        KeyCode::Other => {},
    }
    KeyOutcome::Continue
}

/// Handles a key on the confirmation screen.
pub fn handle_key_confirm(app: &mut App, scan_root: &FsPath, key: KeyPress) -> (outcome:
    KeyOutcome)
    ensures
        confirm_key_applied(*old(app), *final(app), scan_root@, key, outcome),
        old(app).is_consistent() ==> final(app).is_consistent(),
        keeps_repositories(*old(app), *final(app)),
{
    let targets = match &app.screen {
        Screen::Confirm(confirm) => crate::clean::clone_targets(&confirm.targets),
        _ => {
            return KeyOutcome::Continue;
        },
    };
    let yes = match key.code {
        KeyCode::Char(c) => c == 'y' || c == 'Y',
        _ => false,
    };
    let no = match key.code {
        KeyCode::Esc => true,
        KeyCode::Char(c) => c == 'q' || c == 'n' || c == 'N',
        _ => false,
    };
    if yes {
        let planned_bytes = DeleteSummary::planned(&targets).planned_bytes;
        let current = if targets.len() > 0 {
            Some(target_display(scan_root, &targets[0]))
        } else {
            None
        };
        app.screen = Screen::Cleaning(
            CleaningData {
                total: targets.len(),
                planned_bytes,
                processed: 0,
                deleted_paths: 0,
                deleted_bytes: 0,
                skipped_paths: 0,
                error_count: 0,
                current,
                cancel_requested: false,
            },
        );
        KeyOutcome::StartCleaning { targets }
    } else if no {
        app.screen = Screen::Main;
        KeyOutcome::Continue
    } else {
        KeyOutcome::Continue
    }
}

/// Handles a key on the cleaning screen.
pub fn handle_key_cleaning(app: &mut App, key: KeyPress) -> (outcome: KeyOutcome)
    ensures
        cleaning_key_applied(*old(app), *final(app), key, outcome),
        old(app).is_consistent() ==> final(app).is_consistent(),
        keeps_repositories(*old(app), *final(app)),
{
    let stop = match key.code {
        KeyCode::Esc => true,
        KeyCode::Char(c) => c == 'q',
        _ => false,
    };
    if stop {
        note_cancel(app);
        KeyOutcome::CancelCleaning
    } else {
        KeyOutcome::Continue
    }
}

/// Handles a key.
pub fn handle_key(app: &mut App, scan_root: &FsPath, options: &TuiOptions, key: KeyPress) -> (outcome:
    KeyOutcome)
    ensures
        key_applied(*old(app), *final(app), scan_root@, *options, key, outcome),
        old(app).is_consistent() ==> final(app).is_consistent(),
        keeps_repositories(*old(app), *final(app)),
{
    let interrupt = key.control && match key.code {
        KeyCode::Char(c) => c == 'c',
        _ => false,
    };
    if interrupt {
        if let Screen::Cleaning(_) = &app.screen {
            note_cancel(app);
            return KeyOutcome::CancelCleaning;
        }
        return KeyOutcome::Exit;
    }
    let at: u8 = match &app.screen {
        Screen::Main => 0,
        Screen::Confirm(_) => 1,
        Screen::Cleaning(_) => 2,
        Screen::Result => 3,
    };
    if at == 0 {
        handle_key_main(app, options, key)
    } else if at == 1 {
        handle_key_confirm(app, scan_root, key)
    } else if at == 2 {
        handle_key_cleaning(app, key)
    } else {
        KeyOutcome::Exit
    }
}

/// `emit` has been told of the target behind the snapshot `progress`: it got
/// the snapshot together with a copy of the target that the snapshot was
/// taken after.
pub open spec fn progress_told<E: Fn(CleanEvent)>(
    emit: &E,
    targets: Seq<DeleteTarget>,
    progress: DeleteProgress,
) -> bool {
    exists|current: DeleteTarget|
        1 <= progress.processed <= targets.len() && current@ == targets[progress.processed
            - 1]@ && #[trigger] call_ensures(*emit, (CleanEvent::Progress { progress, current },), ())
}

/// `emit` has been told of the end of a run with the given fates: it got the
/// summary of the run, with the note `canceled`.
pub open spec fn summary_told<E: Fn(CleanEvent)>(
    emit: &E,
    targets: Seq<DeleteTarget>,
    fates: Seq<TargetFate>,
    canceled: bool,
) -> bool {
    exists|summary: DeleteSummary|
        summary@ == run_summary(models(targets), fates) && #[trigger] call_ensures(
            *emit,
            (CleanEvent::Finished { summary, canceled },),
            (),
        )
}

/// What a worker has done once it returns `canceled`. It has carried out a
/// run over the first targets of the plan, each with a fate that the
/// answers of `check_ignored` and `remove` allow; it has processed a
/// target only after `should_cancel` said no, and has stopped before the
/// last target only where it said yes. It has told `emit` of
/// each of these targets, with the snapshot taken after it, and at the end
/// of the summary of the run, with the note `canceled`. The run counts as
/// canceled where targets were left and `should_cancel`, asked once more
/// at the end, said that it was.
pub open spec fn worker_done<
    C: Fn() -> bool,
    V: Fn(&DeleteTarget) -> IgnoreCheck,
    R: Fn(&DeleteTarget) -> Removal,
    E: Fn(CleanEvent),
>(
    targets: Seq<DeleteTarget>,
    dry_run: bool,
    should_cancel: C,
    check_ignored: V,
    remove: R,
    emit: E,
    canceled: bool,
) -> bool {
    exists|fates: Seq<TargetFate>|
        {
            &&& #[trigger] fates_allowed(targets, dry_run, check_ignored, remove, fates)
            &&& fates.len() < targets.len() ==> call_ensures(should_cancel, (), true)
            &&& fates.len() > 0 ==> call_ensures(should_cancel, (), false)
            &&& forall|i: int|
                0 <= i < fates.len() ==> progress_told(
                    &emit,
                    targets,
                    #[trigger] snapshot_after(models(targets), fates, i),
                )
            &&& canceled ==> fates.len() < targets.len()
            &&& call_ensures(should_cancel, (), canceled) || (!canceled && fates.len()
                == targets.len())
            &&& summary_told(&emit, targets, fates, canceled)
        }
}

/// Carries out the plan as `run_delete` does and tells the session of it:
/// after each target `emit` gets the snapshot and the target, and at the
/// end the summary, with the note whether the run was canceled before its
/// last target. Says whether it was.
pub fn clean_worker<C, V, R, E>(
    targets: &Vec<DeleteTarget>,
    dry_run: bool,
    should_cancel: C,
    check_ignored: V,
    remove: R,
    emit: E,
) -> (canceled: bool) where
    C: Fn() -> bool,
    V: Fn(&DeleteTarget) -> IgnoreCheck,
    R: Fn(&DeleteTarget) -> Removal,
    E: Fn(CleanEvent),

    requires
        call_requires(should_cancel, ()),
        forall|i: int|
            0 <= i < targets@.len() && !is_blocked(targets@[i].path@) ==> call_requires(
                check_ignored,
                (&#[trigger] targets@[i],),
            ),
        forall|i: int|
            0 <= i < targets@.len() && !is_blocked(targets@[i].path@) && !dry_run
                ==> call_requires(remove, (&#[trigger] targets@[i],)),
        forall|event: CleanEvent| call_requires(emit, (event,)),
    ensures
        worker_done(targets@, dry_run, should_cancel, check_ignored, remove, emit, canceled),
{
    let on_progress = |progress: DeleteProgress|
        requires
            progress_in_range(progress, targets@.len() as int),
        ensures
            progress_told(&emit, targets@, progress),
        {
            let current = targets[progress.processed - 1].clone();
            let event = CleanEvent::Progress { progress, current };
            emit(event);
        };
    let outcome = run_delete(
        targets,
        dry_run,
        &should_cancel,
        &check_ignored,
        &remove,
        &on_progress,
    );
    let asked = should_cancel();
    let canceled = asked && outcome.processed < targets.len();
    let ghost summary = outcome.summary;
    let event = CleanEvent::Finished { summary: outcome.summary, canceled };
    emit(event);
    proof {
        let fates = choose|fates: Seq<TargetFate>|
            fates.len() == outcome.processed && fates_allowed(
                targets@,
                dry_run,
                check_ignored,
                remove,
                fates,
            ) && summary@ == run_summary(models(targets@), fates) && progress_reported(
                models(targets@),
                fates,
                on_progress,
            );
        assert forall|i: int| 0 <= i < fates.len() implies progress_told(
            &emit,
            targets@,
            #[trigger] snapshot_after(models(targets@), fates, i),
        ) by {
            assert(call_ensures(on_progress, (snapshot_after(models(targets@), fates, i),), ()));
        }
        assert(summary_told(&emit, targets@, fates, canceled));
        assert(fates_allowed(targets@, dry_run, check_ignored, remove, fates));
    }
    canceled
}

/// The entry of a repository is sound: it holds an artifact, no path twice,
/// and its totals say what its artifacts add up to.
pub open spec fn item_sound(item: RepoItem) -> bool {
    &&& item.report.is_consistent()
    &&& item.report.artifacts@.len() > 0
    &&& distinct(keys(item.report.artifacts@))
}

/// The list is sound: it holds each repository once, and every entry is
/// sound.
pub open spec fn items_sound(items: Seq<RepoItem>) -> bool {
    &&& distinct(keys(items))
    &&& forall|i: int| 0 <= i < items.len() ==> item_sound(#[trigger] items[i])
}

/// Sorting a sound list gives a sound list in the order of the sort mode.
pub proof fn lemma_sorted_items_sound(mode: SortMode, items: Seq<RepoItem>)
    requires
        items_sound(items),
    ensures
        items_sound(sorted_by(ItemOrder { mode }, items)),
        is_sorted(ItemOrder { mode }, sorted_by(ItemOrder { mode }, items)),
{
    let order = ItemOrder { mode };
    let sorted = sorted_by(order, items);
    lemma_sorted_by(order, items);
    assert(items.no_duplicates()) by {
        assert forall|a: int, b: int|
            0 <= a < items.len() && 0 <= b < items.len() && a != b implies items[a]
            != items[b] by {
            if a < b {
                assert(keys(items)[a] != keys(items)[b]);
            } else {
                assert(keys(items)[b] != keys(items)[a]);
            }
        }
    }
    lemma_sorted_by_no_duplicates(order, items);
    assert forall|i: int| 0 <= i < sorted.len() implies item_sound(#[trigger] sorted[i]) by {
        lemma_sorted_by_contains(order, items, sorted[i]);
        assert(sorted.contains(sorted[i]));
        let m = choose|m: int| 0 <= m < items.len() && items[m] == sorted[i];
        assert(item_sound(items[m]));
    }
    assert forall|a: int, b: int| 0 <= a < b < sorted.len() implies keys(sorted)[a] != keys(
        sorted,
    )[b] by {
        lemma_sorted_by_contains(order, items, sorted[a]);
        lemma_sorted_by_contains(order, items, sorted[b]);
        assert(sorted.contains(sorted[a]));
        assert(sorted.contains(sorted[b]));
        let m = choose|m: int| 0 <= m < items.len() && items[m] == sorted[a];
        let n = choose|n: int| 0 <= n < items.len() && items[n] == sorted[b];
        if m < n {
            assert(keys(items)[m] != keys(items)[n]);
        } else if n < m {
            assert(keys(items)[n] != keys(items)[m]);
        }
    }
}

/// A list whose entries hold the reports of a sound and sorted list, up to
/// the commits, is sound and sorted in turn.
pub proof fn lemma_same_reports_sound(mode: SortMode, before: Seq<RepoItem>, after: Seq<RepoItem>)
    requires
        items_sound(before),
        is_sorted(ItemOrder { mode }, before),
        after.len() == before.len(),
        forall|i: int|
            0 <= i < before.len() ==> (#[trigger] after[i]).report == (RepoReport {
                head: after[i].report.head,
                ..before[i].report
            }),
    ensures
        items_sound(after),
        is_sorted(ItemOrder { mode }, after),
{
    let order = ItemOrder { mode };
    assert forall|i: int, j: int| 0 <= i < j < after.len() implies order.le(after[i], after[j]) by {
        assert(order.le(before[i], before[j]));
    }
    assert forall|i: int, j: int| 0 <= i < j < after.len() implies keys(after)[i] != keys(
        after,
    )[j] by {
        assert(keys(before)[i] != keys(before)[j]);
    }
    assert forall|i: int| 0 <= i < after.len() implies item_sound(#[trigger] after[i]) by {
        assert(item_sound(before[i]));
    }
}

/// A report that takes in an artifact with a path that it does not hold yet
/// still holds no path twice.
pub proof fn lemma_insert_keeps_distinct(artifacts: Seq<ArtifactRecord>, record: ArtifactRecord)
    requires
        distinct(keys(artifacts)),
        !keys(artifacts).contains(record.path@),
    ensures
        distinct(keys(insert_sorted(ArtifactOrder, artifacts, record))),
{
    let j = lemma_insert_sorted_is_insert(ArtifactOrder, artifacts, record);
    let after = artifacts.insert(j, record);
    assert forall|a: int, b: int| 0 <= a < b < after.len() implies keys(after)[a] != keys(after)[b] by {
        let a0 = if a < j {
            a
        } else {
            a - 1
        };
        let b0 = if b < j {
            b
        } else {
            b - 1
        };
        if a == j {
            assert(keys(artifacts)[b0] == keys(after)[b]);
            assert(keys(artifacts).contains(keys(artifacts)[b0]));
        } else if b == j {
            assert(keys(artifacts)[a0] == keys(after)[a]);
            assert(keys(artifacts).contains(keys(artifacts)[a0]));
        } else {
            assert(keys(artifacts)[a0] == keys(after)[a]);
            assert(keys(artifacts)[b0] == keys(after)[b]);
            assert(keys(artifacts)[a0] != keys(artifacts)[b0]);
        }
    }
}

/// Every repository of `before` is still a repository of `after`: a
/// session never drops a repository.
pub open spec fn keeps_repositories(before: App, after: App) -> bool {
    forall|root: Seq<u8>|
        keys(before.items@).contains(root) ==> #[trigger] keys(after.items@).contains(root)
}

/// Sorting the list keeps its repositories.
pub proof fn lemma_sorted_keys(mode: SortMode, items: Seq<RepoItem>)
    ensures
        forall|root: Seq<u8>|
            keys(items).contains(root) <==> #[trigger] keys(
                sorted_by(ItemOrder { mode }, items),
            ).contains(root),
{
    let order = ItemOrder { mode };
    let sorted = sorted_by(order, items);
    assert forall|root: Seq<u8>| keys(items).contains(root) <==> #[trigger] keys(
        sorted,
    ).contains(root) by {
        if keys(items).contains(root) {
            let m = choose|m: int| 0 <= m < items.len() && keys(items)[m] == root;
            lemma_sorted_by_contains(order, items, items[m]);
            assert(items.contains(items[m]));
            let k = choose|k: int| 0 <= k < sorted.len() && sorted[k] == items[m];
            assert(keys(sorted)[k] == root);
        }
        if keys(sorted).contains(root) {
            let k = choose|k: int| 0 <= k < sorted.len() && keys(sorted)[k] == root;
            lemma_sorted_by_contains(order, items, sorted[k]);
            assert(sorted.contains(sorted[k]));
            let m = choose|m: int| 0 <= m < items.len() && items[m] == sorted[k];
            assert(keys(items)[m] == root);
        }
    }
}

/// No more repositories are shown than there are.
pub proof fn lemma_shown_len(items: Seq<RepoItem>, min_size_bytes: u64)
    ensures
        shown(items, min_size_bytes).len() <= items.len(),
    decreases items.len(),
{
    if items.len() > 0 {
        lemma_shown_len(items.drop_last(), min_size_bytes);
    }
}

} // verus!
