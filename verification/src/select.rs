//! The repositories of a session as the operator sees them: which are
//! shown, in what order, which are selected, and where the cursor stands.

use vstd::prelude::*;
use crate::keyed::{first_index_of, keys, lemma_first_index_of, PathKeyed};
use crate::path::{lemma_path_order, path_le, FsPath};
use crate::report::RepoReport;
use crate::scan::saturating_sum;
use crate::sort::{lemma_sorted_by, lemma_sorted_by_contains, sorted_by, Ranking};
use crate::time::{lemma_time_key_order, time_key_in_order, time_key_le, Timestamp};
use crate::tui::TuiOptions;

verus! {

/// Days without modification from which a repository is selected by itself.
pub const AUTO_SELECT_DAYS: u64 = 180;

/// The order in which the repositories are listed.
#[derive(Debug, Clone, Copy, PartialEq, Eq, Structural)]
pub enum SortMode {
    /// Longest unmodified first.
    Age,
    /// Largest first.
    Size,
}

/// Who decides whether a repository is selected.
#[derive(Debug, Clone, Copy, PartialEq, Eq, Structural)]
pub enum SelectionMode {
    /// The rule of `should_auto_select`, applied again whenever the
    /// repository changes.
    Auto,
    /// The operator: the repository stays as it was set.
    Manual,
}

/// One repository of the session: its report, and whether it is selected.
#[derive(Debug)]
pub struct RepoItem {
    pub report: RepoReport,
    pub head_loaded: bool,
    pub selected: bool,
    pub selection_mode: SelectionMode,
    pub repo_display: String,
}

impl PathKeyed for RepoItem {
    open spec fn key(&self) -> Seq<u8> {
        self.report.repo_root@
    }

    fn key_path(&self) -> (p: &FsPath) {
        &self.report.repo_root
    }
}

/// A repository is shown where it has an artifact and its total size reaches
/// the threshold.
pub open spec fn visible(report: RepoReport, min_size_bytes: u64) -> bool {
    report.total_size_bytes >= min_size_bytes && report.artifacts@.len() > 0
}

/// Whether the repository is shown.
pub fn is_visible(report: &RepoReport, options: &TuiOptions) -> (r: bool)
    ensures
        r == visible(*report, options.min_size_bytes),
{
    report.total_size_bytes >= options.min_size_bytes && report.artifacts.len() > 0
}

/// Whole days since the repository was last modified: `None` where it has no
/// modification time, or one that lies after `now`.
pub open spec fn age_days(report: RepoReport, now: Timestamp) -> Option<int> {
    match report.newest_mtime {
        None => None,
        Some(newest) => now.days_since(newest),
    }
}

/// Whole days since the repository was last modified.
pub fn repo_age_days(report: &RepoReport, now: Timestamp) -> (r: Option<u64>)
    ensures
        r.is_some() == age_days(*report, now).is_some(),
        r matches Some(d) ==> age_days(*report, now) == Some(d as int),
{
    match report.newest_mtime {
        None => None,
        Some(newest) => now.whole_days_since(&newest),
    }
}

/// A repository is selected by itself where it is shown and stale: not
/// modified for `AUTO_SELECT_DAYS` days. What counts is the newest
/// modification among all its artifacts. One without any modification time
/// is stale; one modified after `now` is not.
pub open spec fn auto_selects(report: RepoReport, min_size_bytes: u64, now: Timestamp) -> bool {
    visible(report, min_size_bytes) && match report.newest_mtime {
        None => true,
        Some(newest) => now.days_since(newest) matches Some(days) && days >= AUTO_SELECT_DAYS,
    }
}

/// Whether the repository is selected by itself.
pub fn should_auto_select(report: &RepoReport, options: &TuiOptions, now: Timestamp) -> (r: bool)
    ensures
        r == auto_selects(*report, options.min_size_bytes, now),
{
    if !is_visible(report, options) {
        return false;
    }
    match report.newest_mtime {
        None => true,
        Some(newest) => match now.whole_days_since(&newest) {
            Some(days) => days >= AUTO_SELECT_DAYS,
            None => false,
        },
    }
}

/// Whether two optional times are the same.
pub fn same_time(a: Option<Timestamp>, b: Option<Timestamp>) -> (r: bool)
    ensures
        r == (a == b),
{
    match (a, b) {
        (None, None) => true,
        (Some(x), Some(y)) => x.secs == y.secs && x.nanos == y.nanos,
        _ => false,
    }
}

/// By age: the longer unmodified first, one without modification time
/// before all others; repositories of one time by the path of their root.
pub open spec fn age_le(a: RepoReport, b: RepoReport) -> bool {
    if a.newest_mtime != b.newest_mtime {
        time_key_le(a.newest_mtime, b.newest_mtime)
    } else {
        path_le(a.repo_root@, b.repo_root@)
    }
}

/// By size: the larger first; repositories of one size by age.
pub open spec fn size_le(a: RepoReport, b: RepoReport) -> bool {
    if a.total_size_bytes != b.total_size_bytes {
        a.total_size_bytes > b.total_size_bytes
    } else {
        age_le(a, b)
    }
}

/// The order of the repositories under a sort mode.
pub struct ItemOrder {
    pub mode: SortMode,
}

impl Ranking<RepoItem> for ItemOrder {
    open spec fn le(&self, a: RepoItem, b: RepoItem) -> bool {
        match self.mode {
            SortMode::Age => age_le(a.report, b.report),
            SortMode::Size => size_le(a.report, b.report),
        }
    }

    proof fn lemma_total(&self, a: RepoItem, b: RepoItem) {
        lemma_path_order(a.report.repo_root@, b.report.repo_root@, a.report.repo_root@);
        lemma_time_key_order(a.report.newest_mtime, b.report.newest_mtime, None);
    }

    proof fn lemma_transitive(&self, a: RepoItem, b: RepoItem, c: RepoItem) {
        lemma_path_order(a.report.repo_root@, b.report.repo_root@, c.report.repo_root@);
        lemma_time_key_order(a.report.newest_mtime, b.report.newest_mtime, c.report.newest_mtime);
        lemma_time_key_order(b.report.newest_mtime, a.report.newest_mtime, c.report.newest_mtime);
        lemma_time_key_order(c.report.newest_mtime, a.report.newest_mtime, b.report.newest_mtime);
    }

    fn in_order(&self, a: &RepoItem, b: &RepoItem) -> (r: bool) {
        match self.mode {
            SortMode::Age => reports_in_age_order(&a.report, &b.report),
            SortMode::Size => {
                if a.report.total_size_bytes != b.report.total_size_bytes {
                    a.report.total_size_bytes > b.report.total_size_bytes
                } else {
                    reports_in_age_order(&a.report, &b.report)
                }
            },
        }
    }
}

/// Whether `a` may stand before `b` when the repositories are listed by age.
pub fn reports_in_age_order(a: &RepoReport, b: &RepoReport) -> (r: bool)
    ensures
        r == age_le(*a, *b),
{
    if !same_time(a.newest_mtime, b.newest_mtime) {
        time_key_in_order(a.newest_mtime, b.newest_mtime)
    } else {
        proof {
            lemma_path_order(a.repo_root@, b.repo_root@, a.repo_root@);
        }
        !b.repo_root.precedes(&a.repo_root)
    }
}

/// The repositories that are shown, in the order of the list.
pub open spec fn shown(items: Seq<RepoItem>, min_size_bytes: u64) -> Seq<RepoItem>
    decreases items.len(),
{
    if items.len() == 0 {
        Seq::empty()
    } else if visible(items.last().report, min_size_bytes) {
        shown(items.drop_last(), min_size_bytes).push(items.last())
    } else {
        shown(items.drop_last(), min_size_bytes)
    }
}

/// The number of shown repositories among the first `i`.
pub open spec fn shown_before(items: Seq<RepoItem>, min_size_bytes: u64, i: int) -> int {
    shown(items.subrange(0, i), min_size_bytes).len() as int
}

/// The repository at index `i` is the one in row `row` of what is shown.
pub open spec fn is_row(items: Seq<RepoItem>, min_size_bytes: u64, i: int, row: int) -> bool {
    0 <= i < items.len() && visible(items[i].report, min_size_bytes) && shown_before(
        items,
        min_size_bytes,
        i,
    ) == row
}

/// What is shown of the first `i + 1` repositories is what is shown of the
/// first `i`, and the next one where it is shown.
pub proof fn lemma_shown_step(items: Seq<RepoItem>, min_size_bytes: u64, i: int)
    requires
        0 <= i < items.len(),
    ensures
        shown(items.subrange(0, i + 1), min_size_bytes) == if visible(
            items[i].report,
            min_size_bytes,
        ) {
            shown(items.subrange(0, i), min_size_bytes).push(items[i])
        } else {
            shown(items.subrange(0, i), min_size_bytes)
        },
{
    assert(items.subrange(0, i + 1).drop_last() =~= items.subrange(0, i));
}

/// What is shown of the first `i` repositories is the start of what is shown
/// of all.
pub proof fn lemma_shown_prefix(items: Seq<RepoItem>, min_size_bytes: u64, i: int)
    requires
        0 <= i <= items.len(),
    ensures
        shown_before(items, min_size_bytes, i) <= shown(items, min_size_bytes).len(),
        shown(items.subrange(0, i), min_size_bytes) == shown(items, min_size_bytes).subrange(
            0,
            shown_before(items, min_size_bytes, i),
        ),
        i < items.len() && visible(items[i].report, min_size_bytes) ==> shown_before(
            items,
            min_size_bytes,
            i,
        ) < shown(items, min_size_bytes).len() && shown(items, min_size_bytes)[shown_before(
            items,
            min_size_bytes,
            i,
        )] == items[i],
    decreases items.len() - i,
{
    if i == items.len() {
        assert(items.subrange(0, i) =~= items);
        assert(shown(items, min_size_bytes).subrange(
            0,
            shown(items, min_size_bytes).len() as int,
        ) =~= shown(items, min_size_bytes));
    } else {
        lemma_shown_step(items, min_size_bytes, i);
        lemma_shown_prefix(items, min_size_bytes, i + 1);
        let here = shown(items.subrange(0, i), min_size_bytes);
        let next = shown(items.subrange(0, i + 1), min_size_bytes);
        let all = shown(items, min_size_bytes);
        assert(here =~= all.subrange(0, here.len() as int)) by {
            assert forall|k: int| 0 <= k < here.len() implies here[k] == all[k] by {
                assert(here[k] == next[k]);
                assert(next[k] == all.subrange(0, next.len() as int)[k]);
            }
        }
        if visible(items[i].report, min_size_bytes) {
            assert(next[here.len() as int] == items[i]);
            assert(all.subrange(0, next.len() as int)[here.len() as int] == items[i]);
        }
    }
}

/// A repository is among the shown ones where it is in the list and visible.
pub proof fn lemma_shown_contains(items: Seq<RepoItem>, min_size_bytes: u64, x: RepoItem)
    ensures
        shown(items, min_size_bytes).contains(x) <==> (items.contains(x) && visible(
            x.report,
            min_size_bytes,
        )),
    decreases items.len(),
{
    let all = shown(items, min_size_bytes);
    if items.len() > 0 {
        let front = items.drop_last();
        let rest = shown(front, min_size_bytes);
        lemma_shown_contains(front, min_size_bytes, x);
        if all.contains(x) {
            let k = choose|k: int| 0 <= k < all.len() && all[k] == x;
            if k < rest.len() {
                assert(rest[k] == x);
                let m = choose|m: int| 0 <= m < front.len() && front[m] == x;
                assert(items[m] == x);
            } else {
                assert(items[items.len() - 1] == x);
            }
        }
        if items.contains(x) && visible(x.report, min_size_bytes) {
            let m = choose|m: int| 0 <= m < items.len() && items[m] == x;
            if m < front.len() {
                assert(front[m] == x);
                let k = choose|k: int| 0 <= k < rest.len() && rest[k] == x;
                assert(all[k] == x);
            } else {
                assert(all[all.len() - 1] == x);
            }
        }
    }
}

/// The cursor as it stands once it is made to fit `rows` rows: nowhere
/// where there are none, where it was if that is a row, and else on the
/// first row.
pub open spec fn fitted_cursor(cursor: Option<usize>, rows: int) -> Option<usize> {
    if rows == 0 {
        None
    } else if cursor matches Some(row) && row < rows {
        cursor
    } else {
        Some(0)
    }
}

/// The cursor put back on the repository with the root `root`: on its row
/// where it is shown, else on the first row, and nowhere where nothing is
/// shown.
pub open spec fn restored_cursor(rows: Seq<RepoItem>, root: Option<Seq<u8>>) -> Option<usize> {
    if rows.len() == 0 {
        None
    } else {
        match root {
            Some(r) => if keys(rows).contains(r) {
                Some(first_index_of(keys(rows), r) as usize)
            } else {
                Some(0)
            },
            None => Some(0),
        }
    }
}

/// The root of the repository on which the cursor stands, if it stands on
/// one.
pub open spec fn cursor_root(rows: Seq<RepoItem>, cursor: Option<usize>) -> Option<Seq<u8>> {
    match cursor {
        Some(row) if row < rows.len() => Some(rows[row as int].key()),
        _ => None,
    }
}

/// The repository as the operator has switched it: selected where it was
/// not and the other way round, and from now on as the operator set it.
pub open spec fn toggled(item: RepoItem) -> RepoItem {
    RepoItem { selected: !item.selected, selection_mode: SelectionMode::Manual, ..item }
}

/// The repository set by the operator to `value`.
pub open spec fn set_to(item: RepoItem, value: bool) -> RepoItem {
    RepoItem { selected: value, selection_mode: SelectionMode::Manual, ..item }
}

/// The sum of two counts, held at the largest `usize` where it would pass it.
pub open spec fn saturating_count(a: usize, b: usize) -> usize {
    if a + b > usize::MAX {
        usize::MAX
    } else {
        (a + b) as usize
    }
}

/// What is selected among the shown repositories: the number of artifacts,
/// the bytes they hold together, and the number of repositories.
pub open spec fn selection_totals(items: Seq<RepoItem>, min_size_bytes: u64) -> (usize, u64, usize)
    decreases items.len(),
{
    if items.len() == 0 {
        (0, 0, 0)
    } else {
        let rest = selection_totals(items.drop_last(), min_size_bytes);
        let item = items.last();
        if visible(item.report, min_size_bytes) && item.selected {
            (
                saturating_count(rest.0, item.report.artifacts@.len() as usize),
                saturating_sum(rest.1, item.report.total_size_bytes),
                saturating_count(rest.2, 1),
            )
        } else {
            rest
        }
    }
}

/// Counts what is selected among the shown repositories: artifacts, bytes
/// and repositories.
pub fn summarize_selection(items: &Vec<RepoItem>, options: &TuiOptions) -> (r: (usize, u64, usize))
    ensures
        r == selection_totals(items@, options.min_size_bytes),
{
    let mut planned_dirs: usize = 0;
    let mut reclaim_bytes: u64 = 0;
    let mut selected_repos: usize = 0;
    let mut i: usize = 0;
    while i < items.len()
        invariant
            i <= items@.len(),
            (planned_dirs, reclaim_bytes, selected_repos) == selection_totals(
                items@.subrange(0, i as int),
                options.min_size_bytes,
            ),
        decreases items@.len() - i,
    {
        proof {
            assert(items@.subrange(0, i + 1).drop_last() =~= items@.subrange(0, i as int));
        }
        let item = &items[i];
        if is_visible(&item.report, options) && item.selected {
            selected_repos = selected_repos.saturating_add(1);
            planned_dirs = planned_dirs.saturating_add(item.report.artifacts.len());
            reclaim_bytes = reclaim_bytes.saturating_add(item.report.total_size_bytes);
        }
        i += 1;
    }
    proof {
        assert(items@.subrange(0, items@.len() as int) =~= items@);
    }
    (planned_dirs, reclaim_bytes, selected_repos)
}

/// The number of shown repositories.
pub fn visible_count(items: &Vec<RepoItem>, options: &TuiOptions) -> (n: usize)
    ensures
        n == shown(items@, options.min_size_bytes).len(),
{
    let mut n: usize = 0;
    let mut i: usize = 0;
    while i < items.len()
        invariant
            i <= items@.len(),
            n <= i,
            n == shown_before(items@, options.min_size_bytes, i as int),
        decreases items@.len() - i,
    {
        proof {
            lemma_shown_step(items@, options.min_size_bytes, i as int);
        }
        if is_visible(&items[i].report, options) {
            n += 1;
        }
        i += 1;
    }
    proof {
        assert(items@.subrange(0, items@.len() as int) =~= items@);
    }
    n
}

/// Index in the list of the repository in row `row`.
pub fn index_of_row(items: &Vec<RepoItem>, options: &TuiOptions, row: usize) -> (r: Option<usize>)
    ensures
        r.is_some() == (row < shown(items@, options.min_size_bytes).len()),
        r matches Some(i) ==> is_row(items@, options.min_size_bytes, i as int, row as int)
            && shown(items@, options.min_size_bytes)[row as int] == items@[i as int],
{
    let mut seen: usize = 0;
    let mut i: usize = 0;
    while i < items.len()
        invariant
            i <= items@.len(),
            seen <= i,
            seen <= row,
            seen == shown_before(items@, options.min_size_bytes, i as int),
        decreases items@.len() - i,
    {
        proof {
            lemma_shown_step(items@, options.min_size_bytes, i as int);
            lemma_shown_prefix(items@, options.min_size_bytes, i as int);
        }
        if is_visible(&items[i].report, options) {
            if seen == row {
                return Some(i);
            }
            seen += 1;
        }
        i += 1;
    }
    proof {
        assert(items@.subrange(0, items@.len() as int) =~= items@);
    }
    None
}

/// Row of the first shown repository with the root `root`.
pub fn row_of_root(items: &Vec<RepoItem>, options: &TuiOptions, root: &FsPath) -> (r: Option<usize>)
    ensures
        r.is_some() == keys(shown(items@, options.min_size_bytes)).contains(root@),
        r matches Some(row) ==> row == first_index_of(
            keys(shown(items@, options.min_size_bytes)),
            root@,
        ) && row < shown(items@, options.min_size_bytes).len(),
{
    let ghost all = shown(items@, options.min_size_bytes);
    let mut seen: usize = 0;
    let mut i: usize = 0;
    while i < items.len()
        invariant
            i <= items@.len(),
            seen <= i,
            all == shown(items@, options.min_size_bytes),
            seen == shown_before(items@, options.min_size_bytes, i as int),
            seen <= all.len(),
            forall|k: int| 0 <= k < seen ==> keys(all)[k] != root@,
        decreases items@.len() - i,
    {
        proof {
            lemma_shown_step(items@, options.min_size_bytes, i as int);
            lemma_shown_prefix(items@, options.min_size_bytes, i as int);
            lemma_shown_prefix(items@, options.min_size_bytes, i + 1);
        }
        if is_visible(&items[i].report, options) {
            if items[i].report.repo_root.same(root) {
                proof {
                    assert(keys(all)[seen as int] == root@);
                    lemma_first_index_of(keys(all), root@);
                }
                return Some(seen);
            }
            seen += 1;
        }
        i += 1;
    }
    proof {
        assert(items@.subrange(0, items@.len() as int) =~= items@);
        lemma_first_index_of(keys(all), root@);
    }
    None
}

/// Sorting the list shows the same repositories as before, and the
/// repository under the cursor is still shown.
pub proof fn lemma_sort_keeps_shown(order: ItemOrder, items: Seq<RepoItem>, min_size_bytes: u64)
    ensures
        sorted_by(order, items).to_multiset() == items.to_multiset(),
        forall|x: RepoItem|
            shown(sorted_by(order, items), min_size_bytes).contains(x) <==> shown(
                items,
                min_size_bytes,
            ).contains(x),
        forall|p: Seq<u8>|
            keys(shown(sorted_by(order, items), min_size_bytes)).contains(p) <==> keys(
                shown(items, min_size_bytes),
            ).contains(p),
{
    let sorted = sorted_by(order, items);
    let a = shown(sorted, min_size_bytes);
    let b = shown(items, min_size_bytes);
    lemma_sorted_by(order, items);
    assert forall|x: RepoItem| a.contains(x) <==> b.contains(x) by {
        lemma_shown_contains(sorted, min_size_bytes, x);
        lemma_shown_contains(items, min_size_bytes, x);
        lemma_sorted_by_contains(order, items, x);
    }
    assert forall|p: Seq<u8>| keys(a).contains(p) <==> keys(b).contains(p) by {
        if keys(a).contains(p) {
            let k = choose|k: int| 0 <= k < keys(a).len() && keys(a)[k] == p;
            assert(a.contains(a[k]));
            let m = choose|m: int| 0 <= m < b.len() && b[m] == a[k];
            assert(keys(b)[m] == p);
        }
        if keys(b).contains(p) {
            let k = choose|k: int| 0 <= k < keys(b).len() && keys(b)[k] == p;
            assert(b.contains(b[k]));
            let m = choose|m: int| 0 <= m < a.len() && a[m] == b[k];
            assert(keys(a)[m] == p);
        }
    }
}

/// A cursor that is put back on a root that is shown stands on a repository
/// with that root.
pub proof fn lemma_restored_cursor(rows: Seq<RepoItem>, root: Seq<u8>)
    requires
        keys(rows).contains(root),
        rows.len() <= usize::MAX,
    ensures
        cursor_root(rows, restored_cursor(rows, Some(root))) == Some(root),
{
    lemma_first_index_of(keys(rows), root);
    let row = first_index_of(keys(rows), root);
    assert(rows[row].key() == keys(rows)[row]);
}

} // verus!
