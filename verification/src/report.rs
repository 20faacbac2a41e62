//! Artifacts, and the report that gathers the artifacts of one repository.

use vstd::prelude::*;
use crate::git::GitHead;
use vstd::string::StringExecFns;
use crate::format::{
    count_text, decimal, display_path, display_rel_path, format_bytes, human_size, rel_display,
    texts, utf8_lossy,
};
use crate::git::{find_git_root, head_display, head_text, nearest_root, no_root};
use crate::keyed::{ascending, insert_distinct, keys, lemma_first_index_of, position_of, with_item, lemma_with_item, PathKeyed};
use crate::path::{lemma_path_order, path_le, FsPath};
use crate::scan::{aggregate, empty_stats, merged, saturating_sum, DirStats};
use crate::sort::{
    insert_in_order, insert_sorted, is_sorted, lemma_sorted_by, lemma_sorted_by_contains,
    lemma_sorted_by_no_duplicates, reversed, sorted_by, stable_sort, Ranking,
};
use crate::time::{Span, Timestamp};

verus! {

/// One artifact: a path that version control ignores, with the repository it
/// lies in and its size and newest modification time.
#[derive(Debug, PartialEq, Eq)]
pub struct ArtifactRecord {
    pub repo_root: FsPath,
    pub path: FsPath,
    pub stats: DirStats,
}

impl Clone for ArtifactRecord {
    fn clone(&self) -> (r: Self)
        ensures
            r.repo_root@ == self.repo_root@,
            r.path@ == self.path@,
            r.stats == self.stats,
    {
        ArtifactRecord {
            repo_root: self.repo_root.clone(),
            path: self.path.clone(),
            stats: self.stats,
        }
    }
}

impl PathKeyed for ArtifactRecord {
    open spec fn key(&self) -> Seq<u8> {
        self.path@
    }

    fn key_path(&self) -> (p: &FsPath) {
        &self.path
    }
}

/// The artifact has not been modified for at least `stale_for` at `now`. One
/// without a modification time counts as stale, one modified after `now` as
/// not.
pub open spec fn stale_at(stats: DirStats, now: Timestamp, stale_for: Span) -> bool {
    match stats.newest_mtime {
        None => true,
        Some(newest) => now.total_nanos() >= newest.total_nanos() && now.total_nanos()
            - newest.total_nanos() >= stale_for.total_nanos(),
    }
}

impl ArtifactRecord {
    /// Whether the artifact has not been modified for at least `stale_for`.
    pub fn is_stale(&self, now: Timestamp, stale_for: Span) -> (r: bool)
        ensures
            r == stale_at(self.stats, now, stale_for),
    {
        match self.stats.newest_mtime {
            None => true,
            Some(newest) => {
                assert(stale_for.total_nanos() >= 0) by (nonlinear_arith)
                    requires
                        stale_for.secs >= 0,
                        stale_for.nanos >= 0,
                        stale_for.total_nanos() == stale_for.secs * 1_000_000_000
                            + stale_for.nanos,
                ;
                now.has_passed(&newest, &stale_for)
            },
        }
    }
}

/// The order of the artifacts of a report: larger first, and those of one
/// size by path.
pub struct ArtifactOrder;

impl Ranking<ArtifactRecord> for ArtifactOrder {
    open spec fn le(&self, a: ArtifactRecord, b: ArtifactRecord) -> bool {
        a.stats.size_bytes > b.stats.size_bytes || (a.stats.size_bytes == b.stats.size_bytes
            && path_le(a.path@, b.path@))
    }

    proof fn lemma_total(&self, a: ArtifactRecord, b: ArtifactRecord) {
        lemma_path_order(a.path@, b.path@, a.path@);
    }

    proof fn lemma_transitive(&self, a: ArtifactRecord, b: ArtifactRecord, c: ArtifactRecord) {
        lemma_path_order(a.path@, b.path@, c.path@);
    }

    fn in_order(&self, a: &ArtifactRecord, b: &ArtifactRecord) -> (r: bool) {
        proof {
            lemma_path_order(a.path@, b.path@, a.path@);
        }
        a.stats.size_bytes > b.stats.size_bytes || (a.stats.size_bytes == b.stats.size_bytes
            && !b.path.precedes(&a.path))
    }
}

/// The statistics of the artifacts, in their order.
pub open spec fn stats_of(artifacts: Seq<ArtifactRecord>) -> Seq<DirStats> {
    artifacts.map_values(|a: ArtifactRecord| a.stats)
}

/// The bytes held by those of the artifacts that are stale, held at the
/// largest `u64` where the sum would pass it.
pub open spec fn stale_bytes(artifacts: Seq<ArtifactRecord>, now: Timestamp, stale_for: Span) -> u64
    decreases artifacts.len(),
{
    if artifacts.len() == 0 {
        0
    } else {
        let rest = stale_bytes(artifacts.drop_last(), now, stale_for);
        if stale_at(artifacts.last().stats, now, stale_for) {
            saturating_sum(rest, artifacts.last().stats.size_bytes)
        } else {
            rest
        }
    }
}

/// The artifacts of one repository, with their total size and their newest
/// modification time.
#[derive(Debug, PartialEq, Eq)]
pub struct RepoReport {
    pub repo_root: FsPath,
    pub head: Option<GitHead>,
    pub artifacts: Vec<ArtifactRecord>,
    pub total_size_bytes: u64,
    pub newest_mtime: Option<Timestamp>,
}

impl PathKeyed for RepoReport {
    open spec fn key(&self) -> Seq<u8> {
        self.repo_root@
    }

    fn key_path(&self) -> (p: &FsPath) {
        &self.repo_root
    }
}

impl RepoReport {
    /// The totals say what the artifacts add up to, and the artifacts stand
    /// in their order.
    pub open spec fn is_consistent(&self) -> bool {
        &&& is_sorted(ArtifactOrder, self.artifacts@)
        &&& self.total_size_bytes == aggregate(stats_of(self.artifacts@)).size_bytes
        &&& self.newest_mtime == aggregate(stats_of(self.artifacts@)).newest_mtime
    }

    /// The report of a repository of which no artifact is known yet.
    pub fn new(repo_root: FsPath, head: Option<GitHead>) -> (r: Self)
        ensures
            r.repo_root == repo_root,
            r.head == head,
            r.artifacts@.len() == 0,
            r.total_size_bytes == 0,
            r.newest_mtime.is_none(),
            r.is_consistent(),
    {
        RepoReport {
            repo_root,
            head,
            artifacts: Vec::new(),
            total_size_bytes: 0,
            newest_mtime: None,
        }
    }

    /// Takes one more artifact into the report, at its place in the order,
    /// and adds it to the totals.
    pub fn add_artifact(&mut self, record: ArtifactRecord)
        ensures
            final(self).repo_root == old(self).repo_root,
            final(self).head == old(self).head,
            final(self).artifacts@ == insert_sorted(ArtifactOrder, old(self).artifacts@, record),
            final(self).total_size_bytes == saturating_sum(
                old(self).total_size_bytes,
                record.stats.size_bytes,
            ),
            final(self).newest_mtime == crate::time::later_of(
                old(self).newest_mtime,
                record.stats.newest_mtime,
            ),
            old(self).is_consistent() ==> final(self).is_consistent(),
    {
        proof {
            if self.is_consistent() {
                lemma_add_keeps_totals(self.artifacts@, record);
                crate::sort::lemma_insert_sorted_is_sorted(ArtifactOrder, self.artifacts@, record);
            }
        }
        self.total_size_bytes = self.total_size_bytes.saturating_add(record.stats.size_bytes);
        self.newest_mtime = crate::time::max_time(self.newest_mtime, record.stats.newest_mtime);
        insert_in_order(&mut self.artifacts, record, &ArtifactOrder);
    }

    /// The bytes held by the stale artifacts of the report.
    pub fn stale_size_bytes(&self, now: Timestamp, stale_for: Span) -> (r: u64)
        ensures
            r == stale_bytes(self.artifacts@, now, stale_for),
    {
        let mut sum: u64 = 0;
        let mut i: usize = 0;
        while i < self.artifacts.len()
            invariant
                i <= self.artifacts@.len(),
                sum == stale_bytes(self.artifacts@.subrange(0, i as int), now, stale_for),
            decreases self.artifacts@.len() - i,
        {
            proof {
                assert(self.artifacts@.subrange(0, i + 1).drop_last() =~= self.artifacts@.subrange(
                    0,
                    i as int,
                ));
            }
            if self.artifacts[i].is_stale(now, stale_for) {
                sum = sum.saturating_add(self.artifacts[i].stats.size_bytes);
            }
            i += 1;
        }
        proof {
            assert(self.artifacts@.subrange(0, self.artifacts@.len() as int) =~= self.artifacts@);
        }
        sum
    }
}

/// The totals of the artifacts with one more among them are the totals of
/// before merged with the statistics of the new one, wherever it stands.
pub proof fn lemma_add_keeps_totals(artifacts: Seq<ArtifactRecord>, record: ArtifactRecord)
    ensures
        aggregate(stats_of(insert_sorted(ArtifactOrder, artifacts, record))) == merged(
            aggregate(stats_of(artifacts)),
            record.stats,
        ),
{
    broadcast use vstd::seq_lib::group_to_multiset_ensures;

    let out = insert_sorted(ArtifactOrder, artifacts, record);
    crate::sort::lemma_insert_sorted_items(ArtifactOrder, artifacts, record);
    lemma_stats_of_multiset(out, artifacts.push(record));
    crate::scan::lemma_aggregate_any_order(stats_of(out), stats_of(artifacts.push(record)));
    assert(stats_of(artifacts.push(record)).drop_last() =~= stats_of(artifacts));
}

/// Sequences that hold the same artifacts, each as often, hold the same
/// statistics, each as often.
pub proof fn lemma_stats_of_multiset(a: Seq<ArtifactRecord>, b: Seq<ArtifactRecord>)
    requires
        a.to_multiset() == b.to_multiset(),
    ensures
        stats_of(a).to_multiset() == stats_of(b).to_multiset(),
    decreases a.len(),
{
    broadcast use vstd::seq_lib::group_to_multiset_ensures;

    a.to_multiset_ensures();
    b.to_multiset_ensures();
    if a.len() == 0 {
        assert(b.to_multiset().len() == 0);
        assert(stats_of(a) =~= stats_of(b));
    } else {
        let x = a.last();
        let front = a.drop_last();
        assert(a =~= front.push(x));
        assert(a.to_multiset().count(x) > 0);
        assert(b.contains(x));
        let k = choose|k: int| 0 <= k < b.len() && b[k] == x;
        assert(front.to_multiset() =~= a.to_multiset().remove(x));
        assert(b.remove(k).to_multiset() =~= b.to_multiset().remove(x));
        lemma_stats_of_multiset(front, b.remove(k));
        assert(stats_of(a) =~= stats_of(front).push(x.stats));
        assert(stats_of(b.remove(k)) =~= stats_of(b).remove(k));
        stats_of(b).to_multiset_ensures();
        assert(stats_of(b).to_multiset() =~= stats_of(b).remove(k).to_multiset().insert(x.stats));
    }
}

/// The time of the newest commit of the repository, if it has a commit.
pub open spec fn head_time(report: RepoReport) -> Option<i64> {
    match report.head {
        Some(head) => Some(head.unix_seconds),
        None => None,
    }
}

/// The order of the reports of a batch: the repository whose newest commit
/// is older first, those of one time by the path of their root, and those
/// without a commit last, by the path of their root.
pub struct ReportOrder;

impl Ranking<RepoReport> for ReportOrder {
    open spec fn le(&self, a: RepoReport, b: RepoReport) -> bool {
        match (head_time(a), head_time(b)) {
            (Some(x), Some(y)) => x < y || (x == y && path_le(a.repo_root@, b.repo_root@)),
            (Some(_), None) => true,
            (None, Some(_)) => false,
            (None, None) => path_le(a.repo_root@, b.repo_root@),
        }
    }

    proof fn lemma_total(&self, a: RepoReport, b: RepoReport) {
        lemma_path_order(a.repo_root@, b.repo_root@, a.repo_root@);
    }

    proof fn lemma_transitive(&self, a: RepoReport, b: RepoReport, c: RepoReport) {
        lemma_path_order(a.repo_root@, b.repo_root@, c.repo_root@);
    }

    fn in_order(&self, a: &RepoReport, b: &RepoReport) -> (r: bool) {
        proof {
            lemma_path_order(a.repo_root@, b.repo_root@, a.repo_root@);
        }
        match (&a.head, &b.head) {
            (Some(x), Some(y)) => x.unix_seconds < y.unix_seconds || (x.unix_seconds
                == y.unix_seconds && !b.repo_root.precedes(&a.repo_root)),
            (Some(_), None) => true,
            (None, Some(_)) => false,
            (None, None) => !b.repo_root.precedes(&a.repo_root),
        }
    }
}

/// Those of the records that lie in the repository at `root`, in their
/// order.
pub open spec fn records_of(records: Seq<ArtifactRecord>, root: Seq<u8>) -> Seq<ArtifactRecord>
    decreases records.len(),
{
    if records.len() == 0 {
        Seq::empty()
    } else if records.last().repo_root@ == root {
        records_of(records.drop_last(), root).push(records.last())
    } else {
        records_of(records.drop_last(), root)
    }
}

/// The roots of the repositories of the records, in the order of the
/// records.
pub open spec fn roots_of(records: Seq<ArtifactRecord>) -> Seq<Seq<u8>> {
    records.map_values(|r: ArtifactRecord| r.repo_root@)
}

/// The report holds the artifacts that the records name for its repository,
/// larger first, and its totals are theirs.
pub open spec fn gathers(report: RepoReport, records: Seq<ArtifactRecord>) -> bool {
    &&& report.artifacts@ == sorted_by(ArtifactOrder, records_of(records, report.repo_root@))
    &&& report.is_consistent()
}

/// What a report gathers are records: an artifact that is in no record is
/// in no report.
pub proof fn lemma_gathers_records_only(report: RepoReport, records: Seq<ArtifactRecord>)
    requires
        gathers(report, records),
    ensures
        forall|k: int|
            0 <= k < report.artifacts@.len() ==> records.contains(#[trigger] report.artifacts@[k])
                && report.artifacts@[k].repo_root@ == report.repo_root@,
{
    let own = records_of(records, report.repo_root@);
    assert forall|k: int| 0 <= k < report.artifacts@.len() implies records.contains(
        #[trigger] report.artifacts@[k],
    ) && report.artifacts@[k].repo_root@ == report.repo_root@ by {
        let artifact = report.artifacts@[k];
        lemma_sorted_by_contains(ArtifactOrder, own, artifact);
        assert(report.artifacts@.contains(artifact));
        lemma_records_of_contains(records, report.repo_root@, artifact);
    }
}

/// The records of a repository are the records that name its root.
pub proof fn lemma_records_of_contains(
    records: Seq<ArtifactRecord>,
    root: Seq<u8>,
    record: ArtifactRecord,
)
    ensures
        records_of(records, root).contains(record) <==> (records.contains(record)
            && record.repo_root@ == root),
    decreases records.len(),
{
    let own = records_of(records, root);
    if records.len() > 0 {
        let front = records.drop_last();
        let rest = records_of(front, root);
        lemma_records_of_contains(front, root, record);
        if own.contains(record) {
            let k = choose|k: int| 0 <= k < own.len() && own[k] == record;
            if k < rest.len() {
                assert(rest[k] == record);
                let m = choose|m: int| 0 <= m < front.len() && front[m] == record;
                assert(records[m] == record);
            } else {
                assert(records[records.len() - 1] == record);
            }
        }
        if records.contains(record) && record.repo_root@ == root {
            let m = choose|m: int| 0 <= m < records.len() && records[m] == record;
            if m < front.len() {
                assert(front[m] == record);
                let k = choose|k: int| 0 <= k < rest.len() && rest[k] == record;
                assert(own[k] == record);
            } else {
                assert(own[own.len() - 1] == record);
            }
        }
    }
}

/// No record lies in a repository of which no record names the root.
pub proof fn lemma_records_of_none(records: Seq<ArtifactRecord>, root: Seq<u8>)
    requires
        !roots_of(records).contains(root),
    ensures
        records_of(records, root).len() == 0,
    decreases records.len(),
{
    if records.len() > 0 {
        let front = records.drop_last();
        assert(roots_of(records)[records.len() - 1] == records.last().repo_root@);
        assert forall|k: int| 0 <= k < front.len() implies roots_of(front)[k] != root by {
            assert(roots_of(records)[k] == roots_of(front)[k]);
        }
        lemma_records_of_none(front, root);
    }
}

/// Gathers the artifacts into one report for each repository: the reports
/// stand in the order of the paths of their roots, and none knows the newest
/// commit of its repository yet.
pub fn group_by_repository(records: Vec<ArtifactRecord>) -> (groups: Vec<RepoReport>)
    ensures
        ascending(keys(groups@)),
        forall|root: Seq<u8>| keys(groups@).contains(root) <==> roots_of(records@).contains(root),
        forall|k: int|
            0 <= k < groups@.len() ==> gathers(#[trigger] groups@[k], records@) && groups@[k].head
                == None::<GitHead>,
{
    let ghost all = records@;
    let mut stack = reversed(records);
    let mut groups: Vec<RepoReport> = Vec::new();
    let ghost mut done: Seq<ArtifactRecord> = Seq::empty();
    proof {
        assert(roots_of(done) =~= Seq::empty());
    }
    while stack.len() > 0
        invariant
            stack@.len() <= all.len(),
            done == all.subrange(0, all.len() - stack@.len()),
            forall|i: int| 0 <= i < stack@.len() ==> stack@[i] == all[all.len() - 1 - i],
            ascending(keys(groups@)),
            forall|root: Seq<u8>| keys(groups@).contains(root) <==> roots_of(done).contains(root),
            forall|k: int|
                0 <= k < groups@.len() ==> gathers(#[trigger] groups@[k], done) && groups@[k].head
                    == None::<GitHead>,
        decreases stack@.len(),
    {
        let record = stack.pop().unwrap();
        let ghost next = done.push(record);
        let ghost before = groups@;
        proof {
            assert(next =~= all.subrange(0, all.len() - stack@.len()));
            assert(next.drop_last() =~= done);
            assert(roots_of(next) =~= roots_of(done).push(record.repo_root@));
        }
        match position_of(&groups, &record.repo_root) {
            Some(i) => {
                proof {
                    lemma_first_index_of(keys(before), record.repo_root@);
                    assert(keys(before)[i as int] == before[i as int].repo_root@);
                }
                groups[i].add_artifact(record);
                proof {
                    assert(keys(groups@) =~= keys(before));
                    assert forall|k: int| 0 <= k < groups@.len() implies gathers(
                        #[trigger] groups@[k],
                        next,
                    ) && groups@[k].head == None::<GitHead> by {
                        if k != i {
                            assert(groups@[k] == before[k]);
                            assert(gathers(before[k], done));
                            if before[k].repo_root@ == record.repo_root@ {
                                if k < i {
                                    assert(crate::path::path_lt(keys(before)[k], keys(before)[i as int]));
                                } else {
                                    assert(crate::path::path_lt(keys(before)[i as int], keys(before)[k]));
                                }
                                crate::path::lemma_lt_irreflexive(record.repo_root@, 0);
                            }
                        } else {
                            assert(gathers(before[i as int], done));
                            let mine = records_of(done, record.repo_root@);
                            assert(records_of(next, record.repo_root@) == mine.push(record));
                            assert(mine.push(record).drop_last() =~= mine);
                        }
                    }
                    assert forall|root: Seq<u8>| keys(groups@).contains(root) <==> roots_of(
                        next,
                    ).contains(root) by {
                        if roots_of(next).contains(root) {
                            let m = choose|m: int|
                                0 <= m < roots_of(next).len() && roots_of(next)[m] == root;
                            if m < done.len() {
                                assert(roots_of(done)[m] == root);
                            }
                        }
                        if roots_of(done).contains(root) {
                            let m = choose|m: int|
                                0 <= m < roots_of(done).len() && roots_of(done)[m] == root;
                            assert(roots_of(next)[m] == root);
                        }
                    }
                }
            },
            None => {
                let mut report = RepoReport::new(record.repo_root.clone(), None);
                report.add_artifact(record);
                proof {
                    lemma_records_of_none(done, record.repo_root@);
                    assert(records_of(next, record.repo_root@) =~= seq![record]);
                    assert(sorted_by(ArtifactOrder, seq![record].drop_last()) =~= Seq::<
                        ArtifactRecord,
                    >::empty());
                    assert(gathers(report, next));
                    lemma_with_item(before, report);
                    crate::keyed::lemma_rank_in(keys(before), report.key());
                }
                let ghost added = report;
                insert_distinct(&mut groups, report);
                proof {
                    let r = crate::keyed::rank_in(keys(before), added.key());
                    assert forall|k: int| 0 <= k < groups@.len() implies gathers(
                        #[trigger] groups@[k],
                        next,
                    ) && groups@[k].head == None::<GitHead> by {
                        if k != r {
                            let k0 = if k < r {
                                k
                            } else {
                                k - 1
                            };
                            assert(groups@[k] == before[k0]);
                            assert(gathers(before[k0], done));
                            assert(keys(before)[k0] == before[k0].repo_root@);
                            assert(keys(before).contains(before[k0].repo_root@));
                        }
                    }
                    assert forall|root: Seq<u8>| keys(groups@).contains(root) <==> roots_of(
                        next,
                    ).contains(root) by {
                        if roots_of(next).contains(root) {
                            let m = choose|m: int|
                                0 <= m < roots_of(next).len() && roots_of(next)[m] == root;
                            if m < done.len() {
                                assert(roots_of(done)[m] == root);
                            }
                        }
                        if roots_of(done).contains(root) {
                            let m = choose|m: int|
                                0 <= m < roots_of(done).len() && roots_of(done)[m] == root;
                            assert(roots_of(next)[m] == root);
                        }
                        assert(roots_of(next)[done.len() as int] == record.repo_root@);
                    }
                }
            },
        }
        proof {
            done = next;
        }
    }
    proof {
        assert(done =~= all);
    }
    groups
}

/// The reports are what the records make in a batch: one report for each
/// repository that a record names; each with the records of its repository
/// and no other artifact, larger first, and with their totals; each with
/// the newest commit that `head_of` gave for its root; and all in the order
/// of a batch.
pub open spec fn collected<H: Fn(&FsPath) -> Option<GitHead>>(
    reports: Seq<RepoReport>,
    records: Seq<ArtifactRecord>,
    head_of: H,
) -> bool {
    &&& is_sorted(ReportOrder, reports)
    &&& forall|i: int, j: int|
        0 <= i < j < reports.len() ==> reports[i].repo_root@ != reports[j].repo_root@
    &&& forall|root: Seq<u8>| keys(reports).contains(root) <==> roots_of(records).contains(root)
    &&& forall|k: int|
        0 <= k < reports.len() ==> gathers(#[trigger] reports[k], records) && call_ensures(
            head_of,
            (&reports[k].repo_root,),
            reports[k].head,
        )
    &&& forall|k: int, j: int|
        0 <= k < reports.len() && 0 <= j < reports[k].artifacts@.len() ==> records.contains(
            #[trigger] reports[k].artifacts@[j],
        ) && reports[k].artifacts@[j].repo_root@ == reports[k].repo_root@
}

/// Gathers the artifacts into one report for each repository, and puts the
/// reports in the order of a batch. `head_of` is asked once for the newest
/// commit of each repository.
pub fn collect_reports<H: Fn(&FsPath) -> Option<GitHead>>(
    records: Vec<ArtifactRecord>,
    head_of: H,
) -> (reports: Vec<RepoReport>)
    requires
        forall|root: FsPath| call_requires(head_of, (&root,)),
    ensures
        collected(reports@, records@, head_of),
{
    let ghost all = records@;
    let mut groups = group_by_repository(records);
    let mut i: usize = 0;
    while i < groups.len()
        invariant
            i <= groups@.len(),
            ascending(keys(groups@)),
            forall|root: Seq<u8>| keys(groups@).contains(root) <==> roots_of(all).contains(root),
            forall|k: int| 0 <= k < groups@.len() ==> gathers(#[trigger] groups@[k], all),
            forall|k: int|
                0 <= k < i ==> call_ensures(
                    head_of,
                    (&(#[trigger] groups@[k]).repo_root,),
                    groups@[k].head,
                ),
            forall|root: FsPath| call_requires(head_of, (&root,)),
        decreases groups@.len() - i,
    {
        let ghost before = groups@;
        let head = head_of(&groups[i].repo_root);
        groups[i].head = head;
        proof {
            assert(keys(groups@) =~= keys(before));
            assert forall|k: int| 0 <= k < groups@.len() implies gathers(
                #[trigger] groups@[k],
                all,
            ) by {
                assert(gathers(before[k], all));
            }
            assert forall|k: int| 0 <= k < i + 1 implies call_ensures(
                head_of,
                (&(#[trigger] groups@[k]).repo_root,),
                groups@[k].head,
            ) by {
                if k < i {
                    assert(groups@[k] == before[k]);
                }
            }
        }
        i += 1;
    }
    let ghost grouped = groups@;
    stable_sort(&mut groups, &ReportOrder);
    proof {
        lemma_sorted_by(ReportOrder, grouped);
        assert(grouped.no_duplicates()) by {
            assert forall|a: int, b: int|
                0 <= a < grouped.len() && 0 <= b < grouped.len() && a != b implies grouped[a]
                != grouped[b] by {
                crate::path::lemma_lt_irreflexive(keys(grouped)[a], 0);
                if a < b {
                    assert(crate::path::path_lt(keys(grouped)[a], keys(grouped)[b]));
                } else {
                    assert(crate::path::path_lt(keys(grouped)[b], keys(grouped)[a]));
                }
            }
        }
        lemma_sorted_by_no_duplicates(ReportOrder, grouped);
        let sorted = groups@;
        assert forall|k: int| 0 <= k < sorted.len() implies gathers(#[trigger] sorted[k], all)
            && call_ensures(head_of, (&sorted[k].repo_root,), sorted[k].head) by {
            lemma_sorted_by_contains(ReportOrder, grouped, sorted[k]);
            assert(sorted.contains(sorted[k]));
            let m = choose|m: int| 0 <= m < grouped.len() && grouped[m] == sorted[k];
            assert(gathers(grouped[m], all));
        }
        assert forall|a: int, b: int| 0 <= a < b < sorted.len() implies sorted[a].repo_root@
            != sorted[b].repo_root@ by {
            lemma_sorted_by_contains(ReportOrder, grouped, sorted[a]);
            lemma_sorted_by_contains(ReportOrder, grouped, sorted[b]);
            assert(sorted.contains(sorted[a]));
            assert(sorted.contains(sorted[b]));
            let m = choose|m: int| 0 <= m < grouped.len() && grouped[m] == sorted[a];
            let n = choose|n: int| 0 <= n < grouped.len() && grouped[n] == sorted[b];
            crate::path::lemma_lt_irreflexive(keys(grouped)[m], 0);
            if m < n {
                assert(crate::path::path_lt(keys(grouped)[m], keys(grouped)[n]));
            } else if n < m {
                assert(crate::path::path_lt(keys(grouped)[n], keys(grouped)[m]));
            }
        }
        assert forall|root: Seq<u8>| keys(sorted).contains(root) <==> roots_of(all).contains(
            root,
        ) by {
            if keys(sorted).contains(root) {
                let k = choose|k: int| 0 <= k < sorted.len() && keys(sorted)[k] == root;
                lemma_sorted_by_contains(ReportOrder, grouped, sorted[k]);
                assert(sorted.contains(sorted[k]));
                let m = choose|m: int| 0 <= m < grouped.len() && grouped[m] == sorted[k];
                assert(keys(grouped)[m] == root);
            }
            if keys(grouped).contains(root) {
                let m = choose|m: int| 0 <= m < grouped.len() && keys(grouped)[m] == root;
                lemma_sorted_by_contains(ReportOrder, grouped, grouped[m]);
                assert(grouped.contains(grouped[m]));
                let k = choose|k: int| 0 <= k < sorted.len() && sorted[k] == grouped[m];
                assert(keys(sorted)[k] == root);
            }
        }
    }
    proof {
        assert forall|k: int, j: int|
            0 <= k < groups@.len() && 0 <= j < groups@[k].artifacts@.len() implies all.contains(
            #[trigger] groups@[k].artifacts@[j],
        ) && groups@[k].artifacts@[j].repo_root@ == groups@[k].repo_root@ by {
            assert(gathers(groups@[k], all));
            lemma_gathers_records_only(groups@[k], all);
        }
    }
    groups
}

/// What became of a candidate for which `record` was the answer. Its
/// repository is the nearest directory, from the candidate upwards, with the
/// metadata of version control. It is an artifact of that repository where
/// version control ignores it there and its statistics could be taken. It
/// is nothing where it lies in no repository, where version control does
/// not ignore it in that repository or cannot tell, or where the statistics
/// failed.
pub open spec fn candidate_settled<
    M: Fn(&FsPath) -> bool,
    I: Fn(&FsPath, &FsPath) -> Result<bool, String>,
    S: Fn(&FsPath) -> Result<DirStats, String>,
>(path: &FsPath, has_marker: &M, is_ignored: &I, stats_of: &S, record: Option<ArtifactRecord>) -> bool {
    match record {
        Some(found) => {
            &&& found.path@ == path@
            &&& nearest_root(has_marker, path@, found.repo_root@)
            &&& call_ensures(*is_ignored, (&found.repo_root, path), Ok::<bool, String>(true))
            &&& call_ensures(*stats_of, (path,), Ok::<DirStats, String>(found.stats))
        },
        None => {
            ||| no_root(has_marker, path@)
            ||| exists|root: FsPath, answer: Result<bool, String>|
                nearest_root(has_marker, path@, root@) && #[trigger] call_ensures(
                    *is_ignored,
                    (&root, path),
                    answer,
                ) && answer != Ok::<bool, String>(true)
            ||| exists|root: FsPath, error: String|
                nearest_root(has_marker, path@, root@) && #[trigger] call_ensures(
                    *is_ignored,
                    (&root, path),
                    Ok::<bool, String>(true),
                ) && #[trigger] call_ensures(*stats_of, (path,), Err::<DirStats, String>(error))
        },
    }
}

/// Settles whether a candidate is an artifact. Its repository is looked up
/// with `has_marker`; `is_ignored` is asked whether version control ignores
/// the candidate in that repository; and only for one that it ignores,
/// `stats_of` takes the statistics. A candidate outside any repository, one
/// that is not ignored, and one for which a question fails, is no artifact.
pub fn process_candidate<M, I, S>(path: &FsPath, has_marker: &M, is_ignored: &I, stats_of: &S) -> (record:
    Option<ArtifactRecord>) where
    M: Fn(&FsPath) -> bool,
    I: Fn(&FsPath, &FsPath) -> Result<bool, String>,
    S: Fn(&FsPath) -> Result<DirStats, String>,

    requires
        forall|marker: FsPath| call_requires(*has_marker, (&marker,)),
        forall|root: FsPath| call_requires(*is_ignored, (&root, path)),
        call_requires(*stats_of, (path,)),
    ensures
        candidate_settled(path, has_marker, is_ignored, stats_of, record),
{
    let repo_root = match find_git_root(path, has_marker) {
        Some(root) => root,
        None => {
            return None;
        },
    };
    let answer = is_ignored(&repo_root, path);
    match answer {
        Ok(true) => {},
        _ => {
            return None;
        },
    }
    match stats_of(path) {
        Ok(stats) => Some(ArtifactRecord { repo_root, path: path.clone(), stats }),
        Err(error) => None,
    }
}

/// The bytes that the reports count together, held at the largest `u64`
/// where the sum would pass it.
pub open spec fn reports_total(reports: Seq<RepoReport>) -> u64
    decreases reports.len(),
{
    if reports.len() == 0 {
        0
    } else {
        saturating_sum(reports_total(reports.drop_last()), reports.last().total_size_bytes)
    }
}

/// The line of an artifact in the report: its size, and its path as seen
/// from its repository.
pub open spec fn artifact_text(repo_root: Seq<u8>, artifact: ArtifactRecord) -> Seq<char> {
    "  "@ + human_size(artifact.stats.size_bytes) + "  "@ + rel_display(repo_root, artifact.path@)
}

/// The lines of one repository in the report: the repository with its
/// newest commit and its total, a line for each artifact, and a blank line.
pub open spec fn report_texts(scan_root: Seq<u8>, report: RepoReport) -> Seq<Seq<char>> {
    seq![
        rel_display(scan_root, report.repo_root@) + "  "@ + head_text(report.head) + "  total "@
            + human_size(report.total_size_bytes),
    ] + report.artifacts@.map_values(|a: ArtifactRecord| artifact_text(report.repo_root@, a))
        + seq![Seq::empty()]
}

/// The lines of all the repositories, one after the other.
pub open spec fn all_report_texts(scan_root: Seq<u8>, reports: Seq<RepoReport>) -> Seq<Seq<char>>
    decreases reports.len(),
{
    if reports.len() == 0 {
        Seq::empty()
    } else {
        all_report_texts(scan_root, reports.drop_last()) + report_texts(scan_root, reports.last())
    }
}

/// What the batch report says: the root of the scan, the number of
/// repositories and their total, a blank line, and the repositories.
pub open spec fn scan_report_texts(scan_root: Seq<u8>, reports: Seq<RepoReport>) -> Seq<Seq<char>> {
    seq![
        "Scan root: "@ + utf8_lossy(scan_root),
        "Repos with gitignored artifacts: "@ + decimal(reports.len()) + "  Total: "@ + human_size(
            reports_total(reports),
        ),
        Seq::empty(),
    ] + all_report_texts(scan_root, reports)
}

/// The lines of the batch report, for the caller to print.
pub fn print_scan_report(scan_root: &FsPath, reports: &Vec<RepoReport>) -> (lines: Vec<String>)
    ensures
        texts(lines@) == scan_report_texts(scan_root@, reports@),
{
    let mut total_bytes: u64 = 0;
    let mut n: usize = 0;
    while n < reports.len()
        invariant
            n <= reports@.len(),
            total_bytes == reports_total(reports@.subrange(0, n as int)),
        decreases reports@.len() - n,
    {
        proof {
            assert(reports@.subrange(0, n + 1).drop_last() =~= reports@.subrange(0, n as int));
        }
        total_bytes = total_bytes.saturating_add(reports[n].total_size_bytes);
        n += 1;
    }
    proof {
        assert(reports@.subrange(0, reports@.len() as int) =~= reports@);
    }
    let mut lines: Vec<String> = Vec::new();
    let mut first = String::from_str("Scan root: ");
    first.append(display_path(scan_root).as_str());
    lines.push(first);
    let mut second = String::from_str("Repos with gitignored artifacts: ");
    second.append(count_text(reports.len()).as_str());
    second.append("  Total: ");
    second.append(format_bytes(total_bytes).as_str());
    lines.push(second);
    lines.push(String::new());
    let ghost head = texts(lines@);
    proof {
        assert(reports@.subrange(0, 0) =~= Seq::empty());
        assert(head + all_report_texts(scan_root@, reports@.subrange(0, 0)) =~= head);
    }
    let mut i: usize = 0;
    while i < reports.len()
        invariant
            i <= reports@.len(),
            texts(lines@) == head + all_report_texts(scan_root@, reports@.subrange(0, i as int)),
        decreases reports@.len() - i,
    {
        let report = &reports[i];
        let ghost before = texts(lines@);
        let mut title = display_rel_path(scan_root, &report.repo_root);
        title.append("  ");
        title.append(head_display(&report.head).as_str());
        title.append("  total ");
        title.append(format_bytes(report.total_size_bytes).as_str());
        lines.push(title);
        let ghost titled = texts(lines@);
        let ghost rows = report.artifacts@.map_values(
            |a: ArtifactRecord| artifact_text(report.repo_root@, a),
        );
        let mut j: usize = 0;
        while j < report.artifacts.len()
            invariant
                j <= report.artifacts@.len(),
                rows == report.artifacts@.map_values(
                    |a: ArtifactRecord| artifact_text(report.repo_root@, a),
                ),
                texts(lines@) == titled + rows.subrange(0, j as int),
            decreases report.artifacts@.len() - j,
        {
            let artifact = &report.artifacts[j];
            let mut line = String::from_str("  ");
            line.append(format_bytes(artifact.stats.size_bytes).as_str());
            line.append("  ");
            line.append(display_rel_path(&report.repo_root, &artifact.path).as_str());
            let ghost said = line@;
            let ghost upto = texts(lines@);
            lines.push(line);
            proof {
                assert(said == rows[j as int]);
                assert(texts(lines@) =~= upto.push(said));
                assert(rows.subrange(0, j + 1) =~= rows.subrange(0, j as int).push(rows[j as int]));
            }
            j += 1;
        }
        let ghost listed = texts(lines@);
        lines.push(String::new());
        proof {
            assert(rows.subrange(0, rows.len() as int) =~= rows);
            assert(texts(lines@) =~= listed.push(Seq::empty()));
            assert(texts(lines@) =~= before + report_texts(scan_root@, *report));
            assert(reports@.subrange(0, i + 1).drop_last() =~= reports@.subrange(0, i as int));
            assert(texts(lines@) =~= head + all_report_texts(
                scan_root@,
                reports@.subrange(0, i + 1),
            ));
        }
        i += 1;
    }
    proof {
        assert(reports@.subrange(0, reports@.len() as int) =~= reports@);
    }
    lines
}

/// Those of the candidates that were settled as artifacts, in the order of
/// the candidates.
pub open spec fn confirmed_records(settled: Seq<Option<ArtifactRecord>>) -> Seq<ArtifactRecord>
    decreases settled.len(),
{
    if settled.len() == 0 {
        Seq::empty()
    } else {
        match settled.last() {
            Some(record) => confirmed_records(settled.drop_last()).push(record),
            None => confirmed_records(settled.drop_last()),
        }
    }
}

/// The reports are what the candidates come to: each candidate was settled
/// as `process_candidate` settles it, and the reports hold the artifacts
/// among them and nothing else.
pub open spec fn candidates_collected<
    M: Fn(&FsPath) -> bool,
    I: Fn(&FsPath, &FsPath) -> Result<bool, String>,
    S: Fn(&FsPath) -> Result<DirStats, String>,
    H: Fn(&FsPath) -> Option<GitHead>,
>(
    candidates: Seq<FsPath>,
    has_marker: &M,
    is_ignored: &I,
    stats_of: &S,
    head_of: H,
    reports: Seq<RepoReport>,
) -> bool {
    exists|settled: Seq<Option<ArtifactRecord>>|
        {
            &&& settled.len() == candidates.len()
            &&& forall|i: int|
                0 <= i < candidates.len() ==> candidate_settled(
                    &candidates[i],
                    has_marker,
                    is_ignored,
                    stats_of,
                    #[trigger] settled[i],
                )
            &&& #[trigger] collected(reports, confirmed_records(settled), head_of)
        }
}

/// Settles each candidate in turn and gathers the artifacts among them into
/// the reports of a batch. Every artifact of every report is a candidate
/// that version control ignores in its repository, the nearest one above
/// it; a candidate that lies in no repository, that is not ignored, or for
/// which a question failed, is in no report.
pub fn collect_candidates<M, I, S, H>(
    candidates: &Vec<FsPath>,
    has_marker: M,
    is_ignored: I,
    stats_of: S,
    head_of: H,
) -> (reports: Vec<RepoReport>) where
    M: Fn(&FsPath) -> bool,
    I: Fn(&FsPath, &FsPath) -> Result<bool, String>,
    S: Fn(&FsPath) -> Result<DirStats, String>,
    H: Fn(&FsPath) -> Option<GitHead>,

    requires
        forall|marker: FsPath| call_requires(has_marker, (&marker,)),
        forall|root: FsPath, path: FsPath| call_requires(is_ignored, (&root, &path)),
        forall|path: FsPath| call_requires(stats_of, (&path,)),
        forall|root: FsPath| call_requires(head_of, (&root,)),
    ensures
        candidates_collected(candidates@, &has_marker, &is_ignored, &stats_of, head_of, reports@),
{
    let mut records: Vec<ArtifactRecord> = Vec::new();
    let ghost mut settled: Seq<Option<ArtifactRecord>> = Seq::empty();
    let mut i: usize = 0;
    while i < candidates.len()
        invariant
            i <= candidates@.len(),
            settled.len() == i,
            forall|k: int|
                0 <= k < i ==> candidate_settled(
                    &candidates@[k],
                    &has_marker,
                    &is_ignored,
                    &stats_of,
                    #[trigger] settled[k],
                ),
            records@ == confirmed_records(settled),
            forall|marker: FsPath| call_requires(has_marker, (&marker,)),
            forall|root: FsPath, path: FsPath| call_requires(is_ignored, (&root, &path)),
            forall|path: FsPath| call_requires(stats_of, (&path,)),
        decreases candidates@.len() - i,
    {
        let found = process_candidate(&candidates[i], &has_marker, &is_ignored, &stats_of);
        let ghost longer = settled.push(found);
        proof {
            assert(longer.drop_last() =~= settled);
        }
        match found {
            Some(record) => {
                records.push(record);
            },
            None => {},
        }
        proof {
            settled = longer;
        }
        i += 1;
    }
    let reports = collect_reports(records, head_of);
    proof {
        assert(collected(reports@, confirmed_records(settled), head_of));
    }
    reports
}

} // verus!
