//! Planning what to delete, and carrying the plan out.
//!
//! A plan lists each selected artifact once, in the order of the paths.
//! Carrying it out asks three things of the caller, target by target: whether
//! to stop, whether version control still ignores the target, and to remove
//! it. What is done with the answers, and what is counted, is decided here.

use vstd::prelude::*;
use vstd::string::StringExecFns;
use crate::keyed::{
    ascending, first_index_of, insert_distinct, keys, lemma_ascending_unique,
    lemma_first_index_of, lemma_rank_in, rank_in, with_item, PathKeyed,
};
use crate::path::{
    is_blocked, is_blocked_path, lemma_path_order, normal_form, path_lt, FsPath,
};
use crate::report::{ArtifactRecord, RepoReport};
use crate::scan::saturating_sum;

verus! {

/// One path to delete, with the repository it lies in and the bytes that
/// deleting it is expected to free.
#[derive(Debug, PartialEq, Eq)]
pub struct DeleteTarget {
    pub repo_root: FsPath,
    pub path: FsPath,
    pub planned_bytes: u64,
}

/// What a `DeleteTarget` holds.
pub struct TargetModel {
    pub repo_root: Seq<u8>,
    pub path: Seq<u8>,
    pub planned_bytes: u64,
}

impl View for DeleteTarget {
    type V = TargetModel;

    open spec fn view(&self) -> TargetModel {
        TargetModel {
            repo_root: self.repo_root@,
            path: self.path@,
            planned_bytes: self.planned_bytes,
        }
    }
}

impl Clone for DeleteTarget {
    fn clone(&self) -> (r: Self)
        ensures
            r@ == self@,
    {
        DeleteTarget {
            repo_root: self.repo_root.clone(),
            path: self.path.clone(),
            planned_bytes: self.planned_bytes,
        }
    }
}

impl PathKeyed for DeleteTarget {
    open spec fn key(&self) -> Seq<u8> {
        self.path@
    }

    fn key_path(&self) -> (p: &FsPath) {
        &self.path
    }
}

/// What the targets hold, in their order.
pub open spec fn models(targets: Seq<DeleteTarget>) -> Seq<TargetModel> {
    targets.map_values(|t: DeleteTarget| t@)
}

/// The paths of the targets, in their order.
pub open spec fn paths(targets: Seq<TargetModel>) -> Seq<Seq<u8>> {
    targets.map_values(|t: TargetModel| t.path)
}

/// One target for each artifact of the report, in the order of the
/// artifacts. The path of a target is the path of its artifact in normal
/// form, so that two spellings of one path make the same target.
pub open spec fn artifact_targets(report: &RepoReport) -> Seq<TargetModel> {
    report.artifacts@.map_values(
        |a: ArtifactRecord|
            TargetModel {
                repo_root: report.repo_root@,
                path: normal_form(a.path@),
                planned_bytes: a.stats.size_bytes,
            },
    )
}

/// The targets of the selected reports, report after report.
pub open spec fn selected_targets(reports: Seq<(&RepoReport, bool)>) -> Seq<TargetModel>
    decreases reports.len(),
{
    if reports.len() == 0 {
        Seq::empty()
    } else if reports.last().1 {
        selected_targets(reports.drop_last()) + artifact_targets(reports.last().0)
    } else {
        selected_targets(reports.drop_last())
    }
}

/// `plan` with `target` at its place in the order of paths, or `plan` itself
/// where it holds a target with that path already.
pub open spec fn plan_with(plan: Seq<TargetModel>, target: TargetModel) -> Seq<TargetModel> {
    if paths(plan).contains(target.path) {
        plan
    } else {
        plan.insert(rank_in(paths(plan), target.path), target)
    }
}

/// The plan for a list of targets: each path once, with the first target
/// that names it, in the order of the paths.
pub open spec fn plan_of(flat: Seq<TargetModel>) -> Seq<TargetModel>
    decreases flat.len(),
{
    if flat.len() == 0 {
        Seq::empty()
    } else {
        plan_with(plan_of(flat.drop_last()), flat.last())
    }
}

/// Adding a target to an ascending plan keeps it ascending, adds the
/// target's path to its paths, and leaves the targets that were there.
pub proof fn lemma_plan_with(plan: Seq<TargetModel>, target: TargetModel)
    requires
        ascending(paths(plan)),
    ensures
        ascending(paths(plan_with(plan, target))),
        forall|p: Seq<u8>|
            paths(plan_with(plan, target)).contains(p) <==> (paths(plan).contains(p) || p
                == target.path),
        forall|k: int|
            0 <= k < plan_with(plan, target).len() ==> plan.contains(
                #[trigger] plan_with(plan, target)[k],
            ) || (plan_with(plan, target)[k] == target && !paths(plan).contains(target.path)),
        forall|k: int| 0 <= k < plan.len() ==> plan_with(plan, target).contains(#[trigger] plan[k]),
{
    let out = plan_with(plan, target);
    let ks = paths(plan);
    let ko = paths(out);
    if ks.contains(target.path) {
        assert forall|k: int| 0 <= k < out.len() implies plan.contains(#[trigger] out[k]) by {
            assert(plan[k] == out[k]);
        }
    } else {
        let r = rank_in(ks, target.path);
        lemma_rank_in(ks, target.path);
        assert(ko =~= ks.insert(r, target.path));
        assert forall|i: int, j: int| 0 <= i < j < ko.len() implies path_lt(ko[i], ko[j]) by {
            if j == r {
                assert(ko[i] == ks[i]);
            } else if i == r {
                assert(ko[j] == ks[j - 1]);
                assert(ks.contains(ks[j - 1]));
                lemma_path_order(ks[j - 1], target.path, target.path);
            } else {
                let i0 = if i < r {
                    i
                } else {
                    i - 1
                };
                let j0 = if j < r {
                    j
                } else {
                    j - 1
                };
                assert(ko[i] == ks[i0] && ko[j] == ks[j0]);
            }
        }
        assert forall|p: Seq<u8>| ko.contains(p) <==> (ks.contains(p) || p == target.path) by {
            if ko.contains(p) {
                let k = choose|k: int| 0 <= k < ko.len() && ko[k] == p;
                if k < r {
                    assert(ks[k] == p);
                } else if k > r {
                    assert(ks[k - 1] == p);
                }
            }
            if ks.contains(p) {
                let k = choose|k: int| 0 <= k < ks.len() && ks[k] == p;
                if k < r {
                    assert(ko[k] == p);
                } else {
                    assert(ko[k + 1] == p);
                }
            }
            if p == target.path {
                assert(ko[r] == p);
            }
        }
        assert forall|k: int| 0 <= k < out.len() implies plan.contains(#[trigger] out[k]) || (
        out[k] == target && !ks.contains(target.path)) by {
            if k < r {
                assert(plan[k] == out[k]);
            } else if k > r {
                assert(plan[k - 1] == out[k]);
            }
        }
        assert forall|k: int| 0 <= k < plan.len() implies out.contains(#[trigger] plan[k]) by {
            if k < r {
                assert(out[k] == plan[k]);
            } else {
                assert(out[k + 1] == plan[k]);
            }
        }
    }
}

/// What a plan is: its paths ascend, so that none occurs twice; they are the
/// paths of the targets it was made from; and each of its targets is the
/// first of those with its path.
pub proof fn lemma_plan_of(flat: Seq<TargetModel>)
    ensures
        ascending(paths(plan_of(flat))),
        forall|p: Seq<u8>| paths(plan_of(flat)).contains(p) <==> paths(flat).contains(p),
        forall|k: int|
            0 <= k < plan_of(flat).len() ==> {
                let m = first_index_of(paths(flat), (#[trigger] plan_of(flat)[k]).path);
                0 <= m < flat.len() && flat[m] == plan_of(flat)[k]
            },
    decreases flat.len(),
{
    let plan = plan_of(flat);
    if flat.len() == 0 {
        assert(paths(plan) =~= Seq::empty());
        assert(paths(flat) =~= Seq::empty());
    } else {
        let front = flat.drop_last();
        let last = flat.last();
        let before = plan_of(front);
        lemma_plan_of(front);
        lemma_plan_with(before, last);
        assert(paths(flat) =~= paths(front).push(last.path));
        assert forall|p: Seq<u8>| paths(plan).contains(p) <==> paths(flat).contains(p) by {
            if paths(front).contains(p) {
                let k = choose|k: int| 0 <= k < paths(front).len() && paths(front)[k] == p;
                assert(paths(flat)[k] == p);
            }
            if paths(flat).contains(p) {
                let k = choose|k: int| 0 <= k < paths(flat).len() && paths(flat)[k] == p;
                if k < front.len() {
                    assert(paths(front)[k] == p);
                }
            }
            assert(paths(flat)[flat.len() - 1] == last.path);
        }
        assert forall|k: int| 0 <= k < plan.len() implies {
            let m = first_index_of(paths(flat), (#[trigger] plan[k]).path);
            0 <= m < flat.len() && flat[m] == plan[k]
        } by {
            let p = plan[k].path;
            lemma_first_index_of(paths(flat), p);
            lemma_first_index_of(paths(front), p);
            if before.contains(plan[k]) {
                let j = choose|j: int| 0 <= j < before.len() && before[j] == plan[k];
                let m = first_index_of(paths(front), before[j].path);
                assert(paths(flat)[m] == p);
                assert forall|i: int| 0 <= i < m implies paths(flat)[i] != p by {
                    assert(paths(flat)[i] == paths(front)[i]);
                }
                lemma_first_index_unique(paths(flat), p, m);
            } else {
                assert(!paths(front).contains(p));
                assert forall|i: int| 0 <= i < front.len() implies paths(flat)[i] != p by {
                    assert(paths(flat)[i] == paths(front)[i]);
                }
                lemma_first_index_unique(paths(flat), p, flat.len() - 1);
            }
        }
    }
}

/// The first index at which `key` stands is the one before which it does not
/// stand.
pub proof fn lemma_first_index_unique(paths: Seq<Seq<u8>>, key: Seq<u8>, m: int)
    requires
        0 <= m < paths.len(),
        paths[m] == key,
        forall|i: int| 0 <= i < m ==> paths[i] != key,
    ensures
        first_index_of(paths, key) == m,
{
    lemma_first_index_of(paths, key);
}

/// Planning is idempotent: the plan of a plan is that plan.
pub proof fn lemma_plan_idempotent(flat: Seq<TargetModel>)
    ensures
        plan_of(plan_of(flat)) == plan_of(flat),
{
    lemma_plan_of(flat);
    lemma_plan_of_ascending(plan_of(flat));
}

/// A list whose paths ascend is its own plan.
pub proof fn lemma_plan_of_ascending(plan: Seq<TargetModel>)
    requires
        ascending(paths(plan)),
    ensures
        plan_of(plan) == plan,
    decreases plan.len(),
{
    if plan.len() > 0 {
        let front = plan.drop_last();
        let last = plan.last();
        assert(paths(front) =~= paths(plan).drop_last());
        lemma_plan_of_ascending(front);
        lemma_rank_in(paths(front), last.path);
        assert forall|i: int| 0 <= i < front.len() implies path_lt(
            #[trigger] paths(front)[i],
            last.path,
        ) by {
            assert(path_lt(paths(plan)[i], paths(plan)[plan.len() - 1]));
        }
        if paths(front).contains(last.path) {
            let k = choose|k: int| 0 <= k < front.len() && paths(front)[k] == last.path;
            lemma_path_order(last.path, last.path, last.path);
            assert(path_lt(paths(front)[k], last.path));
        }
        if front.len() > 0 {
            assert(path_lt(paths(front)[front.len() - 1], last.path));
        }
        assert(rank_in(paths(front), last.path) == front.len());
        assert(front.insert(front.len() as int, last) =~= plan);
    }
}

/// Planning does not depend on the order of what it is given: lists that
/// name the same paths give plans with the same paths.
pub proof fn lemma_plan_paths_order_independent(a: Seq<TargetModel>, b: Seq<TargetModel>)
    requires
        forall|p: Seq<u8>| paths(a).contains(p) <==> paths(b).contains(p),
    ensures
        paths(plan_of(a)) == paths(plan_of(b)),
{
    lemma_plan_of(a);
    lemma_plan_of(b);
    assert forall|p: Seq<u8>| paths(plan_of(a)).contains(p) <==> paths(plan_of(b)).contains(
        p,
    ) by {
        assert(paths(plan_of(a)).contains(p) <==> paths(a).contains(p));
        assert(paths(plan_of(b)).contains(p) <==> paths(b).contains(p));
    }
    lemma_ascending_unique(paths(plan_of(a)), paths(plan_of(b)));
}

/// Planning does not depend on the order of what it is given: lists that
/// hold the same targets, in any order and any number of times, give the
/// same plan, provided that a path always comes with one repository and one
/// size.
pub proof fn lemma_plan_order_independent(a: Seq<TargetModel>, b: Seq<TargetModel>)
    requires
        forall|t: TargetModel| a.contains(t) <==> b.contains(t),
        forall|i: int, j: int|
            0 <= i < a.len() && 0 <= j < a.len() && a[i].path == a[j].path ==> a[i] == a[j],
    ensures
        plan_of(a) == plan_of(b),
{
    let pa = plan_of(a);
    let pb = plan_of(b);
    assert forall|p: Seq<u8>| paths(a).contains(p) <==> paths(b).contains(p) by {
        if paths(a).contains(p) {
            let k = choose|k: int| 0 <= k < a.len() && paths(a)[k] == p;
            assert(a.contains(a[k]));
            let m = choose|m: int| 0 <= m < b.len() && b[m] == a[k];
            assert(paths(b)[m] == p);
        }
        if paths(b).contains(p) {
            let k = choose|k: int| 0 <= k < b.len() && paths(b)[k] == p;
            assert(b.contains(b[k]));
            let m = choose|m: int| 0 <= m < a.len() && a[m] == b[k];
            assert(paths(a)[m] == p);
        }
    }
    lemma_plan_paths_order_independent(a, b);
    lemma_plan_of(a);
    lemma_plan_of(b);
    assert(pa.len() == paths(pa).len());
    assert(pb.len() == paths(pb).len());
    assert forall|k: int| 0 <= k < pa.len() implies pa[k] == pb[k] by {
        assert(paths(pa)[k] == paths(pb)[k]);
        let ma = first_index_of(paths(a), pa[k].path);
        let mb = first_index_of(paths(b), pb[k].path);
        assert(b.contains(b[mb]));
        let m = choose|m: int| 0 <= m < a.len() && a[m] == b[mb];
        assert(a[m].path == a[ma].path);
    }
    assert(pa =~= pb);
}

/// A path is among the targets of a selection where a selected report
/// holds an artifact with that path.
pub proof fn lemma_selected_paths(reports: Seq<(&RepoReport, bool)>, p: Seq<u8>)
    ensures
        paths(selected_targets(reports)).contains(p) <==> exists|i: int|
            0 <= i < reports.len() && reports[i].1 && #[trigger] paths(
                artifact_targets(reports[i].0),
            ).contains(p),
    decreases reports.len(),
{
    let all = paths(selected_targets(reports));
    if reports.len() == 0 {
        assert(all =~= Seq::empty());
    } else {
        let front = reports.drop_last();
        let last = reports.last();
        let rest = paths(selected_targets(front));
        let own = paths(artifact_targets(last.0));
        lemma_selected_paths(front, p);
        if last.1 {
            assert(all =~= rest + own);
        } else {
            assert(all == rest);
        }
        if all.contains(p) {
            let k = choose|k: int| 0 <= k < all.len() && all[k] == p;
            if last.1 && k >= rest.len() {
                assert(own[k - rest.len()] == p);
                assert(own.contains(p));
                let i = reports.len() - 1;
                assert(reports[i].1 && paths(artifact_targets(reports[i].0)).contains(p));
            } else {
                assert(rest[k] == p);
                assert(rest.contains(p));
                let i = choose|i: int|
                    0 <= i < front.len() && front[i].1 && #[trigger] paths(
                        artifact_targets(front[i].0),
                    ).contains(p);
                assert(reports[i] == front[i]);
                assert(reports[i].1 && paths(artifact_targets(reports[i].0)).contains(p));
            }
        }
        if exists|i: int|
            0 <= i < reports.len() && reports[i].1 && #[trigger] paths(
                artifact_targets(reports[i].0),
            ).contains(p) {
            let i = choose|i: int|
                0 <= i < reports.len() && reports[i].1 && #[trigger] paths(
                    artifact_targets(reports[i].0),
                ).contains(p);
            if i < front.len() {
                assert(front[i] == reports[i]);
                assert(front[i].1 && paths(artifact_targets(front[i].0)).contains(p));
                assert(rest.contains(p));
                let k = choose|k: int| 0 <= k < rest.len() && rest[k] == p;
                assert(all[k] == p);
            } else {
                assert(reports[i] == last);
                let k = choose|k: int| 0 <= k < own.len() && own[k] == p;
                assert(all[rest.len() + k] == p);
            }
            assert(all.contains(p));
        }
    }
}

/// Planning does not depend on the order in which the reports of a
/// selection are given: selections that hold the same reports, selected or
/// not, give plans with the same paths.
pub proof fn lemma_plan_ignores_selection_order(
    a: Seq<(&RepoReport, bool)>,
    b: Seq<(&RepoReport, bool)>,
)
    requires
        forall|entry: (&RepoReport, bool)| a.contains(entry) <==> b.contains(entry),
    ensures
        paths(plan_of(selected_targets(a))) == paths(plan_of(selected_targets(b))),
{
    assert forall|p: Seq<u8>| paths(selected_targets(a)).contains(p) <==> paths(
        selected_targets(b),
    ).contains(p) by {
        lemma_selected_paths(a, p);
        lemma_selected_paths(b, p);
        if paths(selected_targets(a)).contains(p) {
            let i = choose|i: int|
                0 <= i < a.len() && a[i].1 && #[trigger] paths(artifact_targets(a[i].0)).contains(
                    p,
                );
            assert(a.contains(a[i]));
            let j = choose|j: int| 0 <= j < b.len() && b[j] == a[i];
            assert(paths(artifact_targets(b[j].0)).contains(p));
        }
        if paths(selected_targets(b)).contains(p) {
            let i = choose|i: int|
                0 <= i < b.len() && b[i].1 && #[trigger] paths(artifact_targets(b[i].0)).contains(
                    p,
                );
            assert(b.contains(b[i]));
            let j = choose|j: int| 0 <= j < a.len() && a[j] == b[i];
            assert(paths(artifact_targets(a[j].0)).contains(p));
        }
    }
    lemma_plan_paths_order_independent(selected_targets(a), selected_targets(b));
}

/// A plan made from targets of which none is blocked holds no blocked
/// target.
pub proof fn lemma_plan_never_blocked(flat: Seq<TargetModel>)
    requires
        forall|i: int| 0 <= i < flat.len() ==> !is_blocked(#[trigger] flat[i].path),
    ensures
        forall|k: int| 0 <= k < plan_of(flat).len() ==> !is_blocked(#[trigger] plan_of(flat)[k].path),
{
    lemma_plan_of(flat);
}

/// Every target of a selection is the target of an artifact of a selected
/// report.
pub proof fn lemma_selected_targets_are_artifacts(reports: Seq<(&RepoReport, bool)>, m: int)
    requires
        0 <= m < selected_targets(reports).len(),
    ensures
        exists|i: int, j: int|
            0 <= i < reports.len() && reports[i].1 && 0 <= j < reports[i].0.artifacts@.len()
                && selected_targets(reports)[m] == #[trigger] artifact_targets(reports[i].0)[j],
    decreases reports.len(),
{
    if reports.len() > 0 {
        let front = reports.drop_last();
        let last = reports.last();
        let rest = selected_targets(front);
        if last.1 && m >= rest.len() {
            let i = reports.len() - 1;
            let j = m - rest.len();
            assert(reports[i] == last);
            assert(selected_targets(reports)[m] == artifact_targets(reports[i].0)[j]);
        } else {
            lemma_selected_targets_are_artifacts(front, m);
            let (i, j) = choose|i: int, j: int|
                0 <= i < front.len() && front[i].1 && 0 <= j < front[i].0.artifacts@.len() && rest[m]
                    == #[trigger] artifact_targets(front[i].0)[j];
            assert(reports[i] == front[i]);
            assert(selected_targets(reports)[m] == artifact_targets(reports[i].0)[j]);
        }
    }
}

/// A plan made from selected reports of which no artifact is blocked holds
/// no blocked target, however the paths of the artifacts are written.
pub proof fn lemma_plan_of_unblocked_artifacts(reports: Seq<(&RepoReport, bool)>)
    requires
        forall|i: int, j: int|
            0 <= i < reports.len() && reports[i].1 && 0 <= j < reports[i].0.artifacts@.len()
                ==> !is_blocked(#[trigger] reports[i].0.artifacts@[j].path@),
    ensures
        forall|k: int|
            0 <= k < plan_of(selected_targets(reports)).len() ==> !is_blocked(
                #[trigger] plan_of(selected_targets(reports))[k].path,
            ),
{
    let flat = selected_targets(reports);
    assert forall|m: int| 0 <= m < flat.len() implies !is_blocked(#[trigger] flat[m].path) by {
        lemma_selected_targets_are_artifacts(reports, m);
        let (i, j) = choose|i: int, j: int|
            0 <= i < reports.len() && reports[i].1 && 0 <= j < reports[i].0.artifacts@.len()
                && flat[m] == #[trigger] artifact_targets(reports[i].0)[j];
        let artifact = reports[i].0.artifacts@[j];
        assert(flat[m].path == normal_form(artifact.path@));
        crate::path::lemma_normal_form_keeps_final_component(artifact.path@);
        assert(!is_blocked(artifact.path@));
    }
    lemma_plan_never_blocked(flat);
}

/// Turns the selection into a plan: one target for each artifact of every
/// selected report, each path once, however it is written, in the order of
/// the paths. Where several
/// artifacts share a path, the first of them gives the target.
pub fn plan_delete_targets(reports: &Vec<(&RepoReport, bool)>) -> (targets: Vec<DeleteTarget>)
    ensures
        models(targets@) == plan_of(selected_targets(reports@)),
        ascending(keys(targets@)),
{
    let mut targets: Vec<DeleteTarget> = Vec::new();
    let mut i: usize = 0;
    proof {
        assert(models(targets@) =~= Seq::empty());
        assert(reports@.subrange(0, 0) =~= Seq::empty());
    }
    while i < reports.len()
        invariant
            i <= reports@.len(),
            ascending(keys(targets@)),
            models(targets@) == plan_of(selected_targets(reports@.subrange(0, i as int))),
        decreases reports@.len() - i,
    {
        let (report, is_selected) = reports[i];
        let ghost done = selected_targets(reports@.subrange(0, i as int));
        proof {
            assert(reports@.subrange(0, i + 1).drop_last() =~= reports@.subrange(0, i as int));
            assert(reports@.subrange(0, i + 1).last() == reports@[i as int]);
        }
        if is_selected {
            let ghost all = artifact_targets(report);
            let mut j: usize = 0;
            proof {
                assert(done + all.subrange(0, 0) =~= done);
            }
            while j < report.artifacts.len()
                invariant
                    j <= report.artifacts@.len(),
                    all == artifact_targets(report),
                    ascending(keys(targets@)),
                    models(targets@) == plan_of(done + all.subrange(0, j as int)),
                decreases report.artifacts@.len() - j,
            {
                let artifact = &report.artifacts[j];
                let target = DeleteTarget {
                    repo_root: report.repo_root.clone(),
                    path: artifact.path.normalized(),
                    planned_bytes: artifact.stats.size_bytes,
                };
                proof {
                    let upto = done + all.subrange(0, j + 1);
                    assert(upto.drop_last() =~= done + all.subrange(0, j as int));
                    assert(upto.last() == target@);
                    lemma_models_with_item(targets@, target);
                }
                insert_distinct(&mut targets, target);
                j += 1;
            }
            proof {
                assert(all.subrange(0, report.artifacts@.len() as int) =~= all);
            }
        }
        i += 1;
    }
    proof {
        assert(reports@.subrange(0, reports@.len() as int) =~= reports@);
    }
    targets
}

/// Putting a target into a vector of targets does to what the targets hold
/// what `plan_with` says.
pub proof fn lemma_models_with_item(targets: Seq<DeleteTarget>, target: DeleteTarget)
    requires
        ascending(keys(targets)),
    ensures
        models(with_item(targets, target)) == plan_with(models(targets), target@),
{
    assert(keys(targets) =~= paths(models(targets)));
    if !keys(targets).contains(target.key()) {
        let r = rank_in(keys(targets), target.key());
        lemma_rank_in(keys(targets), target.key());
        assert(models(targets.insert(r, target)) =~= models(targets).insert(r, target@));
    }
}

/// A copy of the plan.
pub fn clone_targets(targets: &Vec<DeleteTarget>) -> (copy: Vec<DeleteTarget>)
    ensures
        models(copy@) == models(targets@),
{
    let mut copy: Vec<DeleteTarget> = Vec::new();
    let mut i: usize = 0;
    while i < targets.len()
        invariant
            i <= targets@.len(),
            models(copy@) == models(targets@).subrange(0, i as int),
        decreases targets@.len() - i,
    {
        let target = targets[i].clone();
        let ghost so_far = copy@;
        copy.push(target);
        proof {
            assert(models(copy@) =~= models(so_far).push(target@));
            assert(models(targets@).subrange(0, i + 1) =~= models(targets@).subrange(
                0,
                i as int,
            ).push(targets@[i as int]@));
        }
        i += 1;
    }
    proof {
        assert(models(targets@).subrange(0, targets@.len() as int) =~= models(targets@));
    }
    copy
}

/// How far a deletion has come: a snapshot taken after each target.
#[derive(Debug, Clone, Copy, PartialEq, Eq, Structural)]
pub struct DeleteProgress {
    pub processed: usize,
    pub total: usize,
    pub deleted_paths: usize,
    pub deleted_bytes: u64,
    pub skipped_paths: usize,
    pub error_count: usize,
}

/// What a deletion has done, in the end or so far.
#[derive(Debug, PartialEq, Eq)]
pub struct DeleteSummary {
    pub planned_paths: usize,
    pub planned_bytes: u64,
    pub deleted_paths: usize,
    pub deleted_bytes: u64,
    pub skipped_paths: usize,
    pub errors: Vec<(FsPath, String)>,
}

/// What a `DeleteSummary` holds.
pub struct SummaryModel {
    pub planned_paths: int,
    pub planned_bytes: u64,
    pub deleted_paths: int,
    pub deleted_bytes: u64,
    pub skipped_paths: int,
    pub errors: Seq<(Seq<u8>, Seq<char>)>,
}

impl View for DeleteSummary {
    type V = SummaryModel;

    open spec fn view(&self) -> SummaryModel {
        SummaryModel {
            planned_paths: self.planned_paths as int,
            planned_bytes: self.planned_bytes,
            deleted_paths: self.deleted_paths as int,
            deleted_bytes: self.deleted_bytes,
            skipped_paths: self.skipped_paths as int,
            errors: self.errors@.map_values(|e: (FsPath, String)| (e.0@, e.1@)),
        }
    }
}

impl Default for DeleteSummary {
    fn default() -> (r: Self)
        ensures
            r@ == planned_summary(Seq::empty()),
    {
        let r = DeleteSummary {
            planned_paths: 0,
            planned_bytes: 0,
            deleted_paths: 0,
            deleted_bytes: 0,
            skipped_paths: 0,
            errors: Vec::new(),
        };
        proof {
            assert(r@.errors =~= Seq::empty());
        }
        r
    }
}

/// What version control says when asked again whether it ignores a target.
#[derive(Debug, PartialEq, Eq)]
pub enum IgnoreCheck {
    Ignored,
    NotIgnored,
    Failed(String),
}

/// How the removal of a target ended.
#[derive(Debug, PartialEq, Eq)]
pub enum Removal {
    Removed,
    Absent,
    Failed(String),
}

/// What became of one target.
#[derive(Debug, PartialEq, Eq)]
pub enum TargetFate {
    /// Refused: its final component is the version-control metadata
    /// directory.
    Blocked,
    /// Left alone: version control does not ignore it any more.
    NotIgnored,
    /// Left alone: version control could not be asked.
    CheckFailed(String),
    /// Would have been removed, but this is a dry run.
    DryRun,
    /// Removed.
    Removed,
    /// Was gone already.
    Absent,
    /// Could not be removed.
    RemoveFailed(String),
}

/// The error that is noted for a blocked target.
pub open spec fn blocked_message() -> Seq<char> {
    "refusing to delete blocked path"@
}

/// The bytes that the targets are expected to free together, held at the
/// largest `u64` where the sum would pass it.
pub open spec fn planned_total(targets: Seq<TargetModel>) -> u64
    decreases targets.len(),
{
    if targets.len() == 0 {
        0
    } else {
        saturating_sum(planned_total(targets.drop_last()), targets.last().planned_bytes)
    }
}

/// The summary before the first target: all planned, nothing done.
pub open spec fn planned_summary(targets: Seq<TargetModel>) -> SummaryModel {
    SummaryModel {
        planned_paths: targets.len() as int,
        planned_bytes: planned_total(targets),
        deleted_paths: 0,
        deleted_bytes: 0,
        skipped_paths: 0,
        errors: Seq::empty(),
    }
}

/// The summary after one more target has met its fate.
pub open spec fn with_fate(s: SummaryModel, target: TargetModel, fate: TargetFate) -> SummaryModel {
    match fate {
        TargetFate::Blocked => SummaryModel {
            skipped_paths: s.skipped_paths + 1,
            errors: s.errors.push((target.path, blocked_message())),
            ..s
        },
        TargetFate::NotIgnored => SummaryModel { skipped_paths: s.skipped_paths + 1, ..s },
        TargetFate::CheckFailed(message) => SummaryModel {
            skipped_paths: s.skipped_paths + 1,
            errors: s.errors.push((target.path, message@)),
            ..s
        },
        TargetFate::DryRun => s,
        TargetFate::Removed => SummaryModel {
            deleted_paths: s.deleted_paths + 1,
            deleted_bytes: saturating_sum(s.deleted_bytes, target.planned_bytes),
            ..s
        },
        TargetFate::Absent => SummaryModel { skipped_paths: s.skipped_paths + 1, ..s },
        TargetFate::RemoveFailed(message) => SummaryModel {
            errors: s.errors.push((target.path, message@)),
            ..s
        },
    }
}

/// The summary after the first targets of the plan have met the given fates,
/// one for each.
pub open spec fn run_summary(targets: Seq<TargetModel>, fates: Seq<TargetFate>) -> SummaryModel
    decreases fates.len(),
{
    if fates.len() == 0 {
        planned_summary(targets)
    } else {
        with_fate(
            run_summary(targets, fates.drop_last()),
            targets[fates.len() - 1],
            fates.last(),
        )
    }
}

/// The snapshot that goes with a summary once `processed` targets are done.
pub open spec fn snapshot(s: SummaryModel, processed: int) -> DeleteProgress {
    DeleteProgress {
        processed: processed as usize,
        total: s.planned_paths as usize,
        deleted_paths: s.deleted_paths as usize,
        deleted_bytes: s.deleted_bytes,
        skipped_paths: s.skipped_paths as usize,
        error_count: s.errors.len() as usize,
    }
}

/// A snapshot that a deletion of `total` targets can give: it counts at
/// least one target and at most all, and no more deleted, skipped or failed
/// ones than it has processed.
pub open spec fn progress_in_range(p: DeleteProgress, total: int) -> bool {
    &&& p.total == total
    &&& 1 <= p.processed <= p.total
    &&& p.deleted_paths + p.skipped_paths <= p.processed
    &&& p.error_count <= p.processed
}

/// A fate that a run may give to `target`: a blocked target is refused
/// whatever else holds, and any other target fares as the answers to the two
/// questions say. In a dry run nothing is removed.
pub open spec fn fate_allowed<V: Fn(&DeleteTarget) -> IgnoreCheck, R: Fn(&DeleteTarget) -> Removal>(
    target: &DeleteTarget,
    dry_run: bool,
    check_ignored: V,
    remove: R,
    fate: TargetFate,
) -> bool {
    if is_blocked(target.path@) {
        fate == TargetFate::Blocked
    } else {
        match fate {
            TargetFate::Blocked => false,
            TargetFate::NotIgnored => call_ensures(
                check_ignored,
                (target,),
                IgnoreCheck::NotIgnored,
            ),
            TargetFate::CheckFailed(message) => call_ensures(
                check_ignored,
                (target,),
                IgnoreCheck::Failed(message),
            ),
            TargetFate::DryRun => dry_run && call_ensures(
                check_ignored,
                (target,),
                IgnoreCheck::Ignored,
            ),
            TargetFate::Removed => !dry_run && call_ensures(
                check_ignored,
                (target,),
                IgnoreCheck::Ignored,
            ) && call_ensures(remove, (target,), Removal::Removed),
            TargetFate::Absent => !dry_run && call_ensures(
                check_ignored,
                (target,),
                IgnoreCheck::Ignored,
            ) && call_ensures(remove, (target,), Removal::Absent),
            TargetFate::RemoveFailed(message) => !dry_run && call_ensures(
                check_ignored,
                (target,),
                IgnoreCheck::Ignored,
            ) && call_ensures(remove, (target,), Removal::Failed(message)),
        }
    }
}

/// The fate leaves the target on disk.
pub open spec fn leaves_in_place(fate: TargetFate) -> bool {
    !(fate is Removed)
}

/// Whatever the fates, a summary counts no more deleted and skipped targets,
/// and no more errors, than targets have been processed, and what was
/// planned stays as planned.
pub proof fn lemma_run_counts(targets: Seq<TargetModel>, fates: Seq<TargetFate>)
    ensures
        run_summary(targets, fates).planned_paths == targets.len(),
        run_summary(targets, fates).planned_bytes == planned_total(targets),
        0 <= run_summary(targets, fates).deleted_paths,
        0 <= run_summary(targets, fates).skipped_paths,
        run_summary(targets, fates).deleted_paths + run_summary(targets, fates).skipped_paths
            <= fates.len(),
        run_summary(targets, fates).errors.len() <= fates.len(),
    decreases fates.len(),
{
    if fates.len() > 0 {
        lemma_run_counts(targets, fates.drop_last());
    }
}

/// A run in which nothing is removed counts nothing as deleted: so a dry
/// run over any plan, after any number of targets.
pub proof fn lemma_nothing_removed_nothing_deleted(
    targets: Seq<TargetModel>,
    fates: Seq<TargetFate>,
)
    requires
        forall|i: int| 0 <= i < fates.len() ==> leaves_in_place(fates[i]),
    ensures
        run_summary(targets, fates).deleted_paths == 0,
        run_summary(targets, fates).deleted_bytes == 0,
    decreases fates.len(),
{
    if fates.len() > 0 {
        assert forall|i: int| 0 <= i < fates.drop_last().len() implies leaves_in_place(
            fates.drop_last()[i],
        ) by {
            assert(fates.drop_last()[i] == fates[i]);
        }
        lemma_nothing_removed_nothing_deleted(targets, fates.drop_last());
        assert(leaves_in_place(fates[fates.len() - 1]));
    }
}

/// In a dry run no fate removes anything, and a blocked target is refused
/// in any run.
pub proof fn lemma_fate_allowed<V: Fn(&DeleteTarget) -> IgnoreCheck, R: Fn(&DeleteTarget) -> Removal>(
    target: &DeleteTarget,
    dry_run: bool,
    check_ignored: V,
    remove: R,
    fate: TargetFate,
)
    requires
        fate_allowed(target, dry_run, check_ignored, remove, fate),
    ensures
        dry_run ==> leaves_in_place(fate),
        is_blocked(target.path@) ==> fate == TargetFate::Blocked,
        fate is Removed ==> !dry_run && !is_blocked(target.path@),
{
}

impl DeleteSummary {
    /// The summary before the first target.
    pub fn planned(targets: &Vec<DeleteTarget>) -> (r: Self)
        ensures
            r@ == planned_summary(models(targets@)),
    {
        let mut planned_bytes: u64 = 0;
        let mut i: usize = 0;
        proof {
            assert(models(targets@).subrange(0, 0) =~= Seq::empty());
        }
        while i < targets.len()
            invariant
                i <= targets@.len(),
                planned_bytes == planned_total(models(targets@).subrange(0, i as int)),
            decreases targets@.len() - i,
        {
            proof {
                assert(models(targets@).subrange(0, i + 1).drop_last() =~= models(
                    targets@,
                ).subrange(0, i as int));
            }
            planned_bytes = planned_bytes.saturating_add(targets[i].planned_bytes);
            i += 1;
        }
        let r = DeleteSummary {
            planned_paths: targets.len(),
            planned_bytes,
            deleted_paths: 0,
            deleted_bytes: 0,
            skipped_paths: 0,
            errors: Vec::new(),
        };
        proof {
            assert(models(targets@).subrange(0, targets@.len() as int) =~= models(targets@));
            assert(r@.errors =~= Seq::empty());
        }
        r
    }

    /// Notes what became of one target, and gives the snapshot to report once
    /// `processed` targets are done.
    pub fn record(&mut self, target: &DeleteTarget, fate: TargetFate, processed: usize) -> (progress:
        DeleteProgress)
        requires
            old(self).deleted_paths < usize::MAX,
            old(self).skipped_paths < usize::MAX,
        ensures
            final(self)@ == with_fate(old(self)@, target@, fate),
            progress == snapshot(final(self)@, processed as int),
    {
        let ghost before = self@;
        match fate {
            TargetFate::Blocked => {
                self.skipped_paths += 1;
                let message = String::from_str("refusing to delete blocked path");
                self.errors.push((target.path.clone(), message));
            },
            TargetFate::NotIgnored => {
                self.skipped_paths += 1;
            },
            TargetFate::CheckFailed(message) => {
                self.skipped_paths += 1;
                self.errors.push((target.path.clone(), message));
            },
            TargetFate::DryRun => {},
            TargetFate::Removed => {
                self.deleted_paths += 1;
                self.deleted_bytes = self.deleted_bytes.saturating_add(target.planned_bytes);
            },
            TargetFate::Absent => {
                self.skipped_paths += 1;
            },
            TargetFate::RemoveFailed(message) => {
                self.errors.push((target.path.clone(), message));
            },
        }
        proof {
            assert(self@.errors =~= with_fate(before, target@, fate).errors);
        }
        DeleteProgress {
            processed,
            total: self.planned_paths,
            deleted_paths: self.deleted_paths,
            deleted_bytes: self.deleted_bytes,
            skipped_paths: self.skipped_paths,
            error_count: self.errors.len(),
        }
    }
}

/// What a run leaves behind: the summary, and how many targets it processed.
pub struct RunOutcome {
    pub summary: DeleteSummary,
    pub processed: usize,
}

/// The fates fit a run over `targets`: there is one for each of the first
/// targets, and each is one that the run may give.
pub open spec fn fates_allowed<V: Fn(&DeleteTarget) -> IgnoreCheck, R: Fn(&DeleteTarget) -> Removal>(
    targets: Seq<DeleteTarget>,
    dry_run: bool,
    check_ignored: V,
    remove: R,
    fates: Seq<TargetFate>,
) -> bool {
    &&& fates.len() <= targets.len()
    &&& forall|i: int|
        0 <= i < fates.len() ==> fate_allowed(
            &targets[i],
            dry_run,
            check_ignored,
            remove,
            #[trigger] fates[i],
        )
}

/// The snapshot that is handed out after the target at index `i`, in a run
/// with the given fates: it counts what the fates up to that target add up
/// to.
pub open spec fn snapshot_after(
    targets: Seq<TargetModel>,
    fates: Seq<TargetFate>,
    i: int,
) -> DeleteProgress {
    snapshot(run_summary(targets, fates.subrange(0, i + 1)), i + 1)
}

/// `on_progress` has been given the snapshot after each target that met its
/// fate.
pub open spec fn progress_reported<F: Fn(DeleteProgress)>(
    targets: Seq<TargetModel>,
    fates: Seq<TargetFate>,
    on_progress: F,
) -> bool {
    forall|i: int|
        0 <= i < fates.len() ==> call_ensures(
            on_progress,
            (#[trigger] snapshot_after(targets, fates, i),),
            (),
        )
}

/// Carries out the plan, target by target and in order, and says how far it
/// came.
///
/// Before each target `should_cancel` is asked, and the run ends at once
/// where it says so: a target is processed only after the answer no, and
/// after the answer yes nothing more is asked or done. A blocked target is refused and noted as an error.
/// Any other target is handed to `check_ignored`: one that version control
/// does not ignore any more is skipped, one of which it cannot tell is
/// skipped and noted as an error. In a dry run that is all. Otherwise the
/// target is handed to `remove`: one that was gone already counts as
/// skipped, one that could not be removed is noted as an error, and one
/// that was removed is counted with the bytes planned for it. After each
/// target `on_progress` gets the snapshot of what has been done up to it.
///
/// `check_ignored` need not accept a blocked target, and `remove` need accept
/// no target at all in a dry run: neither is ever handed one.
pub fn run_delete<C, V, R, F>(
    targets: &Vec<DeleteTarget>,
    dry_run: bool,
    should_cancel: &C,
    check_ignored: &V,
    remove: &R,
    on_progress: &F,
) -> (outcome: RunOutcome) where
    C: Fn() -> bool,
    V: Fn(&DeleteTarget) -> IgnoreCheck,
    R: Fn(&DeleteTarget) -> Removal,
    F: Fn(DeleteProgress),

    requires
        call_requires(*should_cancel, ()),
        forall|i: int|
            0 <= i < targets@.len() && !is_blocked(targets@[i].path@) ==> call_requires(
                *check_ignored,
                (&#[trigger] targets@[i],),
            ),
        forall|i: int|
            0 <= i < targets@.len() && !is_blocked(targets@[i].path@) && !dry_run
                ==> call_requires(*remove, (&#[trigger] targets@[i],)),
        forall|p: DeleteProgress|
            progress_in_range(p, targets@.len() as int) ==> call_requires(*on_progress, (p,)),
    ensures
        outcome.processed <= targets@.len(),
        outcome.processed < targets@.len() ==> call_ensures(*should_cancel, (), true),
        outcome.processed > 0 ==> call_ensures(*should_cancel, (), false),
        exists|fates: Seq<TargetFate>|
            fates.len() == outcome.processed && fates_allowed(
                targets@,
                dry_run,
                *check_ignored,
                *remove,
                fates,
            ) && outcome.summary@ == run_summary(models(targets@), fates) && progress_reported(
                models(targets@),
                fates,
                *on_progress,
            ),
{
    let mut summary = DeleteSummary::planned(targets);
    let ghost mut fates: Seq<TargetFate> = Seq::empty();
    let mut index: usize = 0;
    let mut canceled = false;
    while index < targets.len() && !canceled
        invariant
            index <= targets@.len(),
            fates.len() == index,
            canceled ==> call_ensures(*should_cancel, (), true) && index < targets@.len(),
            index > 0 ==> call_ensures(*should_cancel, (), false),
            fates_allowed(targets@, dry_run, *check_ignored, *remove, fates),
            summary@ == run_summary(models(targets@), fates),
            progress_reported(models(targets@), fates, *on_progress),
            call_requires(*should_cancel, ()),
            forall|i: int|
                0 <= i < targets@.len() && !is_blocked(targets@[i].path@) ==> call_requires(
                    *check_ignored,
                    (&#[trigger] targets@[i],),
                ),
            forall|i: int|
                0 <= i < targets@.len() && !is_blocked(targets@[i].path@) && !dry_run
                    ==> call_requires(*remove, (&#[trigger] targets@[i],)),
            forall|p: DeleteProgress|
                progress_in_range(p, targets@.len() as int) ==> call_requires(
                    *on_progress,
                    (p,),
                ),
        decreases targets@.len() - index + (if canceled { 0int } else { 1int }),
    {
        if should_cancel() {
            canceled = true;
        } else {
            let target = &targets[index];
            let fate = if is_blocked_path(&target.path) {
                TargetFate::Blocked
            } else {
                match check_ignored(target) {
                    IgnoreCheck::NotIgnored => TargetFate::NotIgnored,
                    IgnoreCheck::Failed(message) => TargetFate::CheckFailed(message),
                    IgnoreCheck::Ignored => {
                        if dry_run {
                            TargetFate::DryRun
                        } else {
                            match remove(target) {
                                Removal::Removed => TargetFate::Removed,
                                Removal::Absent => TargetFate::Absent,
                                Removal::Failed(message) => TargetFate::RemoveFailed(message),
                            }
                        }
                    },
                }
            };
            let ghost fate_seen = fate;
            proof {
                lemma_run_counts(models(targets@), fates);
                assert(fate_allowed(target, dry_run, *check_ignored, *remove, fate_seen));
            }
            let progress = summary.record(target, fate, index + 1);
            let ghost shorter = fates;
            proof {
                let longer = fates.push(fate_seen);
                assert(longer.drop_last() =~= fates);
                assert(models(targets@)[index as int] == target@);
                fates = longer;
                lemma_run_counts(models(targets@), fates);
                assert(progress_in_range(progress, targets@.len() as int));
            }
            on_progress(progress);
            proof {
                let all = models(targets@);
                assert forall|i: int| 0 <= i < fates.len() implies call_ensures(
                    *on_progress,
                    (#[trigger] snapshot_after(all, fates, i),),
                    (),
                ) by {
                    if i < shorter.len() {
                        assert(fates.subrange(0, i + 1) =~= shorter.subrange(0, i + 1));
                        assert(snapshot_after(all, fates, i) == snapshot_after(all, shorter, i));
                    } else {
                        assert(fates.subrange(0, i + 1) =~= fates);
                        assert(snapshot_after(all, fates, i) == progress);
                    }
                }
            }
            index += 1;
        }
    }
    RunOutcome { summary, processed: index }
}

/// Carries out the plan and gives the summary of what was done; see
/// `run_delete` for the rules.
pub fn execute_delete_with_progress<C, V, R, F>(
    targets: &Vec<DeleteTarget>,
    dry_run: bool,
    should_cancel: C,
    check_ignored: V,
    remove: R,
    on_progress: F,
) -> (summary: DeleteSummary) where
    C: Fn() -> bool,
    V: Fn(&DeleteTarget) -> IgnoreCheck,
    R: Fn(&DeleteTarget) -> Removal,
    F: Fn(DeleteProgress),

    requires
        call_requires(should_cancel, ()),
        forall|i: int|
            0 <= i < targets@.len() && !is_blocked(targets@[i].path@) ==> call_requires(
                check_ignored,
                (&#[trigger] targets@[i],),
            ),
        forall|i: int|
            0 <= i < targets@.len() && !is_blocked(targets@[i].path@) && !dry_run
                ==> call_requires(remove, (&#[trigger] targets@[i],)),
        forall|p: DeleteProgress|
            progress_in_range(p, targets@.len() as int) ==> call_requires(on_progress, (p,)),
    ensures
        exists|fates: Seq<TargetFate>|
            fates_allowed(targets@, dry_run, check_ignored, remove, fates) && summary@
                == run_summary(models(targets@), fates) && (fates.len() < targets@.len()
                ==> call_ensures(should_cancel, (), true)) && (fates.len() > 0 ==> call_ensures(
                should_cancel,
                (),
                false,
            )) && progress_reported(
                models(targets@),
                fates,
                on_progress,
            ),
        dry_run ==> summary.deleted_paths == 0 && summary.deleted_bytes == 0,
        summary.planned_paths == targets@.len(),
        summary.planned_bytes == planned_total(models(targets@)),
        summary.deleted_paths + summary.skipped_paths <= targets@.len(),
        summary.errors@.len() <= targets@.len(),
{
    let outcome = run_delete(
        targets,
        dry_run,
        &should_cancel,
        &check_ignored,
        &remove,
        &on_progress,
    );
    proof {
        let fates = choose|fates: Seq<TargetFate>|
            fates.len() == outcome.processed && fates_allowed(
                targets@,
                dry_run,
                check_ignored,
                remove,
                fates,
            ) && outcome.summary@ == run_summary(models(targets@), fates) && progress_reported(
                models(targets@),
                fates,
                on_progress,
            );
        lemma_run_counts(models(targets@), fates);
        if dry_run {
            assert forall|i: int| 0 <= i < fates.len() implies leaves_in_place(fates[i]) by {
                lemma_fate_allowed(&targets@[i], dry_run, check_ignored, remove, fates[i]);
            }
            lemma_nothing_removed_nothing_deleted(models(targets@), fates);
        }
    }
    outcome.summary
}

/// What the outside answers for one target: whether to cancel before it,
/// what version control says of it, and how its removal ends. An answer
/// that the run has no need of is not looked at.
#[derive(Debug, PartialEq, Eq)]
pub struct StepAnswers {
    pub cancel: bool,
    pub check: IgnoreCheck,
    pub removal: Removal,
}

/// The fate of a target, given whether it is blocked and what the outside
/// answers of it: a blocked target is refused whatever the answers; one
/// that is not ignored, or of which version control cannot tell, is left
/// alone; in a dry run that is all; else the removal decides.
pub open spec fn fate_from(
    blocked: bool,
    dry_run: bool,
    check: IgnoreCheck,
    removal: Removal,
) -> TargetFate {
    if blocked {
        TargetFate::Blocked
    } else {
        match check {
            IgnoreCheck::NotIgnored => TargetFate::NotIgnored,
            IgnoreCheck::Failed(message) => TargetFate::CheckFailed(message),
            IgnoreCheck::Ignored => if dry_run {
                TargetFate::DryRun
            } else {
                match removal {
                    Removal::Removed => TargetFate::Removed,
                    Removal::Absent => TargetFate::Absent,
                    Removal::Failed(message) => TargetFate::RemoveFailed(message),
                }
            },
        }
    }
}

/// Settles the fate of a target from what the outside answers of it.
pub fn settle(target: &DeleteTarget, dry_run: bool, check: IgnoreCheck, removal: Removal) -> (fate:
    TargetFate)
    ensures
        fate == fate_from(is_blocked(target.path@), dry_run, check, removal),
{
    if is_blocked_path(&target.path) {
        return TargetFate::Blocked;
    }
    match check {
        IgnoreCheck::NotIgnored => TargetFate::NotIgnored,
        IgnoreCheck::Failed(message) => TargetFate::CheckFailed(message),
        IgnoreCheck::Ignored => {
            if dry_run {
                TargetFate::DryRun
            } else {
                match removal {
                    Removal::Removed => TargetFate::Removed,
                    Removal::Absent => TargetFate::Absent,
                    Removal::Failed(message) => TargetFate::RemoveFailed(message),
                }
            }
        },
    }
}

/// A fate settled from answers that `check_ignored` and `remove` give of the
/// target is a fate that a run may give it.
pub proof fn lemma_settled_fate_allowed<
    V: Fn(&DeleteTarget) -> IgnoreCheck,
    R: Fn(&DeleteTarget) -> Removal,
>(
    target: &DeleteTarget,
    dry_run: bool,
    check_ignored: V,
    remove: R,
    check: IgnoreCheck,
    removal: Removal,
)
    requires
        call_ensures(check_ignored, (target,), check),
        call_ensures(remove, (target,), removal),
    ensures
        fate_allowed(
            target,
            dry_run,
            check_ignored,
            remove,
            fate_from(is_blocked(target.path@), dry_run, check, removal),
        ),
{
}

/// The number of targets that a run processes, counting from the target at
/// index `from`: it goes on until a cancel answer, or until the targets or
/// the answers are used up.
pub open spec fn stops_at(answers: Seq<StepAnswers>, total: int, from: int) -> int
    decreases answers.len() - from,
{
    if from < 0 || from >= answers.len() || from >= total || answers[from].cancel {
        from
    } else {
        stops_at(answers, total, from + 1)
    }
}

/// The fates of the first `n` targets under the given answers.
pub open spec fn fates_under(
    targets: Seq<DeleteTarget>,
    dry_run: bool,
    answers: Seq<StepAnswers>,
    n: int,
) -> Seq<TargetFate> {
    Seq::new(
        n as nat,
        |i: int|
            fate_from(is_blocked(targets[i].path@), dry_run, answers[i].check, answers[i].removal),
    )
}

/// Carries out the plan against answers that are known beforehand, one set
/// for each target in turn: the run that `run_delete` makes where the
/// outside gives these answers. It processes the targets up to the first
/// cancel answer, each with the fate that its answers settle, and counts
/// them as `run_delete` does.
pub fn replay_delete(targets: &Vec<DeleteTarget>, dry_run: bool, answers: Vec<StepAnswers>) -> (outcome:
    RunOutcome)
    ensures
        outcome.processed == stops_at(answers@, targets@.len() as int, 0),
        outcome.processed <= targets@.len(),
        outcome.processed <= answers@.len(),
        outcome.summary@ == run_summary(
            models(targets@),
            fates_under(targets@, dry_run, answers@, outcome.processed as int),
        ),
{
    let ghost all = answers@;
    let mut stack = crate::sort::reversed(answers);
    let mut summary = DeleteSummary::planned(targets);
    let mut index: usize = 0;
    proof {
        assert(fates_under(targets@, dry_run, all, 0) =~= Seq::empty());
    }
    while index < targets.len() && stack.len() > 0
        invariant
            all == answers@,
            index <= targets@.len(),
            index + stack@.len() == all.len(),
            forall|k: int| 0 <= k < stack@.len() ==> stack@[k] == all[all.len() - 1 - k],
            summary@ == run_summary(
                models(targets@),
                fates_under(targets@, dry_run, all, index as int),
            ),
            stops_at(all, targets@.len() as int, 0) == stops_at(
                all,
                targets@.len() as int,
                index as int,
            ),
        decreases stack@.len(),
    {
        let ghost top = stack@.len() - 1;
        assert(stack@[top] == all[index as int]);
        let answer = stack.pop().unwrap();
        if answer.cancel {
            return RunOutcome { summary, processed: index };
        }
        let target = &targets[index];
        let fate = settle(target, dry_run, answer.check, answer.removal);
        let ghost before = fates_under(targets@, dry_run, all, index as int);
        proof {
            lemma_run_counts(models(targets@), before);
            let longer = fates_under(targets@, dry_run, all, index + 1);
            assert(longer.drop_last() =~= before);
            assert(longer.last() == fate);
            assert(models(targets@)[index as int] == target@);
        }
        summary.record(target, fate, index + 1);
        index += 1;
    }
    RunOutcome { summary, processed: index }
}

} // verus!
