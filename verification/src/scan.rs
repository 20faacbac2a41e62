//! Directory statistics and the rules of the two directory traversals.
//!
//! Reading directories is left to the caller. The functions here say what a
//! traversal does with what it has read at one directory, and how the parts
//! of a tree add up.

use vstd::prelude::*;
use crate::keyed::{ascending, insert_distinct, keys, lemma_with_item};
use crate::path::{
    bytes_equal, is_blocked, is_component, is_component_name, joined,
    lemma_joined_final_component, metadata_dir,
    metadata_dir_name, FsPath,
};
use crate::time::{
    is_later_in_time, later_of, lemma_later_of, max_time, not_after, valid_time, Timestamp,
};

verus! {

/// Size and newest modification time of a file or of a whole directory tree.
#[derive(Clone, Copy, Debug, PartialEq, Eq)]
pub struct DirStats {
    pub size_bytes: u64,
    pub newest_mtime: Option<Timestamp>,
}

/// The sum of two sizes, held at the largest `u64` where it would pass it.
pub open spec fn saturating_sum(a: u64, b: u64) -> u64 {
    if a + b > u64::MAX {
        u64::MAX
    } else {
        (a + b) as u64
    }
}

/// The statistics of nothing: no bytes, no modification time.
pub open spec fn empty_stats() -> DirStats {
    DirStats { size_bytes: 0, newest_mtime: None }
}

/// The statistics of two parts taken together: sizes add up, the newer
/// modification time stays.
pub open spec fn merged(a: DirStats, b: DirStats) -> DirStats {
    DirStats {
        size_bytes: saturating_sum(a.size_bytes, b.size_bytes),
        newest_mtime: later_of(a.newest_mtime, b.newest_mtime),
    }
}

/// The statistics of all of `parts` taken together.
pub open spec fn aggregate(parts: Seq<DirStats>) -> DirStats
    decreases parts.len(),
{
    if parts.len() == 0 {
        empty_stats()
    } else {
        merged(aggregate(parts.drop_last()), parts.last())
    }
}

impl Default for DirStats {
    fn default() -> (r: Self)
        ensures
            r == empty_stats(),
    {
        DirStats { size_bytes: 0, newest_mtime: None }
    }
}

impl DirStats {
    /// Adds the statistics of another part: the sizes add up, and the newer
    /// modification time stays.
    pub fn merge(&mut self, other: DirStats)
        ensures
            *final(self) == merged(*old(self), other),
            valid_time(old(self).newest_mtime) && valid_time(other.newest_mtime)
                ==> is_later_in_time(
                old(self).newest_mtime,
                other.newest_mtime,
                final(self).newest_mtime,
            ) && valid_time(final(self).newest_mtime),
    {
        self.size_bytes = self.size_bytes.saturating_add(other.size_bytes);
        self.merge_mtime(other.newest_mtime);
    }

    /// Takes note of one more modification time.
    pub fn merge_mtime(&mut self, other: Option<Timestamp>)
        ensures
            final(self).size_bytes == old(self).size_bytes,
            final(self).newest_mtime == later_of(old(self).newest_mtime, other),
            valid_time(old(self).newest_mtime) && valid_time(other) ==> is_later_in_time(
                old(self).newest_mtime,
                other,
                final(self).newest_mtime,
            ) && valid_time(final(self).newest_mtime),
    {
        self.newest_mtime = max_time(self.newest_mtime, other);
    }
}

/// Every part has a valid modification time, or none.
pub open spec fn times_valid(parts: Seq<DirStats>) -> bool {
    forall|i: int| 0 <= i < parts.len() ==> valid_time(#[trigger] parts[i].newest_mtime)
}

/// The newest modification time of an aggregate of parts with valid times is
/// the latest in time: it is valid, no part has a later one, and it is the
/// time of one of the parts unless no part has any.
pub proof fn lemma_aggregate_newest_in_time(parts: Seq<DirStats>)
    requires
        times_valid(parts),
    ensures
        valid_time(aggregate(parts).newest_mtime),
        forall|i: int|
            0 <= i < parts.len() ==> not_after(
                #[trigger] parts[i].newest_mtime,
                aggregate(parts).newest_mtime,
            ),
        aggregate(parts).newest_mtime.is_some() ==> exists|i: int|
            0 <= i < parts.len() && #[trigger] parts[i].newest_mtime == aggregate(
                parts,
            ).newest_mtime,
    decreases parts.len(),
{
    if parts.len() > 0 {
        let front = parts.drop_last();
        let last = parts.last();
        assert forall|i: int| 0 <= i < front.len() implies valid_time(
            #[trigger] front[i].newest_mtime,
        ) by {
            assert(front[i] == parts[i]);
        }
        lemma_aggregate_newest_in_time(front);
        let before = aggregate(front).newest_mtime;
        let after = aggregate(parts).newest_mtime;
        assert(valid_time(last.newest_mtime)) by {
            assert(parts[parts.len() - 1] == last);
        }
        crate::time::lemma_later_of_is_later_in_time(before, last.newest_mtime);
        assert forall|i: int| 0 <= i < parts.len() implies not_after(
            #[trigger] parts[i].newest_mtime,
            after,
        ) by {
            if i < front.len() {
                assert(front[i] == parts[i]);
                assert(not_after(front[i].newest_mtime, before));
            }
        }
        if after.is_some() {
            if after == last.newest_mtime {
                assert(parts[parts.len() - 1].newest_mtime == after);
            } else {
                let k = choose|k: int|
                    0 <= k < front.len() && #[trigger] front[k].newest_mtime == before;
                assert(parts[k].newest_mtime == after);
            }
        }
    }
}

/// Merging does not depend on the order of its two parts.
pub proof fn lemma_merge_commutative(a: DirStats, b: DirStats)
    ensures
        merged(a, b) == merged(b, a),
{
    lemma_later_of(a.newest_mtime, b.newest_mtime, None);
}

/// Merging three parts does not depend on which two are merged first.
pub proof fn lemma_merge_associative(a: DirStats, b: DirStats, c: DirStats)
    ensures
        merged(merged(a, b), c) == merged(a, merged(b, c)),
{
    lemma_later_of(a.newest_mtime, b.newest_mtime, c.newest_mtime);
}

/// Merging with the statistics of nothing changes nothing.
pub proof fn lemma_merge_empty(a: DirStats)
    ensures
        merged(a, empty_stats()) == a,
        merged(empty_stats(), a) == a,
{
}

/// Aggregating two groups of parts on their own and merging the results
/// gives what aggregating all the parts at once gives.
pub proof fn lemma_aggregate_split(a: Seq<DirStats>, b: Seq<DirStats>)
    ensures
        aggregate(a + b) == merged(aggregate(a), aggregate(b)),
    decreases b.len(),
{
    if b.len() == 0 {
        assert(a + b =~= a);
        lemma_merge_empty(aggregate(a));
    } else {
        assert((a + b).drop_last() =~= a + b.drop_last());
        lemma_aggregate_split(a, b.drop_last());
        lemma_merge_associative(aggregate(a), aggregate(b.drop_last()), b.last());
    }
}

/// Taking one part out and merging it back gives the aggregate of all parts.
pub proof fn lemma_aggregate_remove(parts: Seq<DirStats>, k: int)
    requires
        0 <= k < parts.len(),
    ensures
        aggregate(parts) == merged(aggregate(parts.remove(k)), parts[k]),
    decreases parts.len(),
{
    let front = parts.drop_last();
    if k == parts.len() - 1 {
        assert(parts.remove(k) =~= front);
    } else {
        lemma_aggregate_remove(front, k);
        assert(parts.remove(k) =~= front.remove(k).push(parts.last()));
        assert(parts.remove(k).drop_last() =~= front.remove(k));
        let rest = aggregate(front.remove(k));
        lemma_merge_associative(rest, parts[k], parts.last());
        lemma_merge_commutative(parts[k], parts.last());
        lemma_merge_associative(rest, parts.last(), parts[k]);
    }
}

/// The aggregate depends on which parts there are and how often each occurs,
/// and not on their order.
pub proof fn lemma_aggregate_any_order(a: Seq<DirStats>, b: Seq<DirStats>)
    requires
        a.to_multiset() == b.to_multiset(),
    ensures
        aggregate(a) == aggregate(b),
    decreases a.len(),
{
    broadcast use vstd::seq_lib::group_to_multiset_ensures;

    a.to_multiset_ensures();
    b.to_multiset_ensures();
    if a.len() == 0 {
        assert(b.to_multiset().len() == 0);
    } else {
        let x = a.last();
        let front = a.drop_last();
        assert(a =~= front.push(x));
        assert(a.to_multiset().count(x) > 0);
        assert(b.contains(x));
        let k = choose|k: int| 0 <= k < b.len() && b[k] == x;
        assert(front.to_multiset() =~= a.to_multiset().remove(x));
        assert(b.remove(k).to_multiset() =~= b.to_multiset().remove(x));
        lemma_aggregate_any_order(front, b.remove(k));
        lemma_aggregate_remove(b, k);
    }
}

/// However the files of a directory are split into groups, and in whatever
/// order the groups are taken, aggregating each group and merging the results
/// gives the statistics of all the files: here for a split in two, from which
/// any finer split follows.
pub proof fn lemma_partition_independent(
    whole: Seq<DirStats>,
    first: Seq<DirStats>,
    second: Seq<DirStats>,
)
    requires
        whole.to_multiset() == first.to_multiset().add(second.to_multiset()),
    ensures
        merged(aggregate(first), aggregate(second)) == aggregate(whole),
        merged(aggregate(second), aggregate(first)) == aggregate(whole),
{
    vstd::seq_lib::lemma_multiset_commutative(first, second);
    lemma_aggregate_any_order(whole, first + second);
    lemma_aggregate_split(first, second);
    lemma_merge_commutative(aggregate(first), aggregate(second));
}

/// All the parts of all the groups, group after group.
pub open spec fn flattened(groups: Seq<Seq<DirStats>>) -> Seq<DirStats>
    decreases groups.len(),
{
    if groups.len() == 0 {
        Seq::empty()
    } else {
        flattened(groups.drop_last()) + groups.last()
    }
}

/// The aggregate of each group, in the order of the groups.
pub open spec fn group_totals(groups: Seq<Seq<DirStats>>) -> Seq<DirStats> {
    groups.map_values(|g: Seq<DirStats>| aggregate(g))
}

/// Into however many groups the parts are split, aggregating each group on
/// its own and then the results gives what aggregating all parts at once
/// gives: so the levels of a directory tree, each aggregated by itself, add
/// up to the statistics of all the files of the tree.
pub proof fn lemma_aggregate_groups(groups: Seq<Seq<DirStats>>)
    ensures
        aggregate(group_totals(groups)) == aggregate(flattened(groups)),
    decreases groups.len(),
{
    if groups.len() > 0 {
        let front = groups.drop_last();
        lemma_aggregate_groups(front);
        assert(group_totals(groups).drop_last() =~= group_totals(front));
        lemma_aggregate_split(flattened(front), groups.last());
    }
}

/// The groups can be merged in any order: what counts is which groups
/// there are.
pub proof fn lemma_groups_any_order(first: Seq<Seq<DirStats>>, second: Seq<Seq<DirStats>>)
    requires
        group_totals(first).to_multiset() == group_totals(second).to_multiset(),
    ensures
        aggregate(flattened(first)) == aggregate(flattened(second)),
{
    lemma_aggregate_groups(first);
    lemma_aggregate_groups(second);
    lemma_aggregate_any_order(group_totals(first), group_totals(second));
}

/// What a directory entry is.
#[derive(Clone, Copy, Debug, PartialEq, Eq, Structural)]
pub enum EntryKind {
    File,
    Directory,
    Symlink,
    Other,
}

/// What the file system tells of one entry: its kind, and for a file its
/// length and modification time.
#[derive(Clone, Copy, Debug)]
pub struct EntryMeta {
    pub kind: EntryKind,
    pub len: u64,
    pub modified: Option<Timestamp>,
}

/// One entry of a directory, as the walk for statistics sees it: its name,
/// and what the file system tells of it.
#[derive(Debug)]
pub struct WalkEntry {
    pub name: Vec<u8>,
    pub meta: EntryMeta,
}

/// What the walk for statistics does with an entry.
#[derive(Clone, Copy, Debug, PartialEq, Eq, Structural)]
pub enum WalkVisit {
    /// Pass it by.
    Skip,
    /// Count its length and its modification time.
    Count,
    /// Walk it in turn, as a level of its own.
    Descend,
}

/// What the walk does with an entry: a file is counted; a directory is
/// walked, but for the metadata directory of version control and for one
/// under a name that no entry can have, which are passed by; symbolic links
/// and all else are passed by.
pub open spec fn walk_visit(name: Seq<u8>, kind: EntryKind) -> WalkVisit {
    match kind {
        EntryKind::File => WalkVisit::Count,
        EntryKind::Directory => if name == metadata_dir_name() || !is_component(name) {
            WalkVisit::Skip
        } else {
            WalkVisit::Descend
        },
        EntryKind::Symlink => WalkVisit::Skip,
        EntryKind::Other => WalkVisit::Skip,
    }
}

/// Decides what the walk for statistics does with an entry.
pub fn classify_walk_entry(entry: &WalkEntry) -> (visit: WalkVisit)
    ensures
        visit == walk_visit(entry.name@, entry.meta.kind),
{
    match entry.meta.kind {
        EntryKind::File => WalkVisit::Count,
        EntryKind::Directory => {
            let blocked = metadata_dir();
            if bytes_equal(&entry.name, &blocked) || !is_component_name(&entry.name) {
                WalkVisit::Skip
            } else {
                WalkVisit::Descend
            }
        },
        EntryKind::Symlink => WalkVisit::Skip,
        EntryKind::Other => WalkVisit::Skip,
    }
}

/// What one entry adds to the statistics of the directory that lists it:
/// a file its length and modification time, anything else nothing.
pub open spec fn contribution(entry: WalkEntry) -> DirStats {
    if walk_visit(entry.name@, entry.meta.kind) == WalkVisit::Count {
        DirStats { size_bytes: entry.meta.len, newest_mtime: entry.meta.modified }
    } else {
        empty_stats()
    }
}

/// The statistics of one directory level: the directory's own modification
/// time and the files that it lists.
pub open spec fn level_stats(own_modified: Option<Timestamp>, entries: Seq<WalkEntry>) -> DirStats {
    merged(
        DirStats { size_bytes: 0, newest_mtime: own_modified },
        aggregate(entries.map_values(|e: WalkEntry| contribution(e))),
    )
}

/// The paths of the entries of the directory `dir` that the walk goes on
/// in, in the order of the entries.
pub open spec fn walk_paths(dir: Seq<u8>, entries: Seq<WalkEntry>) -> Seq<Seq<u8>>
    decreases entries.len(),
{
    if entries.len() == 0 {
        Seq::empty()
    } else {
        let rest = walk_paths(dir, entries.drop_last());
        let entry = entries.last();
        if walk_visit(entry.name@, entry.meta.kind) == WalkVisit::Descend {
            rest.push(joined(dir, entry.name@))
        } else {
            rest
        }
    }
}

/// What the walk finds at one directory: the statistics of the level, and
/// the directories to walk in turn.
#[derive(Debug)]
pub struct WalkLevel {
    pub local: DirStats,
    pub descend: Vec<FsPath>,
}

/// Walks one directory level, given the directory's own modification time
/// and the entries read from it: counts the files, and lists the
/// directories for the walk to go on in. Symbolic links and the metadata
/// directory of version control are passed by. Each directory listed is a
/// level of its own, to be merged with this one.
pub fn walk_dir_stats(dir: &FsPath, own_modified: Option<Timestamp>, entries: &Vec<WalkEntry>) -> (level:
    WalkLevel)
    ensures
        level.local == level_stats(own_modified, entries@),
        keys(level.descend@) == walk_paths(dir@, entries@),
{
    let mut local = DirStats { size_bytes: 0, newest_mtime: None };
    local.merge_mtime(own_modified);
    let mut descend: Vec<FsPath> = Vec::new();
    let ghost start = local;
    let ghost parts = entries@.map_values(|e: WalkEntry| contribution(e));
    let mut i: usize = 0;
    proof {
        assert(entries@.subrange(0, 0) =~= Seq::empty());
        assert(keys(descend@) =~= Seq::empty());
    }
    while i < entries.len()
        invariant
            i <= entries@.len(),
            parts == entries@.map_values(|e: WalkEntry| contribution(e)),
            start == (DirStats { size_bytes: 0, newest_mtime: own_modified }),
            local == merged(start, aggregate(parts.subrange(0, i as int))),
            keys(descend@) == walk_paths(dir@, entries@.subrange(0, i as int)),
        decreases entries@.len() - i,
    {
        let entry = &entries[i];
        proof {
            assert(parts.subrange(0, i + 1).drop_last() =~= parts.subrange(0, i as int));
            assert(parts.subrange(0, i + 1).last() == contribution(*entry));
            assert(entries@.subrange(0, i + 1).drop_last() =~= entries@.subrange(0, i as int));
            assert(entries@.subrange(0, i + 1).last() == entries@[i as int]);
            lemma_merge_associative(
                start,
                aggregate(parts.subrange(0, i as int)),
                contribution(*entry),
            );
        }
        match classify_walk_entry(entry) {
            WalkVisit::Count => {
                local.size_bytes = local.size_bytes.saturating_add(entry.meta.len);
                local.merge_mtime(entry.meta.modified);
            },
            WalkVisit::Descend => {
                let path = dir.join(&entry.name);
                let ghost before = descend@;
                descend.push(path);
                proof {
                    assert(keys(descend@) =~= keys(before).push(joined(dir@, entry.name@)));
                    lemma_merge_empty(local);
                }
            },
            WalkVisit::Skip => {
                proof {
                    lemma_merge_empty(local);
                }
            },
        }
        i += 1;
    }
    proof {
        assert(parts.subrange(0, entries@.len() as int) =~= parts);
        assert(entries@.subrange(0, entries@.len() as int) =~= entries@);
    }
    WalkLevel { local, descend }
}

/// How the statistics of a path come about, given what the path itself is.
#[derive(Clone, Copy, Debug)]
pub enum RootStats {
    /// The statistics are known without looking further.
    Known(DirStats),
    /// The path is a directory: its levels are to be walked and merged into
    /// the statistics given here.
    Walk(DirStats),
}

/// The statistics of a path that is not a directory, or the statistics that
/// the walk of a directory starts from.
pub open spec fn root_stats(root: EntryMeta) -> RootStats {
    match root.kind {
        EntryKind::Symlink => RootStats::Known(empty_stats()),
        EntryKind::File => RootStats::Known(
            DirStats { size_bytes: root.len, newest_mtime: root.modified },
        ),
        EntryKind::Other => RootStats::Known(empty_stats()),
        EntryKind::Directory => RootStats::Walk(
            DirStats { size_bytes: 0, newest_mtime: root.modified },
        ),
    }
}

/// Decides from what a path is how its statistics come about: a symbolic
/// link counts nothing, a file its own length and modification time, and a
/// directory is walked.
pub fn dir_stats(root: &EntryMeta) -> (r: RootStats)
    ensures
        r == root_stats(*root),
{
    match root.kind {
        EntryKind::Symlink => RootStats::Known(DirStats::default()),
        EntryKind::File => RootStats::Known(
            DirStats { size_bytes: root.len, newest_mtime: root.modified },
        ),
        EntryKind::Other => RootStats::Known(DirStats::default()),
        EntryKind::Directory => RootStats::Walk(
            DirStats { size_bytes: 0, newest_mtime: root.modified },
        ),
    }
}

/// One entry of a directory, as the search for artifacts sees it.
#[derive(Debug, PartialEq, Eq)]
pub struct NamedEntry {
    pub name: Vec<u8>,
    pub is_dir: bool,
}

/// What the search does with an entry.
#[derive(Clone, Copy, Debug, PartialEq, Eq, Structural)]
pub enum Visit {
    /// Pass it by.
    Skip,
    /// Note it as a candidate, and do not look into it.
    Record,
    /// Search it in turn.
    Descend,
}

/// The names, each as its bytes.
pub open spec fn name_views(names: Seq<Vec<u8>>) -> Seq<Seq<u8>> {
    names.map_values(|n: Vec<u8>| n@)
}

/// What the search does with an entry: only directories count, and only
/// under a name that an entry can have; the metadata directory of version
/// control is passed by; a directory with the name of an artifact is noted
/// and not searched; any other directory is searched.
pub open spec fn visit_of(is_dir: bool, name: Seq<u8>, artifact_names: Seq<Seq<u8>>) -> Visit {
    if !is_dir || !is_component(name) || name == metadata_dir_name() {
        Visit::Skip
    } else if artifact_names.contains(name) {
        Visit::Record
    } else {
        Visit::Descend
    }
}

/// Whether `name` is among `names`.
pub fn contains_name(names: &Vec<Vec<u8>>, name: &Vec<u8>) -> (r: bool)
    ensures
        r == name_views(names@).contains(name@),
{
    let mut i: usize = 0;
    while i < names.len()
        invariant
            i <= names@.len(),
            forall|j: int| 0 <= j < i ==> name_views(names@)[j] != name@,
        decreases names@.len() - i,
    {
        if bytes_equal(&names[i], name) {
            proof {
                assert(name_views(names@)[i as int] == name@);
            }
            return true;
        }
        i += 1;
    }
    false
}

/// Decides what the search does with an entry.
pub fn classify_entry(entry: &NamedEntry, artifact_dir_names: &Vec<Vec<u8>>) -> (visit: Visit)
    ensures
        visit == visit_of(entry.is_dir, entry.name@, name_views(artifact_dir_names@)),
{
    if !entry.is_dir || !is_component_name(&entry.name) {
        return Visit::Skip;
    }
    let blocked = metadata_dir();
    if bytes_equal(&entry.name, &blocked) {
        return Visit::Skip;
    }
    if contains_name(artifact_dir_names, &entry.name) {
        Visit::Record
    } else {
        Visit::Descend
    }
}

/// The paths of those entries of the directory `dir` with which the search
/// does `want`, in the order of the entries.
pub open spec fn level_paths(
    dir: Seq<u8>,
    entries: Seq<NamedEntry>,
    artifact_names: Seq<Seq<u8>>,
    want: Visit,
) -> Seq<Seq<u8>>
    decreases entries.len(),
{
    if entries.len() == 0 {
        Seq::empty()
    } else {
        let rest = level_paths(dir, entries.drop_last(), artifact_names, want);
        let entry = entries.last();
        if visit_of(entry.is_dir, entry.name@, artifact_names) == want {
            rest.push(joined(dir, entry.name@))
        } else {
            rest
        }
    }
}

/// What the search finds at one directory: the candidates, and the
/// directories to search in turn.
#[derive(Debug)]
pub struct ScanLevel {
    pub found: Vec<FsPath>,
    pub descend: Vec<FsPath>,
}

/// Searches one directory, given its entries: notes the directories with the
/// name of an artifact as candidates, and lists the others for the search to
/// go on in. No candidate is the metadata directory of version control.
pub fn scan_dir(dir: &FsPath, entries: &Vec<NamedEntry>, artifact_dir_names: &Vec<Vec<u8>>) -> (level:
    ScanLevel)
    ensures
        keys(level.found@) == level_paths(
            dir@,
            entries@,
            name_views(artifact_dir_names@),
            Visit::Record,
        ),
        keys(level.descend@) == level_paths(
            dir@,
            entries@,
            name_views(artifact_dir_names@),
            Visit::Descend,
        ),
        forall|k: int| 0 <= k < level.found@.len() ==> !is_blocked(#[trigger] level.found@[k]@),
{
    let ghost names = name_views(artifact_dir_names@);
    let mut found: Vec<FsPath> = Vec::new();
    let mut descend: Vec<FsPath> = Vec::new();
    let mut i: usize = 0;
    proof {
        assert(entries@.subrange(0, 0) =~= Seq::empty());
        assert(keys(found@) =~= Seq::empty());
        assert(keys(descend@) =~= Seq::empty());
    }
    while i < entries.len()
        invariant
            i <= entries@.len(),
            names == name_views(artifact_dir_names@),
            keys(found@) == level_paths(dir@, entries@.subrange(0, i as int), names, Visit::Record),
            keys(descend@) == level_paths(
                dir@,
                entries@.subrange(0, i as int),
                names,
                Visit::Descend,
            ),
            forall|k: int| 0 <= k < found@.len() ==> !is_blocked(#[trigger] found@[k]@),
        decreases entries@.len() - i,
    {
        let entry = &entries[i];
        proof {
            assert(entries@.subrange(0, i + 1).drop_last() =~= entries@.subrange(0, i as int));
            assert(entries@.subrange(0, i + 1).last() == entries@[i as int]);
        }
        match classify_entry(entry, artifact_dir_names) {
            Visit::Skip => {},
            Visit::Record => {
                let path = dir.join(&entry.name);
                let ghost before = found@;
                proof {
                    lemma_joined_final_component(dir@, entry.name@);
                }
                found.push(path);
                proof {
                    assert(keys(found@) =~= keys(before).push(joined(dir@, entry.name@)));
                    assert forall|k: int| 0 <= k < found@.len() implies !is_blocked(
                        #[trigger] found@[k]@,
                    ) by {
                        if k < before.len() {
                            assert(found@[k] == before[k]);
                        }
                    }
                }
            },
            Visit::Descend => {
                let path = dir.join(&entry.name);
                let ghost before = descend@;
                descend.push(path);
                proof {
                    assert(keys(descend@) =~= keys(before).push(joined(dir@, entry.name@)));
                }
            },
        }
        i += 1;
    }
    proof {
        assert(entries@.subrange(0, entries@.len() as int) =~= entries@);
    }
    ScanLevel { found, descend }
}

/// Puts what the search has found in order: each path once, in the order of
/// the paths.
pub fn scan_artifact_dirs(found: &Vec<FsPath>) -> (candidates: Vec<FsPath>)
    ensures
        ascending(keys(candidates@)),
        forall|p: Seq<u8>| keys(candidates@).contains(p) <==> keys(found@).contains(p),
{
    let mut candidates: Vec<FsPath> = Vec::new();
    let mut i: usize = 0;
    while i < found.len()
        invariant
            i <= found@.len(),
            ascending(keys(candidates@)),
            forall|p: Seq<u8>|
                keys(candidates@).contains(p) <==> keys(found@.subrange(0, i as int)).contains(p),
        decreases found@.len() - i,
    {
        let path = found[i].clone();
        let ghost before = candidates@;
        proof {
            lemma_with_item(before, path);
        }
        insert_distinct(&mut candidates, path);
        proof {
            let upto = keys(found@.subrange(0, i as int));
            let next = keys(found@.subrange(0, i + 1));
            assert(next =~= upto.push(found@[i as int]@));
            assert forall|p: Seq<u8>| keys(candidates@).contains(p) <==> next.contains(p) by {
                assert(keys(candidates@).contains(p) <==> (keys(before).contains(p) || p
                    == path@));
                assert(keys(before).contains(p) <==> upto.contains(p));
                if upto.contains(p) {
                    let m = choose|m: int| 0 <= m < upto.len() && upto[m] == p;
                    assert(next[m] == p);
                }
                if next.contains(p) {
                    let m = choose|m: int| 0 <= m < next.len() && next[m] == p;
                    if m < upto.len() {
                        assert(upto[m] == p);
                    }
                }
                assert(next[upto.len() as int] == path@);
            }
        }
        i += 1;
    }
    proof {
        assert(found@.subrange(0, found@.len() as int) =~= found@);
    }
    candidates
}

/// A directory with all that lies in it, as the walk for statistics reads
/// it: the directory's own modification time, its entries, and, for each
/// entry that the walk goes on in, the directory behind it, in the order of
/// those entries.
#[derive(Debug)]
pub struct DirTree {
    pub path: FsPath,
    pub own_modified: Option<Timestamp>,
    pub entries: Vec<WalkEntry>,
    pub subdirs: Vec<DirTree>,
}

/// The statistics of a whole directory tree: those of its own level merged
/// with those of the trees below it.
pub open spec fn subtree_stats(tree: DirTree) -> DirStats
    decreases tree, 0nat,
{
    merged(
        level_stats(tree.own_modified, tree.entries@),
        forest_stats(tree.subdirs@, tree.subdirs@.len()),
    )
}

/// The statistics of the first `n` of the trees, merged.
pub open spec fn forest_stats(trees: Seq<DirTree>, n: nat) -> DirStats
    decreases trees, n,
{
    if n == 0 || n > trees.len() {
        empty_stats()
    } else {
        merged(forest_stats(trees, (n - 1) as nat), subtree_stats(trees[n - 1]))
    }
}

/// The statistics of every level of the tree, the tree's own level first
/// and then those of the trees below it.
pub open spec fn tree_levels(tree: DirTree) -> Seq<DirStats>
    decreases tree, 0nat,
{
    seq![level_stats(tree.own_modified, tree.entries@)] + forest_levels(
        tree.subdirs@,
        tree.subdirs@.len(),
    )
}

/// The statistics of every level of the first `n` of the trees.
pub open spec fn forest_levels(trees: Seq<DirTree>, n: nat) -> Seq<DirStats>
    decreases trees, n,
{
    if n == 0 || n > trees.len() {
        Seq::empty()
    } else {
        forest_levels(trees, (n - 1) as nat) + tree_levels(trees[n - 1])
    }
}

/// The statistics of a tree are the aggregate of the statistics of its
/// levels.
pub proof fn lemma_tree_is_its_levels(tree: DirTree)
    ensures
        subtree_stats(tree) == aggregate(tree_levels(tree)),
    decreases tree, 0nat,
{
    let own = level_stats(tree.own_modified, tree.entries@);
    lemma_forest_is_its_levels(tree.subdirs@, tree.subdirs@.len());
    lemma_aggregate_split(seq![own], forest_levels(tree.subdirs@, tree.subdirs@.len()));
    assert(seq![own].drop_last() =~= Seq::<DirStats>::empty());
    assert(seq![own].last() == own);
    assert(aggregate(Seq::<DirStats>::empty()) == empty_stats());
    lemma_merge_empty(own);
    assert(aggregate(seq![own]) == own);
}

/// The statistics of trees are the aggregate of the statistics of their
/// levels.
pub proof fn lemma_forest_is_its_levels(trees: Seq<DirTree>, n: nat)
    ensures
        forest_stats(trees, n) == aggregate(forest_levels(trees, n)),
    decreases trees, n,
{
    if !(n == 0 || n > trees.len()) {
        lemma_forest_is_its_levels(trees, (n - 1) as nat);
        lemma_tree_is_its_levels(trees[n - 1]);
        lemma_aggregate_split(forest_levels(trees, (n - 1) as nat), tree_levels(trees[n - 1]));
    }
}

/// In whatever order the levels of a tree are aggregated, and into whatever
/// groups they are split first, the result is the statistics of the tree.
pub proof fn lemma_tree_any_order(tree: DirTree, groups: Seq<Seq<DirStats>>)
    requires
        flattened(groups).to_multiset() == tree_levels(tree).to_multiset(),
    ensures
        aggregate(group_totals(groups)) == subtree_stats(tree),
{
    lemma_aggregate_groups(groups);
    lemma_aggregate_any_order(flattened(groups), tree_levels(tree));
    lemma_tree_is_its_levels(tree);
}

/// The statistics of a whole directory tree that has been read.
pub fn tree_stats(tree: &DirTree) -> (total: DirStats)
    ensures
        total == subtree_stats(*tree),
    decreases tree,
{
    let level = walk_dir_stats(&tree.path, tree.own_modified, &tree.entries);
    let mut below = DirStats::default();
    let mut i: usize = 0;
    while i < tree.subdirs.len()
        invariant
            i <= tree.subdirs@.len(),
            below == forest_stats(tree.subdirs@, i as nat),
        decreases tree.subdirs@.len() - i,
    {
        let sub = tree_stats(&tree.subdirs[i]);
        below.merge(sub);
        i += 1;
    }
    let mut total = level.local;
    total.merge(below);
    total
}

/// The statistics of a path of which everything has been read: of the path
/// itself where it is no directory, and else of the whole tree below it,
/// counted from the directory's own modification time.
pub open spec fn path_stats(root: EntryMeta, tree: DirTree) -> DirStats {
    match root_stats(root) {
        RootStats::Known(stats) => stats,
        RootStats::Walk(start) => merged(start, subtree_stats(tree)),
    }
}

/// The statistics of a path, given what the path itself is and, for a
/// directory, the tree that was read below it.
pub fn dir_tree_stats(root: &EntryMeta, tree: &DirTree) -> (stats: DirStats)
    ensures
        stats == path_stats(*root, *tree),
{
    match dir_stats(root) {
        RootStats::Known(stats) => stats,
        RootStats::Walk(start) => {
            let mut stats = start;
            stats.merge(tree_stats(tree));
            stats
        },
    }
}

} // verus!
