//! Commits that became known before the repository they belong to.

use vstd::prelude::*;
use crate::git::GitHead;
use crate::keyed::{first_index_of, keys, lemma_first_index_of, position_of, PathKeyed};
use crate::path::FsPath;

verus! {

/// The newest commit of the repository at `repo_root`; `None` where the
/// repository has no commit.
#[derive(Debug)]
pub struct PendingHead {
    pub repo_root: FsPath,
    pub head: Option<GitHead>,
}

impl PathKeyed for PendingHead {
    open spec fn key(&self) -> Seq<u8> {
        self.repo_root@
    }

    fn key_path(&self) -> (p: &FsPath) {
        &self.repo_root
    }
}

/// A map from the roots of repositories to their newest commits. Where the
/// list holds a root more than once, its first entry counts.
#[derive(Debug)]
pub struct PendingHeads {
    entries: Vec<PendingHead>,
}

impl View for PendingHeads {
    type V = Map<Seq<u8>, Option<GitHead>>;

    closed spec fn view(&self) -> Map<Seq<u8>, Option<GitHead>> {
        Map::new(
            |root: Seq<u8>| keys(self.entries@).contains(root),
            |root: Seq<u8>| self.entries@[first_index_of(keys(self.entries@), root)].head,
        )
    }
}

/// Taking out an entry leaves the other roots as they were: each is still
/// there, with the commit that its first entry gives.
proof fn lemma_without(entries: Seq<PendingHead>, i: int, k: Seq<u8>)
    requires
        0 <= i < entries.len(),
        entries[i].key() != k,
    ensures
        keys(entries.remove(i)).contains(k) == keys(entries).contains(k),
        keys(entries).contains(k) ==> entries.remove(i)[first_index_of(
            keys(entries.remove(i)),
            k,
        )].head == entries[first_index_of(keys(entries), k)].head,
{
    let before = entries;
    let after = entries.remove(i);
    assert(keys(after) =~= keys(before).remove(i));
    if keys(after).contains(k) {
        let m = choose|m: int| 0 <= m < after.len() && keys(after)[m] == k;
        let m0 = if m < i {
            m
        } else {
            m + 1
        };
        assert(keys(before)[m0] == k);
    }
    if keys(before).contains(k) {
        let m = choose|m: int| 0 <= m < before.len() && keys(before)[m] == k;
        let m0 = if m < i {
            m
        } else {
            m - 1
        };
        assert(keys(after)[m0] == k);
        lemma_first_index_of(keys(before), k);
        lemma_first_index_of(keys(after), k);
        let a = first_index_of(keys(after), k);
        let b = first_index_of(keys(before), k);
        let a0 = if a < i {
            a
        } else {
            a + 1
        };
        let b0 = if b < i {
            b
        } else {
            b - 1
        };
        assert(keys(before)[a0] == k);
        assert(keys(after)[b0] == k);
        assert(a0 == b);
    }
}

impl PendingHeads {
    /// The empty map.
    pub fn new() -> (r: Self)
        ensures
            r@ == Map::<Seq<u8>, Option<GitHead>>::empty(),
    {
        let r = PendingHeads { entries: Vec::new() };
        proof {
            assert(r@ =~= Map::<Seq<u8>, Option<GitHead>>::empty());
        }
        r
    }

    /// Sets the commit of the repository at `root`, in place of the one that
    /// the map may hold for it.
    pub fn insert(&mut self, root: FsPath, head: Option<GitHead>)
        ensures
            final(self)@ == old(self)@.insert(root@, head),
    {
        let ghost before = self.entries@;
        match position_of(&self.entries, &root) {
            Some(i) => {
                self.entries[i].head = head;
                proof {
                    let after = self.entries@;
                    assert(keys(after) =~= keys(before));
                    lemma_first_index_of(keys(before), root@);
                    assert forall|k: Seq<u8>| self@.dom().contains(k) implies #[trigger] self@[k]
                        == old(self)@.insert(root@, head)[k] by {
                        lemma_first_index_of(keys(before), k);
                    }
                    assert(self@ =~= old(self)@.insert(root@, head));
                }
            },
            None => {
                let entry = PendingHead { repo_root: root, head };
                self.entries.push(entry);
                proof {
                    let after = self.entries@;
                    lemma_first_index_of(keys(before), root@);
                    assert(keys(after) =~= keys(before).push(root@));
                    assert forall|k: Seq<u8>| #[trigger]
                        self@.dom().contains(k) == old(self)@.insert(root@, head).dom().contains(
                            k,
                        ) by {
                        if keys(before).contains(k) {
                            let m = choose|m: int| 0 <= m < before.len() && keys(before)[m] == k;
                            assert(keys(after)[m] == k);
                        }
                        if keys(after).contains(k) {
                            let m = choose|m: int| 0 <= m < after.len() && keys(after)[m] == k;
                            if m < before.len() {
                                assert(keys(before)[m] == k);
                            }
                        }
                        assert(keys(after)[before.len() as int] == root@);
                    }
                    assert forall|k: Seq<u8>| self@.dom().contains(k) implies #[trigger] self@[k]
                        == old(self)@.insert(root@, head)[k] by {
                        lemma_first_index_of(keys(before), k);
                        lemma_first_index_of(keys(after), k);
                        let m = first_index_of(keys(after), k);
                        if k != root@ {
                            assert(keys(before)[m] == k);
                            assert(forall|j: int| 0 <= j < m ==> keys(before)[j] == keys(after)[j]);
                        } else {
                            assert(forall|j: int|
                                0 <= j < before.len() ==> keys(before)[j] == keys(after)[j]);
                        }
                    }
                    assert(self@ =~= old(self)@.insert(root@, head));
                }
            },
        }
    }

    /// Takes the commit of the repository at `root` out of the map.
    pub fn remove(&mut self, root: &FsPath) -> (r: Option<Option<GitHead>>)
        ensures
            r == if old(self)@.dom().contains(root@) {
                Some(old(self)@[root@])
            } else {
                None
            },
            final(self)@ == old(self)@.remove(root@),
    {
        let ghost before = self.entries@;
        let mut found: Option<Option<GitHead>> = None;
        loop
            invariant
                found.is_none() ==> self.entries@ == before,
                found is Some ==> keys(before).contains(root@) && found == Some(
                    before[first_index_of(keys(before), root@)].head,
                ),
                forall|k: Seq<u8>|
                    k != root@ ==> keys(self.entries@).contains(k) == keys(before).contains(k),
                forall|k: Seq<u8>|
                    k != root@ && keys(before).contains(k) ==> self.entries@[first_index_of(
                        keys(self.entries@),
                        k,
                    )].head == before[first_index_of(keys(before), k)].head,
            ensures
                !keys(self.entries@).contains(root@),
                found.is_none() ==> !keys(before).contains(root@),
            decreases self.entries@.len(),
        {
            let ghost here = self.entries@;
            match position_of(&self.entries, root) {
                Some(i) => {
                    proof {
                        lemma_first_index_of(keys(here), root@);
                        assert(keys(here)[i as int] == here[i as int].key());
                    }
                    let entry = self.entries.remove(i);
                    proof {
                        assert forall|k: Seq<u8>| k != root@ implies keys(self.entries@).contains(k)
                            == keys(before).contains(k) by {
                            lemma_without(here, i as int, k);
                        }
                        assert forall|k: Seq<u8>|
                            k != root@ && keys(before).contains(k) implies self.entries@[first_index_of(
                            keys(self.entries@),
                            k,
                        )].head == before[first_index_of(keys(before), k)].head by {
                            lemma_without(here, i as int, k);
                        }
                    }
                    if found.is_none() {
                        found = Some(entry.head);
                    }
                },
                None => {
                    break ;
                },
            }
        }
        proof {
            assert(self@ =~= old(self)@.remove(root@));
        }
        found
    }
}

} // verus!
