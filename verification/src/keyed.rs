//! Items that are found by a path, and vectors of such items kept in the
//! order of their paths with no path twice.

use vstd::prelude::*;
use crate::path::{lemma_path_order, path_lt, FsPath};

verus! {

/// An item that is identified by a path.
pub trait PathKeyed {
    /// The path that identifies the item.
    spec fn key(&self) -> Seq<u8>;

    /// The path that identifies the item.
    fn key_path(&self) -> (p: &FsPath)
        ensures
            p@ == self.key(),
    ;
}

impl PathKeyed for FsPath {
    open spec fn key(&self) -> Seq<u8> {
        self@
    }

    fn key_path(&self) -> (p: &FsPath) {
        self
    }
}

/// The paths of the items, in the order of the items.
pub open spec fn keys<T: PathKeyed>(s: Seq<T>) -> Seq<Seq<u8>> {
    s.map_values(|t: T| t.key())
}

/// Each path comes strictly before the next one, so that none occurs twice.
pub open spec fn ascending(paths: Seq<Seq<u8>>) -> bool {
    forall|i: int, j: int| 0 <= i < j < paths.len() ==> path_lt(paths[i], paths[j])
}

/// No path occurs twice.
pub open spec fn distinct(paths: Seq<Seq<u8>>) -> bool {
    forall|i: int, j: int| 0 <= i < j < paths.len() ==> paths[i] != paths[j]
}

/// Index of the first item of `s` with the path `key`, or the length of `s`
/// where there is none.
pub open spec fn first_index_of(paths: Seq<Seq<u8>>, key: Seq<u8>) -> int
    decreases paths.len(),
{
    if paths.len() == 0 {
        0
    } else if paths[0] == key {
        0
    } else {
        1 + first_index_of(paths.drop_first(), key)
    }
}

/// `first_index_of` finds the first occurrence, or reports that there is none.
pub proof fn lemma_first_index_of(paths: Seq<Seq<u8>>, key: Seq<u8>)
    ensures
        0 <= first_index_of(paths, key) <= paths.len(),
        first_index_of(paths, key) < paths.len() ==> paths[first_index_of(paths, key)] == key,
        forall|i: int| 0 <= i < first_index_of(paths, key) ==> paths[i] != key,
        first_index_of(paths, key) == paths.len() <==> !paths.contains(key),
    decreases paths.len(),
{
    if paths.len() > 0 && paths[0] != key {
        let rest = paths.drop_first();
        lemma_first_index_of(rest, key);
        assert forall|i: int| 0 <= i < first_index_of(paths, key) implies paths[i] != key by {
            if i > 0 {
                assert(paths[i] == rest[i - 1]);
            }
        }
        if rest.contains(key) {
            let k = choose|k: int| 0 <= k < rest.len() && rest[k] == key;
            assert(paths[k + 1] == key);
        }
        if paths.contains(key) {
            let k = choose|k: int| 0 <= k < paths.len() && paths[k] == key;
            assert(rest[k - 1] == key);
        }
    } else if paths.len() > 0 {
        assert(paths[0] == key);
    }
}

/// Two ascending sequences that hold the same paths are the same sequence.
pub proof fn lemma_ascending_unique(a: Seq<Seq<u8>>, b: Seq<Seq<u8>>)
    requires
        ascending(a),
        ascending(b),
        forall|p: Seq<u8>| a.contains(p) <==> b.contains(p),
    ensures
        a == b,
    decreases a.len(),
{
    if a.len() == 0 {
        if b.len() > 0 {
            assert(b.contains(b[0]));
        }
        assert(a =~= b);
    } else {
        assert(a.contains(a.last()));
        assert(b.len() > 0);
        assert(b.contains(b.last()));
        let i = choose|i: int| 0 <= i < b.len() && b[i] == a.last();
        let j = choose|j: int| 0 <= j < a.len() && a[j] == b.last();
        lemma_path_order(a.last(), b.last(), a.last());
        assert(a.last() == b.last()) by {
            if i < b.len() - 1 {
                assert(path_lt(b[i], b[b.len() - 1]));
            }
            if j < a.len() - 1 {
                assert(path_lt(a[j], a[a.len() - 1]));
            }
        }
        let fa = a.drop_last();
        let fb = b.drop_last();
        assert forall|p: Seq<u8>| fa.contains(p) <==> fb.contains(p) by {
            lemma_path_order(p, a.last(), p);
            if fa.contains(p) {
                let k = choose|k: int| 0 <= k < fa.len() && fa[k] == p;
                assert(path_lt(a[k], a[a.len() - 1]));
                assert(a.contains(a[k]));
                let m = choose|m: int| 0 <= m < b.len() && b[m] == p;
                assert(fb[m] == p);
            }
            if fb.contains(p) {
                let k = choose|k: int| 0 <= k < fb.len() && fb[k] == p;
                assert(path_lt(b[k], b[b.len() - 1]));
                assert(b.contains(b[k]));
                let m = choose|m: int| 0 <= m < a.len() && a[m] == p;
                assert(fa[m] == p);
            }
        }
        lemma_ascending_unique(fa, fb);
        assert(a =~= fa.push(a.last()));
        assert(b =~= fb.push(b.last()));
    }
}

/// Index of the first item of `v` whose path is `key`.
pub fn position_of<T: PathKeyed>(v: &Vec<T>, key: &FsPath) -> (r: Option<usize>)
    ensures
        match r {
            Some(i) => i < v@.len() && i == first_index_of(keys(v@), key@),
            None => first_index_of(keys(v@), key@) == v@.len(),
        },
        r.is_some() == keys(v@).contains(key@),
{
    let mut i: usize = 0;
    while i < v.len()
        invariant
            i <= v@.len(),
            forall|j: int| 0 <= j < i ==> keys(v@)[j] != key@,
        decreases v@.len() - i,
    {
        if v[i].key_path().same(key) {
            proof {
                lemma_first_index_of(keys(v@), key@);
                assert(keys(v@)[i as int] == key@);
            }
            return Some(i);
        }
        i += 1;
    }
    proof {
        lemma_first_index_of(keys(v@), key@);
    }
    None
}

/// Where `x` stands in the ascending sequence `s`, or would stand: the number
/// of items whose path comes strictly before the path of `x`.
pub open spec fn rank_in(paths: Seq<Seq<u8>>, key: Seq<u8>) -> int
    decreases paths.len(),
{
    if paths.len() == 0 {
        0
    } else if path_lt(paths.last(), key) {
        paths.len() as int
    } else {
        rank_in(paths.drop_last(), key)
    }
}

/// In an ascending sequence, the items before `rank_in` come before `key`
/// and the others do not.
pub proof fn lemma_rank_in(paths: Seq<Seq<u8>>, key: Seq<u8>)
    requires
        ascending(paths),
    ensures
        0 <= rank_in(paths, key) <= paths.len(),
        forall|i: int| 0 <= i < rank_in(paths, key) ==> path_lt(paths[i], key),
        forall|i: int| rank_in(paths, key) <= i < paths.len() ==> !path_lt(paths[i], key),
    decreases paths.len(),
{
    if paths.len() > 0 {
        if path_lt(paths.last(), key) {
            assert forall|i: int| 0 <= i < paths.len() implies path_lt(paths[i], key) by {
                if i < paths.len() - 1 {
                    assert(path_lt(paths[i], paths[paths.len() - 1]));
                    crate::path::lemma_lt_transitive(paths[i], paths.last(), key, 0);
                }
            }
        } else {
            let front = paths.drop_last();
            lemma_rank_in(front, key);
            assert forall|i: int| rank_in(paths, key) <= i < paths.len() implies !path_lt(
                paths[i],
                key,
            ) by {
                if i < front.len() {
                    assert(paths[i] == front[i]);
                }
            }
            assert forall|i: int| 0 <= i < rank_in(paths, key) implies path_lt(paths[i], key) by {
                assert(paths[i] == front[i]);
            }
        }
    }
}

/// `s` with `x` at its place in the order of paths, or `s` itself where an
/// item with the path of `x` is there already.
pub open spec fn with_item<T: PathKeyed>(s: Seq<T>, x: T) -> Seq<T> {
    if keys(s).contains(x.key()) {
        s
    } else {
        s.insert(rank_in(keys(s), x.key()), x)
    }
}

/// Adding an item keeps the sequence ascending, and the paths are those of
/// before and the path of the item.
pub proof fn lemma_with_item<T: PathKeyed>(s: Seq<T>, x: T)
    requires
        ascending(keys(s)),
    ensures
        ascending(keys(with_item(s, x))),
        forall|p: Seq<u8>|
            keys(with_item(s, x)).contains(p) <==> (keys(s).contains(p) || p == x.key()),
{
    let out = with_item(s, x);
    let ks = keys(s);
    let ko = keys(out);
    if ks.contains(x.key()) {
    } else {
        let r = rank_in(ks, x.key());
        lemma_rank_in(ks, x.key());
        assert(ko =~= ks.insert(r, x.key()));
        assert forall|i: int, j: int| 0 <= i < j < ko.len() implies path_lt(ko[i], ko[j]) by {
            if j == r {
                assert(ko[i] == ks[i]);
            } else if i == r {
                assert(ko[j] == ks[j - 1]);
                assert(ks.contains(ks[j - 1]));
                lemma_path_order(ks[j - 1], x.key(), x.key());
            } else {
                let i0 = if i < r {
                    i
                } else {
                    i - 1
                };
                let j0 = if j < r {
                    j
                } else {
                    j - 1
                };
                assert(ko[i] == ks[i0] && ko[j] == ks[j0]);
            }
        }
        assert forall|p: Seq<u8>| ko.contains(p) <==> (ks.contains(p) || p == x.key()) by {
            if ko.contains(p) {
                let k = choose|k: int| 0 <= k < ko.len() && ko[k] == p;
                if k < r {
                    assert(ks[k] == p);
                } else if k > r {
                    assert(ks[k - 1] == p);
                }
            }
            if ks.contains(p) {
                let k = choose|k: int| 0 <= k < ks.len() && ks[k] == p;
                if k < r {
                    assert(ko[k] == p);
                } else {
                    assert(ko[k + 1] == p);
                }
            }
            if p == x.key() {
                assert(ko[r] == p);
            }
        }
    }
}

/// Puts `x` into `v` at its place in the order of paths, unless an item with
/// its path is there already. Says whether `x` was put in.
pub fn insert_distinct<T: PathKeyed>(v: &mut Vec<T>, x: T) -> (added: bool)
    requires
        ascending(keys(old(v)@)),
    ensures
        final(v)@ == with_item(old(v)@, x),
        added == !keys(old(v)@).contains(x.key()),
        ascending(keys(final(v)@)),
{
    proof {
        lemma_with_item(v@, x);
        lemma_rank_in(keys(v@), x.key());
    }
    let mut j = v.len();
    while j > 0 && !v[j - 1].key_path().precedes(x.key_path())
        invariant
            j <= v@.len(),
            v@ == old(v)@,
            forall|k: int| j <= k < v@.len() ==> !path_lt(keys(v@)[k], x.key()),
        decreases j,
    {
        j -= 1;
    }
    proof {
        let ks = keys(v@);
        let r = rank_in(ks, x.key());
        if j > 0 {
            assert(path_lt(ks[j - 1], x.key()));
        }
        if r < j {
            assert(path_lt(ks[j - 1], x.key()));
        }
        if j < r {
            assert(path_lt(ks[j as int], x.key()));
        }
        assert(r == j);
    }
    if j < v.len() && v[j].key_path().same(x.key_path()) {
        proof {
            assert(keys(v@)[j as int] == x.key());
        }
        return false;
    }
    proof {
        let ks = keys(v@);
        assert forall|k: int| 0 <= k < ks.len() implies ks[k] != x.key() by {
            lemma_path_order(ks[k], x.key(), x.key());
            if k > j {
                assert(path_lt(ks[j as int], ks[k]));
                lemma_path_order(x.key(), ks[j as int], ks[k]);
                lemma_path_order(ks[j as int], x.key(), x.key());
            }
        }
    }
    v.insert(j, x);
    true
}

} // verus!
