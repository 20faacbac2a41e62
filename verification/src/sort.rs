//! Stable sorting of a vector by a ranking of its items.
//!
//! A ranking is a total preorder. Sorting keeps items that the ranking does
//! not tell apart in the order in which they came.

use vstd::prelude::*;

verus! {

/// A total preorder on the values of `T`.
pub trait Ranking<T> {
    /// `a` may stand before `b`.
    spec fn le(&self, a: T, b: T) -> bool;

    /// Any two values can be put in order.
    proof fn lemma_total(&self, a: T, b: T)
        ensures
            self.le(a, b) || self.le(b, a),
    ;

    /// The order carries over a value in between.
    proof fn lemma_transitive(&self, a: T, b: T, c: T)
        requires
            self.le(a, b),
            self.le(b, c),
        ensures
            self.le(a, c),
    ;

    /// Whether `a` may stand before `b`.
    fn in_order(&self, a: &T, b: &T) -> (r: bool)
        ensures
            r == self.le(*a, *b),
    ;
}

/// Every item of `s` may stand before every later one.
pub open spec fn is_sorted<T, R: Ranking<T>>(ranking: R, s: Seq<T>) -> bool {
    forall|i: int, j: int| 0 <= i < j < s.len() ==> ranking.le(s[i], s[j])
}

/// `s` with `x` put behind the last item that may stand before `x`.
pub open spec fn insert_sorted<T, R: Ranking<T>>(ranking: R, s: Seq<T>, x: T) -> Seq<T>
    decreases s.len(),
{
    if s.len() == 0 {
        seq![x]
    } else if ranking.le(s.last(), x) {
        s.push(x)
    } else {
        insert_sorted(ranking, s.drop_last(), x).push(s.last())
    }
}

/// The items of `s` in the order of `ranking`, ties in the order of `s`.
pub open spec fn sorted_by<T, R: Ranking<T>>(ranking: R, s: Seq<T>) -> Seq<T>
    decreases s.len(),
{
    if s.len() == 0 {
        s
    } else {
        insert_sorted(ranking, sorted_by(ranking, s.drop_last()), s.last())
    }
}

/// Inserting adds one item and keeps the others.
pub proof fn lemma_insert_sorted_items<T, R: Ranking<T>>(ranking: R, s: Seq<T>, x: T)
    ensures
        insert_sorted(ranking, s, x).len() == s.len() + 1,
        insert_sorted(ranking, s, x).to_multiset() == s.to_multiset().insert(x),
    decreases s.len(),
{
    broadcast use vstd::seq_lib::group_to_multiset_ensures;

    if s.len() == 0 {
        assert(seq![x] =~= s.push(x));
    } else if !ranking.le(s.last(), x) {
        let front = s.drop_last();
        lemma_insert_sorted_items(ranking, front, x);
        assert(s =~= front.push(s.last()));
        assert(front.to_multiset().insert(x).insert(s.last()) =~= front.to_multiset().insert(
            s.last(),
        ).insert(x));
    }
}

/// Inserting into a sorted sequence gives a sorted sequence.
pub proof fn lemma_insert_sorted_is_sorted<T, R: Ranking<T>>(ranking: R, s: Seq<T>, x: T)
    requires
        is_sorted(ranking, s),
    ensures
        is_sorted(ranking, insert_sorted(ranking, s, x)),
        forall|i: int|
            0 <= i < insert_sorted(ranking, s, x).len() ==> insert_sorted(ranking, s, x)[i] == x
                || s.contains(#[trigger] insert_sorted(ranking, s, x)[i]),
    decreases s.len(),
{
    let out = insert_sorted(ranking, s, x);
    if s.len() == 0 {
    } else if ranking.le(s.last(), x) {
        assert forall|i: int, j: int| 0 <= i < j < out.len() implies ranking.le(
            out[i],
            out[j],
        ) by {
            if j == s.len() && i < s.len() - 1 {
                ranking.lemma_transitive(s[i], s.last(), x);
            }
        }
        assert forall|i: int| 0 <= i < out.len() implies out[i] == x || s.contains(
            #[trigger] out[i],
        ) by {
            if i < s.len() {
                assert(s[i] == out[i]);
            }
        }
    } else {
        let front = s.drop_last();
        let inner = insert_sorted(ranking, front, x);
        lemma_insert_sorted_is_sorted(ranking, front, x);
        lemma_insert_sorted_items(ranking, front, x);
        ranking.lemma_total(s.last(), x);
        assert forall|i: int, j: int| 0 <= i < j < out.len() implies ranking.le(
            out[i],
            out[j],
        ) by {
            if j == out.len() - 1 {
                if inner[i] != x {
                    assert(front.contains(inner[i]));
                    let k = choose|k: int| 0 <= k < front.len() && front[k] == inner[i];
                    assert(ranking.le(s[k], s[s.len() - 1]));
                }
            }
        }
        assert forall|i: int| 0 <= i < out.len() implies out[i] == x || s.contains(
            #[trigger] out[i],
        ) by {
            if i < inner.len() {
                if inner[i] != x {
                    assert(front.contains(inner[i]));
                    let k = choose|k: int| 0 <= k < front.len() && front[k] == inner[i];
                    assert(s[k] == inner[i]);
                }
            } else {
                assert(s[s.len() - 1] == out[i]);
            }
        }
    }
}

/// Sorting gives a sorted sequence with the same items, each as often as
/// before.
pub proof fn lemma_sorted_by<T, R: Ranking<T>>(ranking: R, s: Seq<T>)
    ensures
        is_sorted(ranking, sorted_by(ranking, s)),
        sorted_by(ranking, s).len() == s.len(),
        sorted_by(ranking, s).to_multiset() == s.to_multiset(),
    decreases s.len(),
{
    broadcast use vstd::seq_lib::group_to_multiset_ensures;

    if s.len() > 0 {
        let front = s.drop_last();
        lemma_sorted_by(ranking, front);
        lemma_insert_sorted_is_sorted(ranking, sorted_by(ranking, front), s.last());
        lemma_insert_sorted_items(ranking, sorted_by(ranking, front), s.last());
        assert(s =~= front.push(s.last()));
    }
}

/// Sorting keeps the items: what is in the result was in the input, and the
/// other way round.
pub proof fn lemma_sorted_by_contains<T, R: Ranking<T>>(ranking: R, s: Seq<T>, x: T)
    ensures
        sorted_by(ranking, s).contains(x) == s.contains(x),
{
    broadcast use vstd::seq_lib::group_to_multiset_ensures;

    lemma_sorted_by(ranking, s);
    assert(sorted_by(ranking, s).to_multiset().count(x) == s.to_multiset().count(x));
}

/// Inserting puts the item at some index and leaves the others in their
/// order.
pub proof fn lemma_insert_sorted_is_insert<T, R: Ranking<T>>(ranking: R, s: Seq<T>, x: T) -> (j:
    int)
    ensures
        0 <= j <= s.len(),
        insert_sorted(ranking, s, x) == s.insert(j, x),
    decreases s.len(),
{
    if s.len() == 0 {
        assert(s.insert(0, x) =~= seq![x]);
        0
    } else if ranking.le(s.last(), x) {
        assert(s.insert(s.len() as int, x) =~= s.push(x));
        s.len() as int
    } else {
        let front = s.drop_last();
        let j = lemma_insert_sorted_is_insert(ranking, front, x);
        assert(s.insert(j, x) =~= front.insert(j, x).push(s.last()));
        j
    }
}

/// Sorting a sequence in which no item occurs twice gives one in which none
/// occurs twice.
pub proof fn lemma_sorted_by_no_duplicates<T, R: Ranking<T>>(ranking: R, s: Seq<T>)
    requires
        s.no_duplicates(),
    ensures
        sorted_by(ranking, s).no_duplicates(),
{
    lemma_sorted_by(ranking, s);
    s.lemma_multiset_has_no_duplicates();
    sorted_by(ranking, s).lemma_multiset_has_no_duplicates_conv();
}

/// Sorting a sorted sequence changes nothing.
pub proof fn lemma_sorted_by_fixes_sorted<T, R: Ranking<T>>(ranking: R, s: Seq<T>)
    requires
        is_sorted(ranking, s),
    ensures
        sorted_by(ranking, s) == s,
    decreases s.len(),
{
    if s.len() > 0 {
        let front = s.drop_last();
        lemma_sorted_by_fixes_sorted(ranking, front);
        if front.len() > 0 {
            assert(ranking.le(s[front.len() - 1], s[s.len() - 1]));
        }
        assert(s =~= front.push(s.last()));
    }
}

/// Putting `x` at an index in front of which stands an item that may precede
/// it, and behind which stand only items that may not, is `insert_sorted`.
pub proof fn lemma_insert_at<T, R: Ranking<T>>(ranking: R, s: Seq<T>, x: T, j: int)
    requires
        0 <= j <= s.len(),
        j > 0 ==> ranking.le(s[j - 1], x),
        forall|k: int| j <= k < s.len() ==> !ranking.le(s[k], x),
    ensures
        s.insert(j, x) == insert_sorted(ranking, s, x),
    decreases s.len(),
{
    if s.len() == 0 {
        assert(s.insert(j, x) =~= seq![x]);
    } else if ranking.le(s.last(), x) {
        assert(j == s.len());
        assert(s.insert(j, x) =~= s.push(x));
    } else {
        let front = s.drop_last();
        lemma_insert_at(ranking, front, x, j);
        assert(s.insert(j, x) =~= front.insert(j, x).push(s.last()));
    }
}

/// Puts `x` into the sorted vector `v`, behind the last item that may stand
/// before it.
pub fn insert_in_order<T, R: Ranking<T>>(v: &mut Vec<T>, x: T, ranking: &R)
    ensures
        final(v)@ == insert_sorted(*ranking, old(v)@, x),
{
    let mut j = v.len();
    while j > 0 && !ranking.in_order(&v[j - 1], &x)
        invariant
            j <= v@.len(),
            v@ == old(v)@,
            forall|k: int| j <= k < v@.len() ==> !ranking.le(v@[k], x),
        decreases j,
    {
        j -= 1;
    }
    proof {
        lemma_insert_at(*ranking, v@, x, j as int);
    }
    v.insert(j, x);
}

/// Sorts `v` by `ranking`, keeping the order of items that it does not tell
/// apart.
pub fn stable_sort<T, R: Ranking<T>>(v: &mut Vec<T>, ranking: &R)
    ensures
        final(v)@ == sorted_by(*ranking, old(v)@),
{
    let n = v.len();
    let mut i: usize = 0;
    while i < n
        invariant
            n == v@.len(),
            n == old(v)@.len(),
            i <= n,
            v@.subrange(0, i as int) == sorted_by(*ranking, old(v)@.subrange(0, i as int)),
            v@.subrange(i as int, n as int) == old(v)@.subrange(i as int, n as int),
        decreases n - i,
    {
        let ghost before = v@;
        let ghost prefix = v@.subrange(0, i as int);
        assert(before[i as int] == before.subrange(i as int, n as int)[0]);
        let x = v.remove(i);
        let mut j: usize = i;
        while j > 0 && !ranking.in_order(&v[j - 1], &x)
            invariant
                j <= i,
                i < n,
                v@ == before.remove(i as int),
                before.len() == n,
                forall|k: int| j <= k < i ==> !ranking.le(v@[k], x),
            decreases j,
        {
            j -= 1;
        }
        proof {
            assert(v@.subrange(0, i as int) =~= prefix);
            assert forall|k: int| j <= k < prefix.len() implies !ranking.le(prefix[k], x) by {
                assert(prefix[k] == v@[k]);
            }
            if j > 0 {
                assert(prefix[j - 1] == v@[j - 1]);
            }
            lemma_insert_at(*ranking, prefix, x, j as int);
            let upto = old(v)@.subrange(0, i + 1);
            assert(upto.drop_last() =~= old(v)@.subrange(0, i as int));
            assert(upto.last() == old(v)@.subrange(i as int, n as int)[0]);
        }
        v.insert(j, x);
        proof {
            assert(v@.subrange(0, i + 1) =~= prefix.insert(j as int, x));
            assert(v@.subrange(i + 1, n as int) =~= before.subrange(i + 1, n as int));
            assert(before.subrange(i + 1, n as int) =~= before.subrange(i as int, n as int).subrange(
                1,
                n - i,
            ));
            assert(old(v)@.subrange(i + 1, n as int) =~= old(v)@.subrange(
                i as int,
                n as int,
            ).subrange(1, n - i));
        }
        i += 1;
    }
    proof {
        assert(v@ =~= v@.subrange(0, n as int));
        assert(old(v)@ =~= old(v)@.subrange(0, n as int));
    }
}

/// The vector with its items in reverse order.
pub fn reversed<T>(v: Vec<T>) -> (r: Vec<T>)
    ensures
        r@ == v@.reverse(),
{
    let mut v = v;
    let ghost all = v@;
    let mut r: Vec<T> = Vec::new();
    while v.len() > 0
        invariant
            v@.len() <= all.len(),
            v@ == all.subrange(0, v@.len() as int),
            r@.len() == all.len() - v@.len(),
            forall|i: int| 0 <= i < r@.len() ==> r@[i] == all[all.len() - 1 - i],
        decreases v@.len(),
    {
        let item = v.pop().unwrap();
        r.push(item);
    }
    proof {
        assert(r@ =~= all.reverse());
    }
    r
}

} // verus!
