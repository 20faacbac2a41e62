//! File-system paths as the library sees them: byte strings in which `/`
//! separates the components.
//!
//! A path is made from bytes by `FsPath::new` or from text by
//! `FsPath::from_text`, and both bring it into normal form: repeated
//! separators become one, a separator at the end is left off (the root `/`
//! aside), and `.` components are left out (but for one that starts a
//! relative path). So two spellings of one path make the same `FsPath`.
//! The type keeps the normal form as its invariant: `parent`, `join` and
//! `strip_prefix` make paths in normal form from paths in normal form. On
//! such paths the order defined here is the order of the paths taken
//! component by component.
//!
//! What decides whether a path may be removed does not rest on the normal
//! form: `is_blocked` holds of every spelling of a path whose final
//! component is the metadata directory of version control.

use vstd::prelude::*;
use vstd::string::StrSliceExecFns;
use vstd::string::StringSliceAdditionalSpecFns;

verus! {

/// The byte that separates two components of a path.
pub const SEPARATOR: u8 = 47;

/// The name of the directory in which version control keeps its metadata:
/// the bytes of `.git`.
pub open spec fn metadata_dir_name() -> Seq<u8> {
    seq![46u8, 103u8, 105u8, 116u8]
}

/// Weight of a byte in the order of paths: the separator comes before every
/// other byte, so that a directory sorts directly before what it contains.
pub open spec fn byte_rank(b: u8) -> int {
    if b == SEPARATOR {
        0
    } else {
        b as int + 1
    }
}

/// `a` comes strictly before `b`, looking only at the bytes from index `i` on.
pub open spec fn lt_from(a: Seq<u8>, b: Seq<u8>, i: int) -> bool
    decreases a.len() - i,
{
    if i < 0 || i >= b.len() {
        false
    } else if i >= a.len() {
        true
    } else if a[i] != b[i] {
        byte_rank(a[i]) < byte_rank(b[i])
    } else {
        lt_from(a, b, i + 1)
    }
}

/// The strict order of paths: lexicographic by `byte_rank`, a proper prefix
/// first.
pub open spec fn path_lt(a: Seq<u8>, b: Seq<u8>) -> bool {
    lt_from(a, b, 0)
}

/// `a` comes before `b` or is the same path.
pub open spec fn path_le(a: Seq<u8>, b: Seq<u8>) -> bool {
    a == b || path_lt(a, b)
}

/// Index at which the final component of `p` starts: just behind the last
/// separator, or 0 where `p` holds none.
pub open spec fn final_component_start(p: Seq<u8>) -> int
    decreases p.len(),
{
    if p.len() == 0 {
        0
    } else if p.last() == SEPARATOR {
        p.len() as int
    } else {
        final_component_start(p.drop_last())
    }
}

/// The byte that alone makes the component that stands for the directory
/// itself.
pub const DOT: u8 = 46;

/// The byte at the end of `p` does not belong to its final component: it is
/// a separator, or it is a `.` that makes a component by itself.
pub open spec fn ends_in_filler(p: Seq<u8>) -> bool {
    p.len() > 0 && (p.last() == SEPARATOR || (p.last() == DOT && (p.len() == 1 || p[p.len()
        - 2] == SEPARATOR)))
}

/// Index behind the final component of `p`: the separators and the `.`
/// components at the end of `p` do not count.
pub open spec fn final_component_end(p: Seq<u8>) -> int
    decreases p.len(),
{
    if ends_in_filler(p) {
        final_component_end(p.drop_last())
    } else {
        p.len() as int
    }
}

/// The final component of `p`, however `p` is written: what stands between
/// the last separator and the end, once the separators and the `.`
/// components at the end are left off. So `/r/x`, `/r/x/`, `/r/x//` and
/// `/r/x/.` all have the final component `x`; it is empty for the root and
/// for the empty path.
pub open spec fn final_component(p: Seq<u8>) -> Seq<u8> {
    let end = final_component_end(p);
    p.subrange(final_component_start(p.subrange(0, end)), end)
}

/// The path is one that must never be removed: its final component is the
/// version-control metadata directory, however the path is written.
pub open spec fn is_blocked(p: Seq<u8>) -> bool {
    final_component(p) == metadata_dir_name()
}

/// The directory that holds `p`, or `None` where `p` is empty or the root.
pub open spec fn parent_of(p: Seq<u8>) -> Option<Seq<u8>> {
    let start = final_component_start(p);
    if start == p.len() {
        None
    } else if start <= 1 {
        Some(p.subrange(0, start))
    } else {
        Some(p.subrange(0, start - 1))
    }
}

/// `dir` extended by the component `name`.
pub open spec fn joined(dir: Seq<u8>, name: Seq<u8>) -> Seq<u8> {
    if dir.len() == 0 || dir.last() == SEPARATOR {
        dir + name
    } else {
        dir.push(SEPARATOR) + name
    }
}

/// `path` as seen from `base`: what is left of `path` once the components of
/// `base` are taken from its front, or `None` where `path` does not lie at or
/// under `base`.
pub open spec fn relative_to(path: Seq<u8>, base: Seq<u8>) -> Option<Seq<u8>> {
    if base.len() > path.len() || path.subrange(0, base.len() as int) != base {
        None
    } else if base.len() == path.len() || base.len() == 0 || base.last() == SEPARATOR {
        Some(path.subrange(base.len() as int, path.len() as int))
    } else if path[base.len() as int] == SEPARATOR {
        Some(path.subrange(base.len() as int + 1, path.len() as int))
    } else {
        None
    }
}

/// `name` can be the name of an entry of a directory: it is not empty, no
/// byte of it is a separator, and it is neither `.` nor `..`.
pub open spec fn is_component(name: Seq<u8>) -> bool {
    &&& name.len() > 0
    &&& forall|i: int| 0 <= i < name.len() ==> name[i] != SEPARATOR
    &&& !(name.len() == 1 && name[0] == DOT)
    &&& !(name.len() == 2 && name[0] == DOT && name[1] == DOT)
}

/// Where the final component ends: not behind the end of the path, and with
/// nothing but separators and `.` components behind it.
pub proof fn lemma_final_component_end(p: Seq<u8>)
    ensures
        0 <= final_component_end(p) <= p.len(),
        !ends_in_filler(p.subrange(0, final_component_end(p))),
    decreases p.len(),
{
    if ends_in_filler(p) {
        lemma_final_component_end(p.drop_last());
        let e = final_component_end(p.drop_last());
        assert(p.drop_last().subrange(0, e) =~= p.subrange(0, e));
    } else {
        assert(p.subrange(0, p.len() as int) =~= p);
    }
}

/// Where the final component starts, every byte behind it belongs to it, and
/// a separator stands directly in front of it unless it starts the path.
pub proof fn lemma_final_component_start(p: Seq<u8>)
    ensures
        0 <= final_component_start(p) <= p.len(),
        forall|i: int| final_component_start(p) <= i < p.len() ==> p[i] != SEPARATOR,
        final_component_start(p) > 0 ==> p[final_component_start(p) - 1] == SEPARATOR,
    decreases p.len(),
{
    if p.len() > 0 && p.last() != SEPARATOR {
        let q = p.drop_last();
        lemma_final_component_start(q);
        assert forall|i: int| final_component_start(p) <= i < p.len() implies p[i]
            != SEPARATOR by {
            if i < q.len() {
                assert(p[i] == q[i]);
            }
        }
    }
}

/// The start of the final component is the only index with the two properties
/// of `lemma_final_component_start`.
pub proof fn lemma_final_component_start_unique(p: Seq<u8>, k: int)
    requires
        0 <= k <= p.len(),
        forall|i: int| k <= i < p.len() ==> p[i] != SEPARATOR,
        k > 0 ==> p[k - 1] == SEPARATOR,
    ensures
        final_component_start(p) == k,
{
    lemma_final_component_start(p);
}

/// The parent of a path is shorter than the path.
pub proof fn lemma_parent_shorter(p: Seq<u8>)
    ensures
        parent_of(p) matches Some(q) ==> q.len() < p.len(),
{
    lemma_final_component_start(p);
}

/// A path that ends in the component `name` has `name` as final component.
pub proof fn lemma_joined_final_component(dir: Seq<u8>, name: Seq<u8>)
    requires
        is_component(name),
    ensures
        final_component(joined(dir, name)) == name,
{
    let j = joined(dir, name);
    let k = j.len() - name.len();
    assert forall|i: int| k <= i < j.len() implies j[i] != SEPARATOR by {
        assert(j[i] == name[i - k]);
    }
    assert(j[j.len() - 1] == name[name.len() - 1]);
    if name.len() > 1 {
        assert(j[j.len() - 2] == name[name.len() - 2]);
    }
    assert(!ends_in_filler(j));
    assert(j.subrange(0, j.len() as int) =~= j);
    lemma_final_component_start_unique(j, k);
    assert(j.subrange(k, j.len() as int) =~= name);
}

/// Separators and `.` components at the end of a path do not change its
/// final component: the path names the same entry with them and without.
pub proof fn lemma_filler_keeps_final_component(p: Seq<u8>)
    requires
        ends_in_filler(p),
    ensures
        final_component(p) == final_component(p.drop_last()),
        is_blocked(p) == is_blocked(p.drop_last()),
{
    let e = final_component_end(p.drop_last());
    lemma_final_component_end(p.drop_last());
    assert(p.drop_last().subrange(0, e) =~= p.subrange(0, e));
    assert(p.drop_last().subrange(final_component_start(p.subrange(0, e)), e) =~= p.subrange(
        final_component_start(p.subrange(0, e)),
        e,
    )) by {
        lemma_final_component_start(p.subrange(0, e));
    }
}

/// No path comes before itself.
pub proof fn lemma_lt_irreflexive(a: Seq<u8>, i: int)
    ensures
        !lt_from(a, a, i),
    decreases a.len() - i,
{
    if 0 <= i < a.len() {
        lemma_lt_irreflexive(a, i + 1);
    }
}

/// The order of paths is transitive.
pub proof fn lemma_lt_transitive(a: Seq<u8>, b: Seq<u8>, c: Seq<u8>, i: int)
    requires
        lt_from(a, b, i),
        lt_from(b, c, i),
    ensures
        lt_from(a, c, i),
    decreases a.len() - i,
{
    if i < a.len() && a[i] == b[i] && b[i] == c[i] {
        lemma_lt_transitive(a, b, c, i + 1);
    }
}

/// Of two paths that agree below index `i`, one comes before the other or
/// they are the same path.
pub proof fn lemma_lt_total(a: Seq<u8>, b: Seq<u8>, i: int)
    requires
        0 <= i <= a.len(),
        i <= b.len(),
        a.subrange(0, i) == b.subrange(0, i),
    ensures
        lt_from(a, b, i) || lt_from(b, a, i) || a == b,
    decreases a.len() - i,
{
    if i < a.len() && i < b.len() {
        if a[i] == b[i] {
            assert(a.subrange(0, i + 1) =~= a.subrange(0, i).push(a[i]));
            assert(b.subrange(0, i + 1) =~= b.subrange(0, i).push(b[i]));
            lemma_lt_total(a, b, i + 1);
        }
    } else if i == a.len() && i == b.len() {
        assert(a =~= a.subrange(0, i));
        assert(b =~= b.subrange(0, i));
    }
}

/// `path_le` is a total order on paths: reflexive, transitive, antisymmetric
/// and total.
pub proof fn lemma_path_order(a: Seq<u8>, b: Seq<u8>, c: Seq<u8>)
    ensures
        path_le(a, a),
        path_le(a, b) || path_le(b, a),
        path_le(a, b) && path_le(b, a) ==> a == b,
        path_le(a, b) && path_le(b, c) ==> path_le(a, c),
        path_le(a, b) <==> !path_lt(b, a),
{
    assert(a.subrange(0, 0) =~= b.subrange(0, 0));
    lemma_lt_total(a, b, 0);
    lemma_lt_irreflexive(a, 0);
    lemma_lt_irreflexive(b, 0);
    if path_lt(a, b) && path_lt(b, a) {
        lemma_lt_transitive(a, b, a, 0);
    }
    if path_lt(a, b) && path_lt(b, c) {
        lemma_lt_transitive(a, b, c, 0);
    }
}

/// A component starts at index `i` of `p`.
pub open spec fn starts_component(p: Seq<u8>, i: int) -> bool {
    i == 0 || p[i - 1] == SEPARATOR
}

/// The byte at index `i` of `p` is a `.` that makes a component by itself.
pub open spec fn is_dot_component(p: Seq<u8>, i: int) -> bool {
    p[i] == DOT && starts_component(p, i) && (i + 1 == p.len() || p[i + 1] == SEPARATOR)
}

/// The normal form `out` of the bytes of `p` in front of index `i`, taken on
/// by the byte at index `i`. A separator is kept only where it starts the
/// path, as the root. A `.` component is left out unless it starts the
/// path. Any other byte is kept, with one separator in front of it where it
/// starts a component behind another.
pub open spec fn with_byte(p: Seq<u8>, i: int, out: Seq<u8>) -> Seq<u8> {
    if p[i] == SEPARATOR {
        if i == 0 {
            out.push(SEPARATOR)
        } else {
            out
        }
    } else if is_dot_component(p, i) && out.len() > 0 {
        out
    } else if starts_component(p, i) && out.len() > 0 && out.last() != SEPARATOR {
        out.push(SEPARATOR).push(p[i])
    } else {
        out.push(p[i])
    }
}

/// The normal form of the first `n` bytes of `p`, as far as it is fixed by
/// them and the byte that follows.
pub open spec fn normalized_upto(p: Seq<u8>, n: int) -> Seq<u8>
    decreases n,
{
    if n <= 0 {
        Seq::empty()
    } else {
        with_byte(p, n - 1, normalized_upto(p, n - 1))
    }
}

/// The normal form of a path: its components, but for `.` components behind
/// the start, with one separator between two of them; in front of them the
/// root, where the path starts with a separator.
pub open spec fn normal_form(p: Seq<u8>) -> Seq<u8> {
    normalized_upto(p, p.len() as int)
}

/// The byte at index `i` of `p` does not belong to a component that counts:
/// it is a separator, or it is a `.` that starts a component.
pub open spec fn is_filler_at(p: Seq<u8>, i: int) -> bool {
    p[i] == SEPARATOR || (p[i] == DOT && (i == 0 || p[i - 1] == SEPARATOR))
}

/// The byte at index `i` of `p` is a separator, or a `.` that is a component
/// by itself.
pub open spec fn is_skipped_at(p: Seq<u8>, i: int) -> bool {
    is_filler_at(p, i) && (p[i] == DOT ==> i + 1 == p.len() || p[i + 1] == SEPARATOR)
}

/// Behind the end of the final component stand only separators and `.`
/// components, and the byte in front of that end belongs to the component.
pub proof fn lemma_behind_final_component(p: Seq<u8>)
    ensures
        0 <= final_component_end(p) <= p.len(),
        forall|i: int| final_component_end(p) <= i < p.len() ==> #[trigger] is_skipped_at(p, i),
        final_component_end(p) > 0 ==> !is_filler_at(p, final_component_end(p) - 1),
    decreases p.len(),
{
    if ends_in_filler(p) {
        let q = p.drop_last();
        lemma_behind_final_component(q);
        let e = final_component_end(q);
        assert forall|i: int| e <= i < p.len() implies #[trigger] is_filler_at(p, i) by {
            if i < q.len() {
                assert(is_skipped_at(q, i));
                assert(q[i] == p[i]);
                if i > 0 {
                    assert(q[i - 1] == p[i - 1]);
                }
            }
        }
        assert forall|i: int| e <= i < p.len() implies #[trigger] is_skipped_at(p, i) by {
            assert(is_filler_at(p, i));
            if i + 1 < p.len() {
                assert(is_filler_at(p, i + 1));
            }
        }
        if e > 0 {
            assert(q[e - 1] == p[e - 1]);
            if e > 1 {
                assert(q[e - 2] == p[e - 2]);
            }
        }
    }
}

/// Bytes that do not count leave a normal form as it is, once it holds
/// something.
pub proof fn lemma_fillers_add_nothing(p: Seq<u8>, e: int, n: int)
    requires
        0 <= e <= n <= p.len(),
        forall|i: int| e <= i < p.len() ==> #[trigger] is_skipped_at(p, i),
        normalized_upto(p, e).len() > 0,
    ensures
        normalized_upto(p, n) == normalized_upto(p, e),
    decreases n - e,
{
    if n > e {
        lemma_fillers_add_nothing(p, e, n - 1);
        assert(is_skipped_at(p, n - 1));
        if p[n - 1] == SEPARATOR {
            assert(n - 1 > 0) by {
                if n - 1 == 0 {
                    assert(normalized_upto(p, 0).len() == 0);
                }
            }
        } else {
            assert(is_dot_component(p, n - 1));
        }
    }
}

/// A path without a component that counts has the empty path, the root or
/// `.` as its normal form.
pub proof fn lemma_only_fillers(p: Seq<u8>, n: int)
    requires
        0 <= n <= p.len(),
        forall|i: int| 0 <= i < p.len() ==> #[trigger] is_skipped_at(p, i),
    ensures
        normalized_upto(p, n) == Seq::<u8>::empty() || normalized_upto(p, n) == seq![SEPARATOR]
            || normalized_upto(p, n) == seq![DOT],
    decreases n,
{
    if n > 0 {
        lemma_only_fillers(p, n - 1);
        let out = normalized_upto(p, n - 1);
        assert(is_skipped_at(p, n - 1));
        if p[n - 1] == SEPARATOR {
            if n - 1 == 0 {
                assert(out.push(SEPARATOR) =~= seq![SEPARATOR]);
            }
        } else {
            assert(is_dot_component(p, n - 1));
            if out.len() == 0 {
                assert(out.push(DOT) =~= seq![DOT]);
            }
        }
    }
}

/// What stands in a normal form in front of a component that starts behind
/// the normal form `out`: nothing where `out` is empty, and else `out` with a
/// separator at its end.
pub open spec fn lead_of(out: Seq<u8>) -> Seq<u8> {
    if out.len() > 0 && out.last() != SEPARATOR {
        out.push(SEPARATOR)
    } else {
        out
    }
}

/// The bytes of a component that counts go into the normal form as they
/// are, behind what stands in front of them.
pub proof fn lemma_component_is_kept(p: Seq<u8>, k: int, m: int)
    requires
        0 <= k < m <= p.len(),
        k == 0 || p[k - 1] == SEPARATOR,
        forall|i: int| k <= i < m ==> p[i] != SEPARATOR,
        !(p[k] == DOT && (k + 1 == p.len() || p[k + 1] == SEPARATOR)),
    ensures
        normalized_upto(p, m) == lead_of(normalized_upto(p, k)) + p.subrange(k, m),
    decreases m - k,
{
    let lead = lead_of(normalized_upto(p, k));
    if m == k + 1 {
        assert(!is_dot_component(p, k));
        assert(lead.push(p[k]) =~= lead + p.subrange(k, m));
    } else {
        lemma_component_is_kept(p, k, m - 1);
        assert(!starts_component(p, m - 1));
        assert((lead + p.subrange(k, m - 1)).push(p[m - 1]) =~= lead + p.subrange(k, m));
    }
}

/// The normal form of a path names the same entry as the path: it has the
/// same final component. So a path is blocked exactly where its normal form
/// is.
pub proof fn lemma_normal_form_keeps_final_component(p: Seq<u8>)
    ensures
        final_component(normal_form(p)) == final_component(p),
        is_blocked(normal_form(p)) == is_blocked(p),
{
    let e = final_component_end(p);
    let n = p.len() as int;
    lemma_behind_final_component(p);
    if e == 0 {
        lemma_only_fillers(p, n);
        let out = normal_form(p);
        assert(p.subrange(0, 0) =~= Seq::<u8>::empty());
        assert(final_component(p) =~= Seq::<u8>::empty());
        if out == seq![SEPARATOR] || out == seq![DOT] {
            assert(ends_in_filler(out));
            assert(out.drop_last() =~= Seq::<u8>::empty());
            assert(final_component_end(Seq::<u8>::empty()) == 0);
            assert(final_component_end(out) == 0);
        }
        assert(out.subrange(0, 0) =~= Seq::<u8>::empty());
        assert(final_component(out) =~= Seq::<u8>::empty());
    } else {
        let q = p.subrange(0, e);
        let k = final_component_start(q);
        lemma_final_component_start(q);
        assert(q[e - 1] == p[e - 1]);
        assert(k < e);
        assert forall|i: int| k <= i < e implies p[i] != SEPARATOR by {
            assert(q[i] == p[i]);
        }
        if k > 0 {
            assert(q[k - 1] == p[k - 1]);
        }
        // The component is not `.`: its last byte would not count.
        if p[k] == DOT && (k + 1 == p.len() || p[k + 1] == SEPARATOR) {
            if k + 1 < e {
                assert(p[k + 1] != SEPARATOR);
            }
            assert(k == e - 1);
            assert(is_filler_at(p, e - 1));
        }
        lemma_component_is_kept(p, k, e);
        let lead = lead_of(normalized_upto(p, k));
        let comp = p.subrange(k, e);
        let out = lead + comp;
        assert(normalized_upto(p, e) == out);
        lemma_fillers_add_nothing(p, e, n);
        assert(normal_form(p) == out);
        // The final component of `out` is `comp`.
        assert(out[out.len() - 1] == p[e - 1]);
        if out.len() > 1 {
            if comp.len() > 1 {
                assert(out[out.len() - 2] == p[e - 2]);
            } else {
                assert(out[out.len() - 2] == lead[lead.len() - 1]);
            }
        }
        assert(!ends_in_filler(out)) by {
            if p[e - 1] == DOT {
                if comp.len() == 1 {
                    assert(is_filler_at(p, e - 1));
                }
            }
        }
        assert(out.subrange(0, out.len() as int) =~= out);
        assert forall|i: int| lead.len() <= i < out.len() implies out[i] != SEPARATOR by {
            assert(out[i] == comp[i - lead.len()]);
        }
        if lead.len() > 0 {
            assert(out[lead.len() - 1] == lead[lead.len() - 1]);
        }
        lemma_final_component_start_unique(out, lead.len() as int);
        assert(final_component(out) =~= comp);
        assert(final_component(p) =~= comp) by {
            assert(p.subrange(k, e) =~= comp);
        }
    }
}

/// The path is in normal form: no separator follows another, none ends the
/// path (the root aside), and no `.` component stands behind the start.
pub open spec fn is_normal(p: Seq<u8>) -> bool {
    &&& forall|i: int| 0 < i < p.len() && #[trigger] p[i] == SEPARATOR ==> p[i - 1] != SEPARATOR
    &&& p.len() >= 2 ==> p.last() != SEPARATOR
    &&& forall|i: int| 1 <= i < p.len() ==> !is_dot_component(p, i)
}

/// The byte in front of index `n` of `p` is a `.` that starts a component
/// which goes on at index `n`.
pub open spec fn in_dotted_name(p: Seq<u8>, n: int) -> bool {
    0 < n < p.len() && p[n - 1] == DOT && p[n] != SEPARATOR
}

/// What holds of the normal form `out` of the first `n` bytes of `p`: it is
/// in normal form, but that a `.` at its end may still become the start of a
/// longer component; and it ends in the byte in front of index `n` where
/// that byte counts.
pub open spec fn normal_so_far(p: Seq<u8>, n: int, out: Seq<u8>) -> bool {
    &&& forall|i: int|
        0 < i < out.len() && #[trigger] out[i] == SEPARATOR ==> out[i - 1] != SEPARATOR
    &&& out.len() >= 2 ==> out.last() != SEPARATOR
    &&& forall|i: int|
        1 <= i < out.len() && #[trigger] out[i] == DOT && out[i - 1] == SEPARATOR ==> (i + 1 < out.len()
            && out[i + 1] != SEPARATOR) || (i + 1 == out.len() && in_dotted_name(p, n))
    &&& n > 0 && p[n - 1] != SEPARATOR && !is_dot_component(p, n - 1) ==> out.len() > 0
        && out.last() == p[n - 1]
}

/// Every step of the normal form keeps what `normal_so_far` states.
pub proof fn lemma_normal_so_far(p: Seq<u8>, n: int)
    requires
        0 <= n <= p.len(),
    ensures
        normal_so_far(p, n, normalized_upto(p, n)),
    decreases n,
{
    if n > 0 {
        lemma_normal_so_far(p, n - 1);
        let i = n - 1;
        let out = normalized_upto(p, i);
        let next = with_byte(p, i, out);
        assert(next == normalized_upto(p, n));
        if p[i] == SEPARATOR {
            if i == 0 {
                assert(out.len() == 0);
            }
            assert(!in_dotted_name(p, i));
        } else if is_dot_component(p, i) && out.len() > 0 {
            assert(!in_dotted_name(p, i));
        } else if starts_component(p, i) && out.len() > 0 && out.last() != SEPARATOR {
            assert(!in_dotted_name(p, i));
            let mid = out.push(SEPARATOR);
            assert(next == mid.push(p[i]));
            assert forall|j: int|
                1 <= j < next.len() && #[trigger] next[j] == DOT && next[j - 1] == SEPARATOR implies (j + 1
                < next.len() && next[j + 1] != SEPARATOR) || (j + 1 == next.len()
                && in_dotted_name(p, n)) by {
                if j + 1 < out.len() {
                    assert(out[j] == next[j] && out[j - 1] == next[j - 1] && out[j + 1] == next[j
                        + 1]);
                } else if j + 1 == out.len() {
                    assert(out[j] == next[j] && out[j - 1] == next[j - 1]);
                }
            }
        } else {
            assert(next == out.push(p[i]));
            if !starts_component(p, i) {
                assert(p[i - 1] != SEPARATOR);
                assert(!is_dot_component(p, i - 1));
                assert(out.len() > 0 && out.last() == p[i - 1]);
            }
            assert forall|j: int|
                1 <= j < next.len() && #[trigger] next[j] == DOT && next[j - 1] == SEPARATOR implies (j + 1
                < next.len() && next[j + 1] != SEPARATOR) || (j + 1 == next.len()
                && in_dotted_name(p, n)) by {
                if j + 1 < out.len() {
                    assert(out[j] == next[j] && out[j - 1] == next[j - 1] && out[j + 1] == next[j
                        + 1]);
                } else if j + 1 == out.len() {
                    assert(out[j] == next[j] && out[j - 1] == next[j - 1]);
                    assert(in_dotted_name(p, i));
                } else {
                    assert(starts_component(p, i));
                    assert(!is_dot_component(p, i));
                }
            }
        }
    }
}

/// The normal form of a path is in normal form.
pub proof fn lemma_normal_form_is_normal(p: Seq<u8>)
    ensures
        is_normal(normal_form(p)),
{
    lemma_normal_so_far(p, p.len() as int);
    assert(!in_dotted_name(p, p.len() as int));
}

/// The first `n` bytes of `p`, without a separator at their end unless it is
/// the root.
pub open spec fn trimmed_upto(p: Seq<u8>, n: int) -> Seq<u8> {
    if n >= 2 && p[n - 1] == SEPARATOR {
        p.subrange(0, n - 1)
    } else {
        p.subrange(0, n)
    }
}

/// Of a path in normal form every step of the normal form keeps the bytes.
pub proof fn lemma_normal_prefix(p: Seq<u8>, n: int)
    requires
        is_normal(p),
        0 <= n <= p.len(),
    ensures
        normalized_upto(p, n) == trimmed_upto(p, n),
    decreases n,
{
    if n == 0 {
        assert(p.subrange(0, 0) =~= Seq::<u8>::empty());
    } else {
        lemma_normal_prefix(p, n - 1);
        let i = n - 1;
        let out = normalized_upto(p, i);
        let next = with_byte(p, i, out);
        if p[i] == SEPARATOR {
            if i == 0 {
                assert(out.push(SEPARATOR) =~= p.subrange(0, 1));
            }
        } else {
            if i >= 1 {
                assert(!is_dot_component(p, i));
            }
            if i >= 2 && p[i - 1] == SEPARATOR {
                assert(out == p.subrange(0, i - 1));
                assert(out.last() == p[i - 2]);
                assert(out.push(SEPARATOR).push(p[i]) =~= p.subrange(0, n));
            } else {
                assert(out == p.subrange(0, i));
                if i > 0 {
                    assert(out.last() == p[i - 1]);
                }
                assert(out.push(p[i]) =~= p.subrange(0, n));
            }
        }
    }
}

/// A path in normal form is its own normal form, and the normal form of a
/// normal form is that same path.
pub proof fn lemma_normal_form_is_fixed(p: Seq<u8>)
    ensures
        is_normal(p) ==> normal_form(p) == p,
        normal_form(normal_form(p)) == normal_form(p),
{
    if is_normal(p) {
        lemma_normal_prefix(p, p.len() as int);
        assert(p.subrange(0, p.len() as int) =~= p);
    }
    let q = normal_form(p);
    lemma_normal_form_is_normal(p);
    lemma_normal_prefix(q, q.len() as int);
    assert(q.subrange(0, q.len() as int) =~= q);
}

/// The directory that holds a path in normal form is in normal form.
pub proof fn lemma_parent_is_normal(p: Seq<u8>)
    requires
        is_normal(p),
    ensures
        parent_of(p) matches Some(q) ==> is_normal(q),
{
    lemma_final_component_start(p);
    let start = final_component_start(p);
    if start < p.len() && start >= 2 {
        let q = p.subrange(0, start - 1);
        assert forall|i: int| 1 <= i < q.len() implies !is_dot_component(q, i) by {
            assert(q[i] == p[i] && q[i - 1] == p[i - 1]);
            if i + 1 < q.len() {
                assert(q[i + 1] == p[i + 1]);
            }
            assert(!is_dot_component(p, i));
        }
        assert forall|i: int| 0 < i < q.len() && #[trigger] q[i] == SEPARATOR implies q[i - 1]
            != SEPARATOR by {
            assert(q[i] == p[i] && q[i - 1] == p[i - 1]);
        }
        if q.len() >= 2 {
            assert(q.last() == p[start - 2]);
        }
    }
}

/// A path in normal form extended by a component is in normal form.
pub proof fn lemma_joined_is_normal(dir: Seq<u8>, name: Seq<u8>)
    requires
        is_normal(dir),
        is_component(name),
    ensures
        is_normal(joined(dir, name)),
{
    let j = joined(dir, name);
    let k = j.len() - name.len();
    assert forall|i: int| k <= i < j.len() implies j[i] == name[i - k] by {}
    assert forall|i: int| 0 <= i < dir.len() implies j[i] == dir[i] by {}
    assert(j.last() == name[name.len() - 1]);
    assert forall|i: int| 0 < i < j.len() && #[trigger] j[i] == SEPARATOR implies j[i - 1] != SEPARATOR by {
        assert(i < k);
        if i < dir.len() {
            assert(j[i] == dir[i] && j[i - 1] == dir[i - 1]);
        }
    }
    assert forall|i: int| 1 <= i < j.len() implies !is_dot_component(j, i) by {
        if i + 1 < dir.len() {
            assert(j[i] == dir[i] && j[i - 1] == dir[i - 1] && j[i + 1] == dir[i + 1]);
            assert(!is_dot_component(dir, i));
        } else if i + 1 == dir.len() {
            assert(j[i] == dir[i] && j[i - 1] == dir[i - 1]);
            assert(!is_dot_component(dir, i));
        } else if i == k {
            assert(j[i] == name[0]);
            if name.len() > 1 {
                assert(j[i + 1] == name[1]);
            }
        } else if i > k {
            assert(j[i - 1] == name[i - 1 - k]);
        }
    }
}

/// What is left of a path in normal form behind a directory above it is in
/// normal form.
pub proof fn lemma_relative_is_normal(path: Seq<u8>, base: Seq<u8>)
    requires
        is_normal(path),
    ensures
        relative_to(path, base) matches Some(rest) ==> is_normal(rest),
{
    if let Some(rest) = relative_to(path, base) {
        let off = path.len() - rest.len();
        assert forall|i: int| 0 <= i < rest.len() implies rest[i] == path[i + off] by {}
        if off > 0 && rest.len() > 0 {
            assert(path[off - 1] == SEPARATOR) by {
                if base.len() == off {
                    assert(path.subrange(0, base.len() as int)[off - 1] == base[off - 1]);
                }
            }
            assert(rest[0] != SEPARATOR);
        }
        assert forall|i: int| 1 <= i < rest.len() implies !is_dot_component(rest, i) by {
            assert(!is_dot_component(path, i + off));
            assert(rest[i] == path[i + off] && rest[i - 1] == path[i - 1 + off]);
            if i + 1 < rest.len() {
                assert(rest[i + 1] == path[i + 1 + off]);
            }
        }
        assert forall|i: int| 0 < i < rest.len() && #[trigger] rest[i] == SEPARATOR implies rest[i - 1]
            != SEPARATOR by {
            assert(rest[i] == path[i + off] && rest[i - 1] == path[i - 1 + off]);
        }
        if rest.len() >= 2 {
            assert(rest.last() == path.last());
        }
    }
}

/// A file-system path. Its bytes are set by `new` and `from_text`, which
/// bring them into normal form, and by the functions of this module that
/// make a path from another. Every path is in normal form: the type keeps
/// that as its invariant.
#[derive(Debug, PartialEq, Eq)]
pub struct FsPath {
    bytes: Vec<u8>,
}

impl View for FsPath {
    type V = Seq<u8>;

    closed spec fn view(&self) -> Seq<u8> {
        self.bytes@
    }
}

impl Clone for FsPath {
    fn clone(&self) -> (r: Self)
        ensures
            r@ == self@,
    {
        proof {
            use_type_invariant(self);
        }
        FsPath { bytes: self.bytes.clone() }
    }
}

impl FsPath {
    #[verifier::type_invariant]
    spec fn kept_normal(self) -> bool {
        is_normal(self.bytes@)
    }

    /// The path that the bytes spell, in normal form.
    pub fn new(bytes: Vec<u8>) -> (r: Self)
        ensures
            r@ == normal_form(bytes@),
            is_normal(r@),
    {
        FsPath { bytes: normalized_bytes(&bytes) }
    }

    /// The path that the text spells in UTF-8, in normal form.
    pub fn from_text(text: &str) -> (r: Self)
        ensures
            r@ == normal_form(text.spec_bytes()),
            is_normal(r@),
    {
        let bytes = text.as_bytes_vec();
        FsPath { bytes: normalized_bytes(&bytes) }
    }

    /// The path in normal form: the path itself.
    pub fn normalized(&self) -> (r: FsPath)
        ensures
            r@ == normal_form(self@),
            r@ == self@,
    {
        proof {
            use_type_invariant(self);
            lemma_normal_form_is_fixed(self@);
        }
        FsPath { bytes: normalized_bytes(&self.bytes) }
    }

    /// The bytes of the path, which are in normal form.
    pub fn as_bytes(&self) -> (bytes: &Vec<u8>)
        ensures
            bytes@ == self@,
            is_normal(bytes@),
    {
        proof {
            use_type_invariant(self);
        }
        &self.bytes
    }

    /// Whether the two paths are the same.
    pub fn same(&self, other: &FsPath) -> (r: bool)
        ensures
            r == (self@ == other@),
    {
        bytes_equal(&self.bytes, &other.bytes)
    }

    /// Whether `self` comes strictly before `other` in the order of paths.
    pub fn precedes(&self, other: &FsPath) -> (r: bool)
        ensures
            r == path_lt(self@, other@),
    {
        let n = self.bytes.len();
        let m = other.bytes.len();
        let mut i: usize = 0;
        while i < n && i < m
            invariant
                n == self@.len(),
                m == other@.len(),
                i <= n,
                i <= m,
                path_lt(self@, other@) == lt_from(self@, other@, i as int),
            decreases n - i,
        {
            let x = self.bytes[i];
            let y = other.bytes[i];
            if x != y {
                if x == SEPARATOR {
                    return true;
                }
                if y == SEPARATOR {
                    return false;
                }
                return x < y;
            }
            i += 1;
        }
        i < m
    }

    /// Index at which the final component starts.
    pub fn final_component_index(&self) -> (k: usize)
        ensures
            k == final_component_start(self@),
    {
        let mut k = self.bytes.len();
        while k > 0 && self.bytes[k - 1] != SEPARATOR
            invariant
                k <= self@.len(),
                forall|i: int| k <= i < self@.len() ==> self@[i] != SEPARATOR,
            decreases k,
        {
            k -= 1;
        }
        proof {
            lemma_final_component_start_unique(self@, k as int);
        }
        k
    }

    /// Index behind the final component: behind the last byte that is
    /// neither a separator at the end nor part of a `.` component at the
    /// end.
    pub fn final_component_end_index(&self) -> (e: usize)
        ensures
            e == final_component_end(self@),
            e <= self@.len(),
    {
        let mut e = self.bytes.len();
        proof {
            assert(self@.subrange(0, e as int) =~= self@);
        }
        while e > 0 && (self.bytes[e - 1] == SEPARATOR || (self.bytes[e - 1] == DOT && (e == 1
            || self.bytes[e - 2] == SEPARATOR)))
            invariant
                e <= self@.len(),
                final_component_end(self@) == final_component_end(self@.subrange(0, e as int)),
            decreases e,
        {
            proof {
                let q = self@.subrange(0, e as int);
                assert(q.last() == self@[e - 1]);
                if e > 1 {
                    assert(q[q.len() - 2] == self@[e - 2]);
                }
                assert(ends_in_filler(q));
                assert(q.drop_last() =~= self@.subrange(0, e - 1));
            }
            e -= 1;
        }
        proof {
            let q = self@.subrange(0, e as int);
            if e > 0 {
                assert(q.last() == self@[e - 1]);
                if e > 1 {
                    assert(q[q.len() - 2] == self@[e - 2]);
                }
            }
            assert(!ends_in_filler(q));
        }
        e
    }

    /// Whether the final component of the path is `name`.
    pub fn ends_in(&self, name: &Vec<u8>) -> (r: bool)
        ensures
            r == (final_component(self@) == name@),
    {
        let e = self.final_component_end_index();
        let ghost q = self@.subrange(0, e as int);
        let mut k = e;
        while k > 0 && self.bytes[k - 1] != SEPARATOR
            invariant
                k <= e,
                e <= self@.len(),
                q == self@.subrange(0, e as int),
                forall|i: int| k <= i < e ==> q[i] != SEPARATOR,
            decreases k,
        {
            proof {
                assert(q[k - 1] == self@[k - 1]);
            }
            k -= 1;
        }
        proof {
            if k > 0 {
                assert(q[k - 1] == self@[k - 1]);
            }
            lemma_final_component_start_unique(q, k as int);
        }
        if e - k != name.len() {
            return false;
        }
        let mut i: usize = 0;
        while i < name.len()
            invariant
                k <= e,
                e <= self@.len(),
                e - k == name@.len(),
                i <= name@.len(),
                e == final_component_end(self@),
                k == final_component_start(self@.subrange(0, e as int)),
                forall|j: int| 0 <= j < i ==> self@[k + j] == name@[j],
            decreases name@.len() - i,
        {
            if self.bytes[k + i] != name[i] {
                proof {
                    assert(final_component(self@)[i as int] != name@[i as int]);
                }
                return false;
            }
            i += 1;
        }
        proof {
            assert(final_component(self@) =~= name@);
        }
        true
    }

    /// The directory that holds the path.
    pub fn parent(&self) -> (r: Option<FsPath>)
        ensures
            r.is_some() == parent_of(self@).is_some(),
            r matches Some(q) ==> parent_of(self@) == Some(q@),
    {
        let k = self.final_component_index();
        proof {
            use_type_invariant(self);
            lemma_final_component_start(self@);
            lemma_parent_is_normal(self@);
        }
        if k == self.bytes.len() {
            return None;
        }
        let end = if k <= 1 {
            k
        } else {
            k - 1
        };
        Some(FsPath { bytes: copy_range(&self.bytes, 0, end) })
    }

    /// The path extended by `name`: by the component `name`, or, where
    /// `name` is no single component, by what `name` spells, in normal form.
    pub fn join(&self, name: &Vec<u8>) -> (r: FsPath)
        ensures
            r@ == normal_form(joined(self@, name@)),
            is_component(name@) ==> r@ == joined(self@, name@),
    {
        let mut bytes = self.bytes.clone();
        let n = bytes.len();
        if n > 0 && bytes[n - 1] != SEPARATOR {
            bytes.push(SEPARATOR);
        }
        let ghost head = bytes@;
        let mut i: usize = 0;
        while i < name.len()
            invariant
                i <= name@.len(),
                bytes@ == head + name@.subrange(0, i as int),
            decreases name@.len() - i,
        {
            bytes.push(name[i]);
            proof {
                assert(name@.subrange(0, i + 1) =~= name@.subrange(0, i as int).push(name@[i as int]));
                assert(bytes@ =~= head + name@.subrange(0, i + 1));
            }
            i += 1;
        }
        proof {
            assert(name@.subrange(0, name@.len() as int) =~= name@);
            use_type_invariant(self);
            lemma_normal_form_is_fixed(bytes@);
        }
        if is_component_name(name) {
            proof {
                lemma_joined_is_normal(self@, name@);
            }
            FsPath { bytes }
        } else {
            FsPath { bytes: normalized_bytes(&bytes) }
        }
    }

    /// The path as seen from `base`.
    pub fn strip_prefix(&self, base: &FsPath) -> (r: Option<FsPath>)
        ensures
            r.is_some() == relative_to(self@, base@).is_some(),
            r matches Some(q) ==> relative_to(self@, base@) == Some(q@),
    {
        let n = self.bytes.len();
        let b = base.bytes.len();
        if b > n {
            return None;
        }
        let mut i: usize = 0;
        while i < b
            invariant
                b <= n,
                n == self@.len(),
                b == base@.len(),
                i <= b,
                forall|j: int| 0 <= j < i ==> self@[j] == base@[j],
            decreases b - i,
        {
            if self.bytes[i] != base.bytes[i] {
                proof {
                    assert(self@.subrange(0, b as int)[i as int] != base@[i as int]);
                }
                return None;
            }
            i += 1;
        }
        proof {
            assert(self@.subrange(0, b as int) =~= base@);
            use_type_invariant(self);
            lemma_relative_is_normal(self@, base@);
        }
        if b == n || b == 0 || base.bytes[b - 1] == SEPARATOR {
            Some(FsPath { bytes: copy_range(&self.bytes, b, n) })
        } else if self.bytes[b] == SEPARATOR {
            Some(FsPath { bytes: copy_range(&self.bytes, b + 1, n) })
        } else {
            None
        }
    }
}

/// The normal form of the path that the bytes spell.
pub fn normalized_bytes(bytes: &Vec<u8>) -> (out: Vec<u8>)
    ensures
        out@ == normal_form(bytes@),
        is_normal(out@),
{
    proof {
        lemma_normal_form_is_normal(bytes@);
    }
    let n = bytes.len();
    let mut out: Vec<u8> = Vec::new();
    let mut i: usize = 0;
    while i < n
        invariant
            n == bytes@.len(),
            i <= n,
            out@ == normalized_upto(bytes@, i as int),
        decreases n - i,
    {
        let b = bytes[i];
        let starts = i == 0 || bytes[i - 1] == SEPARATOR;
        if b == SEPARATOR {
            if i == 0 {
                out.push(SEPARATOR);
            }
        } else if b == DOT && starts && (i + 1 == n || bytes[i + 1] == SEPARATOR) && out.len()
            > 0 {
        } else {
            let m = out.len();
            if starts && m > 0 && out[m - 1] != SEPARATOR {
                out.push(SEPARATOR);
            }
            out.push(b);
        }
        i += 1;
    }
    out
}

/// Whether `name` can be the name of an entry of a directory.
pub fn is_component_name(name: &Vec<u8>) -> (r: bool)
    ensures
        r == is_component(name@),
{
    let n = name.len();
    if n == 0 {
        return false;
    }
    if n == 1 && name[0] == DOT {
        return false;
    }
    if n == 2 && name[0] == DOT && name[1] == DOT {
        return false;
    }
    let mut i: usize = 0;
    while i < n
        invariant
            n == name@.len(),
            i <= n,
            forall|j: int| 0 <= j < i ==> name@[j] != SEPARATOR,
        decreases n - i,
    {
        if name[i] == SEPARATOR {
            return false;
        }
        i += 1;
    }
    true
}

/// Whether two byte strings hold the same bytes.
pub fn bytes_equal(a: &Vec<u8>, b: &Vec<u8>) -> (r: bool)
    ensures
        r == (a@ == b@),
{
    if a.len() != b.len() {
        return false;
    }
    let mut i: usize = 0;
    while i < a.len()
        invariant
            a@.len() == b@.len(),
            i <= a@.len(),
            forall|j: int| 0 <= j < i ==> a@[j] == b@[j],
        decreases a@.len() - i,
    {
        if a[i] != b[i] {
            return false;
        }
        i += 1;
    }
    proof {
        assert(a@ =~= b@);
    }
    true
}

/// The bytes of `src` from index `from` up to, not including, index `to`.
pub fn copy_range(src: &Vec<u8>, from: usize, to: usize) -> (r: Vec<u8>)
    requires
        from <= to <= src@.len(),
    ensures
        r@ == src@.subrange(from as int, to as int),
{
    let mut out: Vec<u8> = Vec::new();
    let mut i: usize = from;
    while i < to
        invariant
            from <= i <= to,
            to <= src@.len(),
            out@ == src@.subrange(from as int, i as int),
        decreases to - i,
    {
        out.push(src[i]);
        proof {
            assert(out@ =~= src@.subrange(from as int, i + 1));
        }
        i += 1;
    }
    out
}

/// The name of the version-control metadata directory.
pub fn metadata_dir() -> (r: Vec<u8>)
    ensures
        r@ == metadata_dir_name(),
{
    let mut name: Vec<u8> = Vec::new();
    name.push(46u8);
    name.push(103u8);
    name.push(105u8);
    name.push(116u8);
    proof {
        assert(name@ =~= metadata_dir_name());
    }
    name
}

/// Whether the path must never be removed, whatever selected it.
pub fn is_blocked_path(path: &FsPath) -> (r: bool)
    ensures
        r == is_blocked(path@),
{
    let name = metadata_dir();
    path.ends_in(&name)
}

} // verus!
