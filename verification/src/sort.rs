//! Stable sorting by a total preorder, and the lemmas on filtered
//! sequences that the sorted lookups rely on.
use vstd::prelude::*;

verus! {

broadcast use {vstd::seq_lib::group_seq_properties, vstd::seq::group_seq_axioms};

/// `le` is total and transitive (a total preorder; ties are allowed).
pub open spec fn total_preorder<T>(le: spec_fn(T, T) -> bool) -> bool {
    &&& forall|a: T, b: T| #![trigger le(a, b)] le(a, b) || le(b, a)
    &&& forall|a: T, b: T, c: T| #![trigger le(a, b), le(b, c)] le(a, b) && le(b, c) ==> le(a, c)
}

/// `s` is ordered by `le`.
pub open spec fn sorted_by_le<T>(s: Seq<T>, le: spec_fn(T, T) -> bool) -> bool {
    forall|i: int, j: int| 0 <= i < j < s.len() ==> le(#[trigger] s[i], #[trigger] s[j])
}

/// The elements that `le` ranks equal to `x`.
pub open spec fn tied_with<T>(le: spec_fn(T, T) -> bool, x: T) -> spec_fn(T) -> bool {
    |y: T| le(y, x) && le(x, y)
}

/// The elements of `s` that `le` ranks equal to `x`, in their order in `s`.
pub open spec fn ties<T>(s: Seq<T>, le: spec_fn(T, T) -> bool, x: T) -> Seq<T> {
    s.filter(tied_with(le, x))
}

/// `r` is `s` sorted stably by `le`: ordered, and each group of tied
/// elements appears in `r` exactly as it appears in `s`.  This determines
/// `r` uniquely.
pub open spec fn is_stable_sort<T>(r: Seq<T>, s: Seq<T>, le: spec_fn(T, T) -> bool) -> bool {
    &&& r.len() == s.len()
    &&& sorted_by_le(r, le)
    &&& forall|x: T| #[trigger] ties(r, le, x) == ties(s, le, x)
}

/// The stable sort of `s` by `le` (see [`lemma_stable_sort_unique`]).
pub open spec fn stable_sorted<T>(s: Seq<T>, le: spec_fn(T, T) -> bool) -> Seq<T> {
    choose|r: Seq<T>| is_stable_sort(r, s, le)
}

/// Filtering a sequence whose last element satisfies the predicate ends
/// with that element; otherwise it filters the rest.
proof fn lemma_filter_last<T>(s: Seq<T>, p: spec_fn(T) -> bool)
    requires
        s.len() > 0,
    ensures
        p(s.last()) ==> s.filter(p) == s.drop_last().filter(p).push(s.last()),
        !p(s.last()) ==> s.filter(p) == s.drop_last().filter(p),
{
    reveal(Seq::filter);
}

/// An element of a filtered sequence occurs in the sequence.
proof fn lemma_filter_member<T>(s: Seq<T>, p: spec_fn(T) -> bool, i: int)
    requires
        0 <= i < s.filter(p).len(),
    ensures
        exists|k: int| 0 <= k < s.len() && s[k] == s.filter(p)[i],
{
    s.lemma_filter_pred(p, i);
    s.lemma_filter_contains_rev(p, s.filter(p)[i]);
}

/// The last element that satisfies `p` is the last element of the filter.
proof fn lemma_last_match<T>(s: Seq<T>, p: spec_fn(T) -> bool)
    requires
        s.filter(p).len() > 0,
    ensures
        exists|k: int|
            0 <= k < s.len() && p(s[k]) && s[k] == s.filter(p).last() && forall|m: int|
                k < m < s.len() ==> !p(#[trigger] s[m]),
    decreases s.len(),
{
    reveal(Seq::filter);
    if s.len() == 0 {
    } else if p(s.last()) {
        let k = s.len() - 1;
        assert(p(s[k]) && s[k] == s.filter(p).last());
    } else {
        lemma_last_match(s.drop_last(), p);
        let k = choose|k: int|
            0 <= k < s.drop_last().len() && p(s.drop_last()[k]) && s.drop_last()[k] == s.drop_last().filter(
                p,
            ).last() && forall|m: int| k < m < s.drop_last().len() ==> !p(#[trigger] s.drop_last()[m]);
        assert forall|m: int| k < m < s.len() implies !p(#[trigger] s[m]) by {
            if m < s.len() - 1 {
                assert(s[m] == s.drop_last()[m]);
            }
        }
        assert(s[k] == s.drop_last()[k]);
    }
}

/// Filtering a one-element sequence.
proof fn lemma_filter_single<T>(x: T, p: spec_fn(T) -> bool)
    ensures
        seq![x].filter(p) == if p(x) {
            seq![x]
        } else {
            Seq::<T>::empty()
        },
{
    reveal(Seq::filter);
    assert(seq![x].drop_last() =~= Seq::<T>::empty());
    assert(seq![x].last() == x);
    assert(Seq::<T>::empty().filter(p) =~= Seq::<T>::empty());
    if p(x) {
        assert(Seq::<T>::empty().push(x) =~= seq![x]);
    }
}

/// Dropping the last (greatest) element of a stable sort, and the last
/// element of `s` tied with it, leaves a stable sort.
proof fn lemma_drop_greatest<T>(r: Seq<T>, s: Seq<T>, le: spec_fn(T, T) -> bool, k: int)
    requires
        total_preorder(le),
        is_stable_sort(r, s, le),
        r.len() > 0,
        0 <= k < s.len(),
        tied_with(le, r.last())(s[k]),
        s[k] == s.filter(tied_with(le, r.last())).last(),
        forall|m: int| k < m < s.len() ==> !tied_with(le, r.last())(#[trigger] s[m]),
    ensures
        is_stable_sort(r.drop_last(), s.remove(k), le),
{
    let a = r.last();
    let ta = tied_with(le, a);
    let r2 = r.drop_last();
    let s2 = s.remove(k);
    assert(ta(a));
    lemma_filter_last(r, ta);
    assert(ties(r, le, a) == ties(s, le, a));
    assert(ties(r, le, a).last() == a);
    assert(s[k] == a);
    assert(s =~= s.take(k) + seq![s[k]] + s.skip(k + 1));
    assert(s2 =~= s.take(k) + s.skip(k + 1));
    assert forall|i: int, j: int| 0 <= i < j < r2.len() implies le(#[trigger] r2[i], #[trigger] r2[j]) by {
        assert(le(r[i], r[j]));
    }
    assert forall|c: T| #[trigger] ties(r2, le, c) == ties(s2, le, c) by {
        let tc = tied_with(le, c);
        lemma_filter_last(r, tc);
        Seq::filter_distributes_over_add(s.take(k) + seq![s[k]], s.skip(k + 1), tc);
        Seq::filter_distributes_over_add(s.take(k), seq![s[k]], tc);
        Seq::filter_distributes_over_add(s.take(k), s.skip(k + 1), tc);
        lemma_filter_single(s[k], tc);
        assert(ties(r, le, c) == ties(s, le, c));
        if tc(a) {
            assert forall|m: int| 0 <= m < s.skip(k + 1).len() implies !tc(#[trigger] s.skip(k + 1)[m]) by {
                let y = s.skip(k + 1)[m];
                assert(y == s[k + 1 + m]);
                assert(!ta(y));
                if tc(y) {
                    assert(le(y, c) && le(c, a));
                    assert(le(a, c) && le(c, y));
                }
            }
            lemma_filter_none(s.skip(k + 1), tc);
            assert(ties(s, le, c) =~= ties(s2, le, c).push(a));
            assert(ties(r, le, c) =~= ties(r2, le, c).push(a));
            assert(ties(r2, le, c) =~= ties(r, le, c).drop_last());
            assert(ties(s2, le, c) =~= ties(s, le, c).drop_last());
        } else {
            assert(ties(s, le, c) =~= ties(s2, le, c));
        }
    }
}

/// Two stable sorts of the same sequence by the same order are equal.
pub proof fn lemma_stable_sort_unique<T>(
    r1: Seq<T>,
    r2: Seq<T>,
    s: Seq<T>,
    le: spec_fn(T, T) -> bool,
)
    requires
        total_preorder(le),
        is_stable_sort(r1, s, le),
        is_stable_sort(r2, s, le),
    ensures
        r1 == r2,
    decreases s.len(),
{
    if s.len() == 0 {
        assert(r1 =~= r2);
    } else {
        let n = s.len();
        let a = r1.last();
        let b = r2.last();
        let ta = tied_with(le, a);
        assert(ta(a));
        lemma_filter_last(r1, ta);
        assert(ties(r1, le, a).last() == a);
        assert(ties(r2, le, a) == ties(r1, le, a));
        // `a` occurs in `r2`, so it is at most `b`.
        let ia = (ties(r2, le, a).len() - 1) as int;
        lemma_filter_member(r2, ta, ia);
        let ka = choose|k: int| 0 <= k < r2.len() && r2[k] == ties(r2, le, a)[ia];
        assert(r2[ka] == a);
        if ka < n - 1 {
            assert(le(r2[ka], r2[n - 1]));
        }
        assert(le(a, b));
        // `b` occurs in `r1`, so it is at most `a`.
        let tb = tied_with(le, b);
        assert(tb(b));
        lemma_filter_last(r2, tb);
        assert(ties(r1, le, b) == ties(r2, le, b));
        let ib = (ties(r1, le, b).len() - 1) as int;
        lemma_filter_member(r1, tb, ib);
        let kb = choose|k: int| 0 <= k < r1.len() && r1[k] == ties(r1, le, b)[ib];
        assert(r1[kb] == b);
        if kb < n - 1 {
            assert(le(r1[kb], r1[n - 1]));
        }
        assert(le(b, a));
        assert(ta(b));
        lemma_filter_last(r2, ta);
        assert(a == b);
        // Remove the last element tied with `a` from `s`.
        lemma_last_match(s, ta);
        let k = choose|k: int|
            0 <= k < s.len() && ta(s[k]) && s[k] == s.filter(ta).last() && forall|m: int|
                k < m < s.len() ==> !ta(#[trigger] s[m]);
        lemma_drop_greatest(r1, s, le, k);
        lemma_drop_greatest(r2, s, le, k);
        lemma_stable_sort_unique(r1.drop_last(), r2.drop_last(), s.remove(k), le);
        assert(r1 =~= r1.drop_last().push(a));
        assert(r2 =~= r2.drop_last().push(b));
    }
}

/// A stable sort is the stable sort.
pub proof fn lemma_is_stable_sorted<T>(r: Seq<T>, s: Seq<T>, le: spec_fn(T, T) -> bool)
    requires
        total_preorder(le),
        is_stable_sort(r, s, le),
    ensures
        r == stable_sorted(s, le),
{
    let c = stable_sorted(s, le);
    assert(is_stable_sort(c, s, le));
    lemma_stable_sort_unique(r, c, s, le);
}

/// Filtering keeps exactly the elements in `[lo, hi)` when those are the
/// only ones that satisfy `p`.
pub proof fn lemma_filter_range<T>(s: Seq<T>, p: spec_fn(T) -> bool, lo: int, hi: int)
    requires
        0 <= lo <= hi <= s.len(),
        forall|k: int| 0 <= k < s.len() ==> (p(#[trigger] s[k]) <==> lo <= k < hi),
    ensures
        s.filter(p) == s.subrange(lo, hi),
    decreases s.len(),
{
    reveal(Seq::filter);
    if s.len() == 0 {
        assert(s.subrange(lo, hi) =~= Seq::<T>::empty());
    } else {
        let d = s.drop_last();
        let last = s.len() - 1;
        if hi == s.len() && lo < hi {
            assert forall|k: int| 0 <= k < d.len() implies (p(#[trigger] d[k]) <==> lo <= k < hi
                - 1) by {
                assert(d[k] == s[k]);
            }
            lemma_filter_range(d, p, lo, hi - 1);
            assert(p(s[last]));
            assert(s.subrange(lo, hi) =~= d.subrange(lo, hi - 1).push(s[last]));
        } else {
            let h = if hi == s.len() {
                hi - 1
            } else {
                hi
            };
            let l = if lo > h {
                h
            } else {
                lo
            };
            assert forall|k: int| 0 <= k < d.len() implies (p(#[trigger] d[k]) <==> l <= k < h) by {
                assert(d[k] == s[k]);
            }
            lemma_filter_range(d, p, l, h);
            assert(!p(s[last]));
            assert(s.subrange(lo, hi) =~= d.subrange(l, h));
        }
    }
}

/// Filtering removes everything when nothing satisfies `p`.
pub proof fn lemma_filter_none<T>(s: Seq<T>, p: spec_fn(T) -> bool)
    requires
        forall|k: int| 0 <= k < s.len() ==> !p(#[trigger] s[k]),
    ensures
        s.filter(p) == Seq::<T>::empty(),
{
    lemma_filter_range(s, p, 0, 0);
    assert(s.subrange(0, 0) =~= Seq::<T>::empty());
}

/// Filtering with two predicates that agree on every element gives the
/// same result.
pub proof fn lemma_filter_same<T>(s: Seq<T>, p: spec_fn(T) -> bool, q: spec_fn(T) -> bool)
    requires
        forall|k: int| 0 <= k < s.len() ==> p(#[trigger] s[k]) == q(s[k]),
    ensures
        s.filter(p) == s.filter(q),
    decreases s.len(),
{
    reveal(Seq::filter);
    if s.len() > 0 {
        assert forall|k: int| 0 <= k < s.drop_last().len() implies p(
            #[trigger] s.drop_last()[k],
        ) == q(s.drop_last()[k]) by {
            assert(s.drop_last()[k] == s[k]);
        }
        lemma_filter_same(s.drop_last(), p, q);
        assert(p(s[s.len() - 1]) == q(s[s.len() - 1]));
    }
}

/// Mapping then filtering equals filtering by the composed predicate then
/// mapping.
pub proof fn lemma_filter_map<A, B>(s: Seq<A>, f: spec_fn(A) -> B, q: spec_fn(B) -> bool)
    ensures
        s.map_values(f).filter(q) == s.filter(|a: A| q(f(a))).map_values(f),
    decreases s.len(),
{
    reveal(Seq::filter);
    if s.len() > 0 {
        lemma_filter_map(s.drop_last(), f, q);
        assert(s.map_values(f).drop_last() =~= s.drop_last().map_values(f));
        let qf = |a: A| q(f(a));
        if qf(s.last()) {
            assert(s.filter(qf).map_values(f) =~= s.drop_last().filter(qf).map_values(f).push(
                f(s.last()),
            ));
        }
    } else {
        assert(s.map_values(f).filter(q) =~= Seq::<B>::empty());
        assert(s.filter(|a: A| q(f(a))).map_values(f) =~= Seq::<B>::empty());
    }
}

/// A filter keeps an element that satisfies the predicate.
proof fn lemma_filter_nonempty<T>(s: Seq<T>, p: spec_fn(T) -> bool, i: int)
    requires
        0 <= i < s.len(),
        p(s[i]),
    ensures
        s.filter(p).len() > 0,
{
    s.lemma_filter_contains(p, i);
}

/// A stable sort stays a stable sort when every element is replaced by
/// its image under `f` and the order compares images.
pub proof fn lemma_stable_sort_map<A, B>(
    r: Seq<A>,
    s: Seq<A>,
    f: spec_fn(A) -> B,
    le_b: spec_fn(B, B) -> bool,
)
    requires
        total_preorder(le_b),
        is_stable_sort(r, s, |x: A, y: A| le_b(f(x), f(y))),
    ensures
        is_stable_sort(r.map_values(f), s.map_values(f), le_b),
{
    let le_a = |x: A, y: A| le_b(f(x), f(y));
    let rm = r.map_values(f);
    let sm = s.map_values(f);
    assert forall|i: int, j: int| 0 <= i < j < rm.len() implies le_b(#[trigger] rm[i], #[trigger] rm[j]) by {
        assert(le_a(r[i], r[j]));
    }
    assert forall|y: B| #[trigger] ties(rm, le_b, y) == ties(sm, le_b, y) by {
        let q = |a: A| tied_with(le_b, y)(f(a));
        lemma_filter_map(r, f, tied_with(le_b, y));
        lemma_filter_map(s, f, tied_with(le_b, y));
        if exists|i: int| 0 <= i < r.len() && #[trigger] q(r[i]) {
            let i = choose|i: int| 0 <= i < r.len() && #[trigger] q(r[i]);
            let a0 = r[i];
            assert forall|k: int| 0 <= k < r.len() implies q(#[trigger] r[k]) == tied_with(le_a, a0)(r[k]) by {
                assert(le_b(f(a0), y) && le_b(y, f(a0)));
            }
            assert forall|k: int| 0 <= k < s.len() implies q(#[trigger] s[k]) == tied_with(le_a, a0)(s[k]) by {
                assert(le_b(f(a0), y) && le_b(y, f(a0)));
            }
            lemma_filter_same(r, q, tied_with(le_a, a0));
            lemma_filter_same(s, q, tied_with(le_a, a0));
            assert(ties(r, le_a, a0) == ties(s, le_a, a0));
        } else if exists|i: int| 0 <= i < s.len() && #[trigger] q(s[i]) {
            let i = choose|i: int| 0 <= i < s.len() && #[trigger] q(s[i]);
            let a0 = s[i];
            assert forall|k: int| 0 <= k < s.len() implies q(#[trigger] s[k]) == tied_with(le_a, a0)(s[k]) by {
                assert(le_b(f(a0), y) && le_b(y, f(a0)));
            }
            lemma_filter_same(s, q, tied_with(le_a, a0));
            assert(ties(r, le_a, a0) == ties(s, le_a, a0));
            assert(tied_with(le_a, a0)(a0));
            lemma_filter_nonempty(s, tied_with(le_a, a0), i);
            let t = ties(r, le_a, a0);
            assert(t.len() > 0);
            r.lemma_filter_pred(tied_with(le_a, a0), 0);
            r.lemma_filter_contains_rev(tied_with(le_a, a0), t[0]);
            let k = choose|k: int| 0 <= k < r.len() && r[k] == t[0];
            assert(q(r[k]));
        } else {
            lemma_filter_none(r, q);
            lemma_filter_none(s, q);
        }
    }
}

/// Inserting `x` at `j` into a sorted `p`, where everything before `j` is
/// at most `x` and everything from `j` on is strictly above it, keeps the
/// result sorted and appends `x` to its group of ties.
proof fn lemma_insert_step<T>(p: Seq<T>, x: T, j: int, le: spec_fn(T, T) -> bool)
    requires
        total_preorder(le),
        0 <= j <= p.len(),
        sorted_by_le(p, le),
        forall|k: int| 0 <= k < j ==> le(#[trigger] p[k], x),
        forall|k: int| j <= k < p.len() ==> !le(#[trigger] p[k], x),
    ensures
        sorted_by_le(p.insert(j, x), le),
        forall|c: T|
            #[trigger] ties(p.insert(j, x), le, c) == if tied_with(le, c)(x) {
                ties(p, le, c).push(x)
            } else {
                ties(p, le, c)
            },
{
    let q = p.insert(j, x);
    assert forall|a: int, b: int| 0 <= a < b < q.len() implies le(#[trigger] q[a], #[trigger] q[b]) by {
        if b < j {
            assert(le(p[a], p[b]));
        } else if b == j {
            assert(le(p[a], x));
        } else if a < j {
            assert(le(p[a], x));
            assert(!le(p[b - 1], x));
            assert(le(x, p[b - 1]));
        } else if a == j {
            assert(!le(p[b - 1], x));
            assert(le(x, p[b - 1]));
        } else {
            assert(le(p[a - 1], p[b - 1]));
        }
    }
    assert(q =~= p.take(j) + seq![x] + p.skip(j));
    assert(p =~= p.take(j) + p.skip(j));
    assert forall|c: T| #[trigger] ties(q, le, c) == if tied_with(le, c)(x) {
        ties(p, le, c).push(x)
    } else {
        ties(p, le, c)
    } by {
        let f = tied_with(le, c);
        Seq::filter_distributes_over_add(p.take(j) + seq![x], p.skip(j), f);
        Seq::filter_distributes_over_add(p.take(j), seq![x], f);
        Seq::filter_distributes_over_add(p.take(j), p.skip(j), f);
        reveal(Seq::filter);
        assert(seq![x].drop_last() =~= Seq::<T>::empty());
        if f(x) {
            assert forall|k: int| 0 <= k < p.skip(j).len() implies !f(#[trigger] p.skip(j)[k]) by {
                let y = p.skip(j)[k];
                assert(y == p[j + k]);
                assert(!le(y, x));
                if le(y, c) && le(c, x) {
                    assert(le(y, x));
                }
            }
            lemma_filter_none(p.skip(j), f);
            assert(ties(q, le, c) =~= ties(p, le, c).push(x));
        } else {
            assert(ties(q, le, c) =~= ties(p, le, c));
        }
    }
}

/// Every element of a stable sort occurs in the sorted sequence.
pub proof fn lemma_stable_sort_members<T>(r: Seq<T>, s: Seq<T>, le: spec_fn(T, T) -> bool)
    requires
        total_preorder(le),
        is_stable_sort(r, s, le),
    ensures
        forall|i: int| 0 <= i < r.len() ==> s.contains(#[trigger] r[i]),
{
    assert forall|i: int| 0 <= i < r.len() implies s.contains(#[trigger] r[i]) by {
        let x = r[i];
        let p = tied_with(le, x);
        assert(le(x, x));
        r.lemma_filter_contains(p, i);
        assert(ties(r, le, x) == ties(s, le, x));
        s.lemma_filter_contains_rev(p, x);
    }
}

/// Every element of the sorted sequence is still there after a stable sort.
pub proof fn lemma_stable_sort_keeps<T>(r: Seq<T>, s: Seq<T>, le: spec_fn(T, T) -> bool)
    requires
        total_preorder(le),
        is_stable_sort(r, s, le),
    ensures
        forall|i: int| 0 <= i < s.len() ==> r.contains(#[trigger] s[i]),
{
    assert forall|i: int| 0 <= i < s.len() implies r.contains(#[trigger] s[i]) by {
        let x = s[i];
        let p = tied_with(le, x);
        assert(le(x, x));
        s.lemma_filter_contains(p, i);
        assert(ties(r, le, x) == ties(s, le, x));
        r.lemma_filter_contains_rev(p, x);
    }
}

/// A sequence already ordered is its own stable sort.
pub proof fn lemma_sorted_is_stable_sort<T>(s: Seq<T>, le: spec_fn(T, T) -> bool)
    requires
        sorted_by_le(s, le),
    ensures
        is_stable_sort(s, s, le),
{
}

/// Where insertion sort puts `x` into the ordered `p`: after the last
/// element that `le` ranks at or before `x`.
pub open spec fn insert_pos<T>(p: Seq<T>, x: T, le: spec_fn(T, T) -> bool) -> int
    decreases p.len(),
{
    if p.len() == 0 {
        0
    } else if le(p.last(), x) {
        p.len() as int
    } else {
        insert_pos(p.drop_last(), x, le)
    }
}

proof fn lemma_insert_pos<T>(p: Seq<T>, x: T, le: spec_fn(T, T) -> bool)
    requires
        total_preorder(le),
        sorted_by_le(p, le),
    ensures
        0 <= insert_pos(p, x, le) <= p.len(),
        forall|k: int| 0 <= k < insert_pos(p, x, le) ==> le(#[trigger] p[k], x),
        forall|k: int| insert_pos(p, x, le) <= k < p.len() ==> !le(#[trigger] p[k], x),
    decreases p.len(),
{
    if p.len() > 0 {
        let q = p.drop_last();
        lemma_insert_pos(q, x, le);
        if le(p.last(), x) {
            assert forall|k: int| 0 <= k < p.len() implies le(#[trigger] p[k], x) by {
                if k < p.len() - 1 {
                    assert(le(p[k], p[p.len() - 1]));
                }
            }
        } else {
            assert forall|k: int| 0 <= k < insert_pos(p, x, le) implies le(#[trigger] p[k], x) by {
                assert(p[k] == q[k]);
            }
            assert forall|k: int| insert_pos(p, x, le) <= k < p.len() implies !le(#[trigger] p[k], x) by {
                if k < p.len() - 1 {
                    assert(p[k] == q[k]);
                }
            }
        }
    }
}

/// Every sequence has a stable sort by a total preorder.
pub proof fn lemma_stable_sort_exists<T>(s: Seq<T>, le: spec_fn(T, T) -> bool)
    requires
        total_preorder(le),
    ensures
        is_stable_sort(stable_sorted(s, le), s, le),
    decreases s.len(),
{
    if s.len() == 0 {
        assert(is_stable_sort(s, s, le));
    } else {
        let t = s.drop_last();
        let x = s.last();
        lemma_stable_sort_exists(t, le);
        let p = stable_sorted(t, le);
        lemma_insert_pos(p, x, le);
        let j = insert_pos(p, x, le);
        lemma_insert_step(p, x, j, le);
        let q = p.insert(j, x);
        assert(s =~= t.push(x));
        assert forall|c: T| #[trigger] ties(q, le, c) == ties(s, le, c) by {
            t.lemma_filter_push(x, tied_with(le, c));
            assert(ties(p, le, c) == ties(t, le, c));
        }
        assert(is_stable_sort(q, s, le));
    }
}

/// Sorts `v` stably by `le`, which `le_exec` computes.  Already ordered
/// input is handled in linear time.
pub fn stable_sort_by<T, F: Fn(&T, &T) -> bool>(
    v: &mut Vec<T>,
    le_exec: &F,
    Ghost(le): Ghost<spec_fn(T, T) -> bool>,
)
    requires
        total_preorder(le),
        forall|a: &T, b: &T| #[trigger] le_exec.requires((a, b)),
        forall|a: &T, b: &T, r: bool| le_exec.ensures((a, b), r) ==> r == le(*a, *b),
    ensures
        is_stable_sort(final(v)@, old(v)@, le),
{
    let n = v.len();
    let ghost s = v@;
    let mut i: usize = 0;
    proof {
        assert(v@.take(0) =~= s.take(0));
    }
    while i < n
        invariant
            n == s.len(),
            v@.len() == n,
            s == old(v)@,
            total_preorder(le),
            forall|a: &T, b: &T| #[trigger] le_exec.requires((a, b)),
            forall|a: &T, b: &T, r: bool| le_exec.ensures((a, b), r) ==> r == le(*a, *b),
            i <= n,
            v@.skip(i as int) == s.skip(i as int),
            sorted_by_le(v@.take(i as int), le),
            forall|x: T| #[trigger] ties(v@.take(i as int), le, x) == ties(s.take(i as int), le, x),
        decreases n - i,
    {
        let ghost p = v@.take(i as int);
        let ghost x = v@[i as int];
        assert(forall|c: T| #[trigger] ties(p, le, c) == ties(s.take(i as int), le, c));
        proof {
            assert(x == s[i as int]) by {
                assert(v@.skip(i as int)[0] == s.skip(i as int)[0]);
            }
        }
        let mut j = i;
        while j > 0 && !le_exec(&v[j - 1], &v[i])
            invariant
                j <= i < n,
                v@.len() == n,
                p == v@.take(i as int),
                x == v@[i as int],
                forall|a: &T, b: &T| #[trigger] le_exec.requires((a, b)),
                forall|a: &T, b: &T, r: bool| le_exec.ensures((a, b), r) ==> r == le(*a, *b),
                forall|k: int| j <= k < i ==> !le(#[trigger] p[k], x),
            decreases j,
        {
            j -= 1;
        }
        proof {
            assert forall|k: int| 0 <= k < j implies le(#[trigger] p[k], x) by {
                assert(le(p[j - 1], x));
                if k < j - 1 {
                    assert(le(p[k], p[j - 1]));
                }
            }
            lemma_insert_step(p, x, j as int, le);
        }
        if j < i {
            let e = v.remove(i);
            v.insert(j, e);
        }
        proof {
            let q = p.insert(j as int, x);
            assert(v@.take(i + 1) =~= q);
            assert(s.take(i + 1) =~= s.take(i as int).push(x));
            assert(v@.skip(i + 1) =~= s.skip(i + 1)) by {
                assert forall|k: int| 0 <= k < v@.skip(i + 1).len() implies #[trigger] v@.skip(i + 1)[k]
                    == s.skip(i + 1)[k] by {
                    assert(v@.skip(i as int)[k + 1] == s.skip(i as int)[k + 1]);
                }
            }
            assert forall|c: T| #[trigger] ties(v@.take(i + 1), le, c) == ties(
                s.take(i + 1),
                le,
                c,
            ) by {
                assert(ties(p, le, c) == ties(s.take(i as int), le, c));
                assert(ties(q, le, c) == if tied_with(le, c)(x) {
                    ties(p, le, c).push(x)
                } else {
                    ties(p, le, c)
                });
                s.take(i as int).lemma_filter_push(x, tied_with(le, c));
            }
        }
        i += 1;
    }
    proof {
        assert(v@.take(n as int) =~= v@);
        assert(s.take(n as int) =~= s);
    }
}

} // verus!
