//! Lexicographic order on character sequences (the order of `str`'s `Ord`,
//! which compares UTF-8 bytes and so agrees with comparing scalar values),
//! and prefix tests.
use vstd::prelude::*;

verus! {

/// `a` sorts strictly before `b`.
pub open spec fn chars_lt(a: Seq<char>, b: Seq<char>) -> bool
    decreases a.len(),
{
    if a.len() == 0 {
        b.len() > 0
    } else if b.len() == 0 {
        false
    } else if a[0] != b[0] {
        a[0] < b[0]
    } else {
        chars_lt(a.drop_first(), b.drop_first())
    }
}

/// `a` sorts before `b` or equals it.
pub open spec fn chars_le(a: Seq<char>, b: Seq<char>) -> bool {
    a == b || chars_lt(a, b)
}

pub proof fn lemma_lt_irreflexive(a: Seq<char>)
    ensures
        !chars_lt(a, a),
    decreases a.len(),
{
    if a.len() > 0 {
        lemma_lt_irreflexive(a.drop_first());
    }
}

pub proof fn lemma_lt_asymmetric(a: Seq<char>, b: Seq<char>)
    ensures
        !(chars_lt(a, b) && chars_lt(b, a)),
    decreases a.len(),
{
    if a.len() > 0 && b.len() > 0 && a[0] == b[0] {
        lemma_lt_asymmetric(a.drop_first(), b.drop_first());
    }
}

pub proof fn lemma_lt_total(a: Seq<char>, b: Seq<char>)
    ensures
        chars_lt(a, b) || a == b || chars_lt(b, a),
    decreases a.len(),
{
    if a.len() > 0 && b.len() > 0 && a[0] == b[0] {
        lemma_lt_total(a.drop_first(), b.drop_first());
        if a.drop_first() == b.drop_first() {
            assert(a =~= seq![a[0]] + a.drop_first());
            assert(b =~= seq![b[0]] + b.drop_first());
        }
    } else if a.len() == 0 && b.len() == 0 {
        assert(a =~= b);
    }
}

pub proof fn lemma_lt_transitive(a: Seq<char>, b: Seq<char>, c: Seq<char>)
    requires
        chars_lt(a, b),
        chars_lt(b, c),
    ensures
        chars_lt(a, c),
    decreases a.len(),
{
    if a.len() > 0 && b.len() > 0 && c.len() > 0 && a[0] == b[0] && b[0] == c[0] {
        lemma_lt_transitive(a.drop_first(), b.drop_first(), c.drop_first());
    }
}

/// `chars_le` is a total order.
pub proof fn lemma_le_order()
    ensures
        forall|a: Seq<char>, b: Seq<char>| #[trigger] chars_le(a, b) || chars_le(b, a),
        forall|a: Seq<char>, b: Seq<char>|
            chars_le(a, b) && chars_le(b, a) ==> #[trigger] chars_le(a, b) && a == b,
        forall|a: Seq<char>, b: Seq<char>, c: Seq<char>|
            #[trigger] chars_le(a, b) && #[trigger] chars_le(b, c) ==> chars_le(a, c),
        forall|a: Seq<char>, b: Seq<char>| #[trigger] chars_lt(a, b) ==> !chars_le(b, a),
        forall|a: Seq<char>, b: Seq<char>| !#[trigger] chars_lt(a, b) ==> chars_le(b, a),
{
    assert forall|a: Seq<char>, b: Seq<char>| #[trigger] chars_le(a, b) || chars_le(b, a) by {
        lemma_lt_total(a, b);
    }
    assert forall|a: Seq<char>, b: Seq<char>|
        chars_le(a, b) && chars_le(b, a) implies #[trigger] chars_le(a, b) && a == b by {
        lemma_lt_asymmetric(a, b);
    }
    assert forall|a: Seq<char>, b: Seq<char>, c: Seq<char>|
        #[trigger] chars_le(a, b) && #[trigger] chars_le(b, c) implies chars_le(a, c) by {
        if chars_lt(a, b) && chars_lt(b, c) {
            lemma_lt_transitive(a, b, c);
        }
    }
    assert forall|a: Seq<char>, b: Seq<char>| #[trigger] chars_lt(a, b) implies !chars_le(b, a) by {
        lemma_lt_asymmetric(a, b);
        lemma_lt_irreflexive(a);
    }
    assert forall|a: Seq<char>, b: Seq<char>| !#[trigger] chars_lt(a, b) implies chars_le(b, a) by {
        lemma_lt_total(a, b);
    }
}

/// A prefix sorts no later than the sequence it starts.
pub proof fn lemma_prefix_le(p: Seq<char>, x: Seq<char>)
    requires
        p.is_prefix_of(x),
    ensures
        chars_le(p, x),
    decreases p.len(),
{
    if p.len() == 0 {
        if x.len() > 0 {
            assert(chars_lt(p, x));
        } else {
            assert(p =~= x);
        }
    } else {
        assert(p[0] == x[0]);
        assert(p.drop_first().is_prefix_of(x.drop_first())) by {
            assert(p.drop_first() =~= x.drop_first().subrange(0, p.drop_first().len() as int));
        }
        lemma_prefix_le(p.drop_first(), x.drop_first());
        if p.drop_first() == x.drop_first() {
            assert(p =~= x);
        }
    }
}

/// The sequences that start with `p` form an interval of the order.
pub proof fn lemma_prefix_interval(p: Seq<char>, y: Seq<char>, x: Seq<char>)
    requires
        p.is_prefix_of(x),
        chars_le(p, y),
        chars_le(y, x),
    ensures
        p.is_prefix_of(y),
    decreases p.len(),
{
    if p.len() == 0 {
    } else if y == x {
    } else if p == y {
    } else {
        assert(x.len() > 0 && x[0] == p[0]);
        assert(y.len() > 0);
        assert(chars_lt(p, y));
        assert(chars_lt(y, x));
        assert(p[0] <= y[0]);
        assert(y[0] <= x[0]);
        assert(y[0] == p[0]);
        assert(chars_le(p.drop_first(), y.drop_first()));
        assert(chars_le(y.drop_first(), x.drop_first()));
        assert(p.drop_first().is_prefix_of(x.drop_first())) by {
            assert(p.drop_first() =~= x.drop_first().subrange(0, p.drop_first().len() as int));
        }
        lemma_prefix_interval(p.drop_first(), y.drop_first(), x.drop_first());
        assert(p =~= y.subrange(0, p.len() as int)) by {
            assert forall|k: int| 0 <= k < p.len() implies p[k] == y[k] by {
                if k > 0 {
                    assert(p.drop_first()[k - 1] == y.drop_first()[k - 1]);
                }
            }
        }
    }
}

proof fn lemma_lt_skip_common(a: Seq<char>, b: Seq<char>, i: int)
    requires
        0 <= i <= a.len(),
        i <= b.len(),
        a.take(i) == b.take(i),
    ensures
        chars_lt(a, b) == chars_lt(a.skip(i), b.skip(i)),
    decreases i,
{
    if i > 0 {
        assert(a[0] == a.take(i)[0]);
        assert(b[0] == b.take(i)[0]);
        assert(a.drop_first().take(i - 1) =~= a.take(i).drop_first());
        assert(b.drop_first().take(i - 1) =~= b.take(i).drop_first());
        lemma_lt_skip_common(a.drop_first(), b.drop_first(), i - 1);
        assert(a.drop_first().skip(i - 1) =~= a.skip(i));
        assert(b.drop_first().skip(i - 1) =~= b.skip(i));
    } else {
        assert(a.skip(0) =~= a);
        assert(b.skip(0) =~= b);
    }
}

/// Whether `a` sorts strictly before `b`.
pub fn chars_less(a: &[char], b: &[char]) -> (r: bool)
    ensures
        r == chars_lt(a@, b@),
{
    let mut i: usize = 0;
    while i < a.len() && i < b.len() && a[i] == b[i]
        invariant
            i <= a@.len(),
            i <= b@.len(),
            a@.take(i as int) == b@.take(i as int),
        decreases a@.len() - i,
    {
        assert(a@.take(i + 1) =~= a@.take(i as int).push(a@[i as int]));
        assert(b@.take(i + 1) =~= b@.take(i as int).push(b@[i as int]));
        i += 1;
    }
    proof {
        lemma_lt_skip_common(a@, b@, i as int);
    }
    if i == a.len() {
        i < b.len()
    } else if i == b.len() {
        false
    } else {
        proof {
            assert(a@.skip(i as int)[0] == a@[i as int]);
            assert(b@.skip(i as int)[0] == b@[i as int]);
        }
        a[i] < b[i]
    }
}

/// Whether `s` starts with `p`.
pub fn has_prefix(s: &[char], p: &[char]) -> (r: bool)
    ensures
        r == p@.is_prefix_of(s@),
{
    if p.len() > s.len() {
        return false;
    }
    let mut i: usize = 0;
    while i < p.len()
        invariant
            p@.len() <= s@.len(),
            i <= p@.len(),
            forall|k: int| 0 <= k < i ==> p@[k] == s@[k],
        decreases p@.len() - i,
    {
        if p[i] != s[i] {
            return false;
        }
        i += 1;
    }
    assert(p@ =~= s@.subrange(0, p@.len() as int));
    true
}

} // verus!
