//! Lexicographic order on character sequences, the order `str` and file
//! names sort by, and a verified sort that realises it.

use vstd::prelude::*;
use vstd::relations::{sorted_by, total_ordering};

verus! {

/// `a <= b` in code-point lexicographic order, the order of `str` and of
/// UTF-8 byte strings.
pub open spec fn lex_le(a: Seq<char>, b: Seq<char>) -> bool
    decreases a.len(),
{
    if a.len() == 0 {
        true
    } else if b.len() == 0 {
        false
    } else if a[0] != b[0] {
        a[0] < b[0]
    } else {
        lex_le(a.drop_first(), b.drop_first())
    }
}

/// The relation `lex_le` as a value, for the library's sort specs.
pub open spec fn lex_order() -> spec_fn(Seq<char>, Seq<char>) -> bool {
    |a: Seq<char>, b: Seq<char>| lex_le(a, b)
}

/// `s` sorted ascending.
pub open spec fn sorted_names(s: Seq<Seq<char>>) -> Seq<Seq<char>> {
    s.sort_by(lex_order())
}

proof fn lemma_lex_refl(a: Seq<char>)
    ensures
        lex_le(a, a),
    decreases a.len(),
{
    if a.len() > 0 {
        lemma_lex_refl(a.drop_first());
    }
}

pub proof fn lemma_lex_antisym(a: Seq<char>, b: Seq<char>)
    requires
        lex_le(a, b),
        lex_le(b, a),
    ensures
        a == b,
    decreases a.len(),
{
    if a.len() > 0 && b.len() > 0 {
        if a[0] == b[0] {
            lemma_lex_antisym(a.drop_first(), b.drop_first());
            assert(a =~= seq![a[0]] + a.drop_first());
            assert(b =~= seq![b[0]] + b.drop_first());
        }
    } else {
        assert(a =~= b);
    }
}

pub proof fn lemma_lex_trans(a: Seq<char>, b: Seq<char>, c: Seq<char>)
    requires
        lex_le(a, b),
        lex_le(b, c),
    ensures
        lex_le(a, c),
    decreases a.len(),
{
    if a.len() > 0 && b.len() > 0 && c.len() > 0 {
        if a[0] == b[0] && b[0] == c[0] {
            lemma_lex_trans(a.drop_first(), b.drop_first(), c.drop_first());
        }
    }
}

pub proof fn lemma_lex_total(a: Seq<char>, b: Seq<char>)
    ensures
        lex_le(a, b) || lex_le(b, a),
    decreases a.len(),
{
    if a.len() > 0 && b.len() > 0 {
        if a[0] == b[0] {
            lemma_lex_total(a.drop_first(), b.drop_first());
        }
    }
}

/// `lex_le` is a total order.
pub proof fn lemma_lex_total_ordering()
    ensures
        total_ordering(lex_order()),
{
    let r = lex_order();
    assert forall|a: Seq<char>| #[trigger] r(a, a) by {
        lemma_lex_refl(a);
    }
    assert forall|a: Seq<char>, b: Seq<char>| #[trigger] r(a, b) && #[trigger] r(b, a) implies a
        == b by {
        lemma_lex_antisym(a, b);
    }
    assert forall|a: Seq<char>, b: Seq<char>, c: Seq<char>|
        #[trigger] r(a, b) && #[trigger] r(b, c) implies r(a, c) by {
        lemma_lex_trans(a, b, c);
    }
    assert forall|a: Seq<char>, b: Seq<char>| #[trigger] r(a, b) || #[trigger] r(b, a) by {
        lemma_lex_total(a, b);
    }
}

/// `a < b` in the same order.
pub open spec fn lex_lt(a: Seq<char>, b: Seq<char>) -> bool {
    lex_le(a, b) && a != b
}

/// A strictly smaller head of the same length decides the order, whatever
/// follows.
pub proof fn lemma_lex_lt_extend(a: Seq<char>, b: Seq<char>, ra: Seq<char>, rb: Seq<char>)
    requires
        a.len() == b.len(),
        lex_lt(a, b),
    ensures
        lex_lt(a + ra, b + rb),
    decreases a.len(),
{
    if a.len() == 0 {
        assert(a =~= b);
    } else if a[0] != b[0] {
        assert((a + ra)[0] == a[0] && (b + rb)[0] == b[0]);
    } else {
        assert(a =~= seq![a[0]] + a.drop_first());
        assert(b =~= seq![b[0]] + b.drop_first());
        assert(a.drop_first() != b.drop_first());
        lemma_lex_lt_extend(a.drop_first(), b.drop_first(), ra, rb);
        assert((a + ra).drop_first() =~= a.drop_first() + ra);
        assert((b + rb).drop_first() =~= b.drop_first() + rb);
        assert((a + ra)[0] == (b + rb)[0]);
    }
}

/// A common prefix does not change the order.
pub proof fn lemma_lex_lt_prefix(p: Seq<char>, a: Seq<char>, b: Seq<char>)
    requires
        lex_lt(a, b),
    ensures
        lex_lt(p + a, p + b),
    decreases p.len(),
{
    if p.len() == 0 {
        assert(p + a =~= a);
        assert(p + b =~= b);
    } else {
        lemma_lex_lt_prefix(p.drop_first(), a, b);
        assert((p + a).drop_first() =~= p.drop_first() + a);
        assert((p + b).drop_first() =~= p.drop_first() + b);
        assert((p + a)[0] == (p + b)[0]);
        if p + a == p + b {
            assert((p + a).drop_first() == (p + b).drop_first());
        }
    }
}

/// Compares two character sequences.
pub fn lex_le_exec(a: &Vec<char>, b: &Vec<char>) -> (r: bool)
    ensures
        r == lex_le(a@, b@),
{
    let mut i: usize = 0;
    assert(a@.skip(0) =~= a@);
    assert(b@.skip(0) =~= b@);
    while i < a.len() && i < b.len() && a[i] == b[i]
        invariant
            i <= a@.len(),
            i <= b@.len(),
            lex_le(a@.skip(i as int), b@.skip(i as int)) == lex_le(a@, b@),
        decreases a@.len() - i,
    {
        assert(a@.skip(i as int).drop_first() =~= a@.skip(i + 1));
        assert(b@.skip(i as int).drop_first() =~= b@.skip(i + 1));
        i += 1;
    }
    if i == a.len() {
        true
    } else if i == b.len() {
        false
    } else {
        a[i] < b[i]
    }
}

proof fn lemma_sorted_insert(s: Seq<Seq<char>>, p: int, x: Seq<char>)
    requires
        sorted_by(s, lex_order()),
        0 <= p <= s.len(),
        forall|j: int| 0 <= j < p ==> lex_le(#[trigger] s[j], x),
        p < s.len() ==> !lex_le(s[p], x),
    ensures
        sorted_by(s.insert(p, x), lex_order()),
{
    lemma_lex_total_ordering();
    let t = s.insert(p, x);
    assert forall|i: int, j: int| 0 <= i < j < t.len() implies #[trigger] lex_order()(
        t[i],
        t[j],
    ) by {
        if i < p && j == p {
        } else if j < p {
            assert(lex_order()(s[i], s[j]));
        } else if i < p && j > p {
            assert(t[j] == s[j - 1]);
            assert(lex_order()(s[i], s[j - 1]));
        } else if i == p {
            assert(t[j] == s[j - 1]);
            lemma_lex_total(s[p], x);
            if j - 1 > p {
                assert(lex_order()(s[p], s[j - 1]));
                lemma_lex_trans(x, s[p], s[j - 1]);
            }
        } else {
            assert(t[i] == s[i - 1]);
            assert(t[j] == s[j - 1]);
            assert(lex_order()(s[i - 1], s[j - 1]));
        }
    }
}

/// `v` sorted ascending in `lex_le` order.
pub fn sort_chars(v: &Vec<Vec<char>>) -> (r: Vec<Vec<char>>)
    ensures
        r.deep_view() == sorted_names(v.deep_view()),
{
    let ghost src = v.deep_view();
    let mut r: Vec<Vec<char>> = Vec::new();
    let mut i: usize = 0;
    proof {
        lemma_lex_total_ordering();
    }
    assert(src.take(0) =~= Seq::<Seq<char>>::empty());
    assert(r.deep_view() =~= src.take(0));
    while i < v.len()
        invariant
            i <= v@.len(),
            src == v.deep_view(),
            sorted_by(r.deep_view(), lex_order()),
            r.deep_view().to_multiset() == src.take(i as int).to_multiset(),
            total_ordering(lex_order()),
        decreases v@.len() - i,
    {
        let x = v[i].clone();
        assert(x@ == src[i as int]);
        let mut p: usize = 0;
        while p < r.len() && lex_le_exec(&r[p], &x)
            invariant
                p <= r@.len(),
                forall|j: int| 0 <= j < p ==> lex_le(#[trigger] r.deep_view()[j], x@),
            decreases r@.len() - p,
        {
            assert(r.deep_view()[p as int] == r@[p as int]@);
            p += 1;
        }
        assert(p < r@.len() ==> r.deep_view()[p as int] == r@[p as int]@);
        let ghost before = r.deep_view();
        proof {
            lemma_sorted_insert(before, p as int, x@);
            vstd::seq_lib::to_multiset_insert(before, p as int, x@);
        }
        r.insert(p, x);
        assert(x.deep_view() =~= x@);
        assert(r.deep_view() =~= before.insert(p as int, x@));
        assert(src.take(i + 1) =~= src.take(i as int).push(src[i as int]));
        proof {
            vstd::seq_lib::to_multiset_build(src.take(i as int), src[i as int]);
        }
        i += 1;
    }
    assert(src.take(i as int) =~= src);
    proof {
        src.lemma_sort_by_ensures(lex_order());
        vstd::seq_lib::lemma_sorted_unique(r.deep_view(), src.sort_by(lex_order()), lex_order());
    }
    r
}

} // verus!
