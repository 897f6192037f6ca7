//! Sorting.

use vstd::prelude::*;
use vstd::multiset::Multiset;

use crate::text::{comes_before, text_lt};

verus! {

/// `x` put into `s` behind everything that it is not before.
pub open spec fn insert_sorted<V>(s: Seq<V>, x: V, before: spec_fn(V, V) -> bool) -> Seq<V>
    decreases s.len(),
{
    if s.len() > 0 && before(x, s.last()) {
        insert_sorted(s.drop_last(), x, before).push(s.last())
    } else {
        s.push(x)
    }
}

/// `s` in the order `before`; items of which neither is before the other keep
/// the order in which they stand in `s`.
pub open spec fn sorted<V>(s: Seq<V>, before: spec_fn(V, V) -> bool) -> Seq<V>
    decreases s.len(),
{
    if s.len() == 0 {
        s
    } else {
        insert_sorted(sorted(s.drop_last(), before), s.last(), before)
    }
}

/// Is `before` an order in which ties are transitive?
pub open spec fn weak_order<V>(before: spec_fn(V, V) -> bool) -> bool {
    &&& forall|a: V, b: V| #[trigger] before(a, b) ==> !before(b, a)
    &&& forall|a: V, b: V, c: V| #![trigger before(a, b), before(c, b)] before(a, b) && !before(c, b) ==> before(a, c)
}

/// Types with an order of their own.
pub trait Ranked: DeepView + Sized {
    /// Is `a` strictly before `b`?
    spec fn before(a: Self::V, b: Self::V) -> bool;

    /// Is `self` strictly before `other`?
    fn is_before(&self, other: &Self) -> (r: bool)
        ensures
            r == Self::before(self.deep_view(), other.deep_view()),
    ;
}

/// The order of `T`.
pub open spec fn rank<T: Ranked>() -> spec_fn(T::V, T::V) -> bool {
    |a: T::V, b: T::V| T::before(a, b)
}

/// Sorts `v`, keeping the order of ties.
pub fn stable_sort<T: Ranked>(v: Vec<T>) -> (r: Vec<T>)
    ensures
        r.deep_view() == sorted(v.deep_view(), rank::<T>()),
{
    let ghost all = v.deep_view();
    let mut rest = v;
    let mut out: Vec<T> = Vec::new();
    let ghost mut done: int = 0;
    assert(out.deep_view() =~= sorted(all.take(0), rank::<T>()));
    while rest.len() > 0
        invariant
            0 <= done <= all.len(),
            rest.deep_view() =~= all.skip(done),
            out.deep_view() == sorted(all.take(done), rank::<T>()),
        decreases rest@.len(),
    {
        let ghost r0 = rest@;
        let ghost rv = rest.deep_view();
        assert(rv.len() == all.skip(done).len());
        let x = rest.remove(0);
        proof {
            assert(rv == all.skip(done));
            assert(rv[0] == x.deep_view());
            assert(rest@ =~= r0.skip(1));
            assert(rest.deep_view() =~= rv.skip(1));
            assert(rest.deep_view() =~= all.skip(done + 1));
            assert(all.take(done + 1).drop_last() =~= all.take(done));
            assert(all.take(done + 1).last() == x.deep_view());
        }
        let n = out.len();
        let mut pos: usize = n;
        let ghost o0 = out.deep_view();
        assert(o0.take(n as int) =~= o0);
        assert(insert_sorted(o0, x.deep_view(), rank::<T>()) =~= insert_sorted(
            o0.take(n as int),
            x.deep_view(),
            rank::<T>(),
        ) + o0.skip(n as int));
        while pos > 0 && x.is_before(&out[pos - 1])
            invariant
                pos <= n == out@.len(),
                o0 == out.deep_view(),
                insert_sorted(o0, x.deep_view(), rank::<T>()) == insert_sorted(
                    o0.take(pos as int),
                    x.deep_view(),
                    rank::<T>(),
                ) + o0.skip(pos as int),
            decreases pos,
        {
            proof {
                assert(o0.take(pos as int).drop_last() =~= o0.take(pos - 1));
                assert(insert_sorted(o0.take(pos as int), x.deep_view(), rank::<T>())
                    + o0.skip(pos as int) =~= insert_sorted(
                    o0.take(pos - 1),
                    x.deep_view(),
                    rank::<T>(),
                ) + o0.skip(pos - 1));
            }
            pos -= 1;
        }
        proof {
            if pos > 0 {
                assert(o0.take(pos as int).last() == out@[pos - 1].deep_view());
            }
            assert(insert_sorted(o0, x.deep_view(), rank::<T>()) =~= o0.take(pos as int).push(
                x.deep_view(),
            ) + o0.skip(pos as int));
        }
        let ghost xv = x.deep_view();
        let ghost out0 = out@;
        out.insert(pos, x);
        proof {
            assert(out.deep_view() =~= o0.take(pos as int).push(xv) + o0.skip(pos as int));
            done = done + 1;
        }
    }
    assert(all.take(done) =~= all);
    out
}

impl Ranked for String {
    open spec fn before(a: Seq<char>, b: Seq<char>) -> bool {
        text_lt(a, b)
    }

    fn is_before(&self, other: &Self) -> (r: bool) {
        comes_before(self.as_str(), other.as_str())
    }
}

/// `s` in text order.
pub open spec fn sorted_texts(s: Seq<Seq<char>>) -> Seq<Seq<char>> {
    sorted(s, |a: Seq<char>, b: Seq<char>| text_lt(a, b))
}

/// `s` with every run of equal neighbours cut down to its first item.
pub open spec fn deduped<V>(s: Seq<V>) -> Seq<V>
    decreases s.len(),
{
    if s.len() < 2 {
        s
    } else if s.last() == s[s.len() - 2] {
        deduped(s.drop_last())
    } else {
        deduped(s.drop_last()).push(s.last())
    }
}

/// Sorts strings.
pub fn sort_texts(v: Vec<String>) -> (r: Vec<String>)
    ensures
        r.deep_view() == sorted_texts(v.deep_view()),
{
    let ghost f = |a: Seq<char>, b: Seq<char>| text_lt(a, b);
    let r = stable_sort(v);
    assert(rank::<String>() =~= f);
    r
}

/// Cuts every run of equal strings down to one.
pub fn dedup_texts(v: &Vec<String>) -> (r: Vec<String>)
    ensures
        r.deep_view() == deduped(v.deep_view()),
{
    let ghost all = v.deep_view();
    let mut out: Vec<String> = Vec::new();
    let mut i: usize = 0;
    assert(out.deep_view() =~= deduped(all.take(0)));
    while i < v.len()
        invariant
            all == v.deep_view(),
            i <= v@.len(),
            out.deep_view() == deduped(all.take(i as int)),
        decreases v@.len() - i,
    {
        let ghost o0 = out.deep_view();
        assert(all.take(i + 1).drop_last() =~= all.take(i as int));
        if i == 0 || !crate::text::same(v[i].as_str(), v[i - 1].as_str()) {
            out.push(v[i].clone());
            assert(out.deep_view() =~= o0.push(all[i as int]));
        }
        if i == 0 {
            assert(out.deep_view() =~= all.take(1));
        }
        i += 1;
    }
    assert(all.take(i as int) =~= all);
    out
}

// ----------------------------------------------------------------------- laws

/// Putting an item in keeps the rest.
proof fn lemma_insert_keeps<V>(s: Seq<V>, x: V, before: spec_fn(V, V) -> bool)
    ensures
        insert_sorted(s, x, before).to_multiset() == s.push(x).to_multiset(),
        insert_sorted(s, x, before).len() == s.len() + 1,
    decreases s.len(),
{
    broadcast use vstd::seq_lib::group_to_multiset_ensures;

    if s.len() > 0 && before(x, s.last()) {
        lemma_insert_keeps(s.drop_last(), x, before);
        assert(s.drop_last().push(s.last()) =~= s);
        assert(insert_sorted(s, x, before).to_multiset() =~= s.push(x).to_multiset());
    }
}

/// Sorting loses nothing and adds nothing.
pub proof fn law_sorted_keeps<V>(s: Seq<V>, before: spec_fn(V, V) -> bool)
    ensures
        sorted(s, before).to_multiset() == s.to_multiset(),
        sorted(s, before).len() == s.len(),
    decreases s.len(),
{
    broadcast use vstd::seq_lib::group_to_multiset_ensures;

    if s.len() > 0 {
        law_sorted_keeps(s.drop_last(), before);
        lemma_insert_keeps(sorted(s.drop_last(), before), s.last(), before);
        assert(s.drop_last().push(s.last()) =~= s);
        assert(sorted(s, before).to_multiset() =~= s.to_multiset());
    }
}

proof fn lemma_insert_ordered<V>(s: Seq<V>, x: V, before: spec_fn(V, V) -> bool)
    requires
        weak_order(before),
        forall|i: int, j: int| 0 <= i < j < s.len() ==> !before(#[trigger] s[j], #[trigger] s[i]),
    ensures
        forall|i: int, j: int|
            0 <= i < j < s.len() + 1 ==> !before(
                #[trigger] insert_sorted(s, x, before)[j],
                #[trigger] insert_sorted(s, x, before)[i],
            ),
        insert_sorted(s, x, before).len() == s.len() + 1,
        forall|i: int|
            0 <= i < s.len() + 1 ==> #[trigger] insert_sorted(s, x, before)[i] == x || s.contains(
                insert_sorted(s, x, before)[i],
            ),
    decreases s.len(),
{
    let r = insert_sorted(s, x, before);
    if s.len() > 0 && before(x, s.last()) {
        let q = insert_sorted(s.drop_last(), x, before);
        lemma_insert_ordered(s.drop_last(), x, before);
        assert forall|i: int, j: int| 0 <= i < j < s.len() + 1 implies !before(
            #[trigger] r[j],
            #[trigger] r[i],
        ) by {
            if j == s.len() {
                assert(r[i] == q[i]);
                if q[i] != x {
                    let k = choose|k: int| 0 <= k < s.drop_last().len() && s.drop_last()[k] == q[i];
                    assert(s[k] == q[i]);
                }
            } else {
                assert(r[i] == q[i] && r[j] == q[j]);
            }
        }
        assert forall|i: int| 0 <= i < s.len() + 1 implies #[trigger] r[i] == x || s.contains(r[i]) by {
            if i == s.len() {
                assert(s[s.len() - 1] == r[i]);
            } else {
                assert(r[i] == q[i]);
                if q[i] != x {
                    let k = choose|k: int| 0 <= k < s.drop_last().len() && s.drop_last()[k] == q[i];
                    assert(s[k] == q[i]);
                }
            }
        }
    } else {
        assert forall|i: int, j: int| 0 <= i < j < s.len() + 1 implies !before(
            #[trigger] r[j],
            #[trigger] r[i],
        ) by {
            if j == s.len() {
                if before(x, s[i]) && s.len() > 0 {
                    if i < s.len() - 1 {
                        assert(!before(s[s.len() - 1], s[i]));
                    }
                    assert(before(x, s.last()));
                }
            } else {
                assert(r[i] == s[i] && r[j] == s[j]);
            }
        }
        assert forall|i: int| 0 <= i < s.len() + 1 implies #[trigger] r[i] == x || s.contains(r[i]) by {
            if i < s.len() {
                assert(s[i] == r[i]);
            }
        }
    }
}

/// After sorting, nothing stands behind something that it is before.
pub proof fn law_sorted_ordered<V>(s: Seq<V>, before: spec_fn(V, V) -> bool)
    requires
        weak_order(before),
    ensures
        forall|i: int, j: int|
            0 <= i < j < sorted(s, before).len() ==> !before(
                #[trigger] sorted(s, before)[j],
                #[trigger] sorted(s, before)[i],
            ),
    decreases s.len(),
{
    if s.len() > 0 {
        law_sorted_ordered(s.drop_last(), before);
        lemma_insert_ordered(sorted(s.drop_last(), before), s.last(), before);
    }
}

/// Does the order tell any two things apart?
pub open spec fn tells_apart<V>(before: spec_fn(V, V) -> bool) -> bool {
    forall|a: V, b: V| #![trigger before(a, b)] a != b ==> before(a, b) || before(b, a)
}

/// Where the order tells everything apart, sorting forgets in which order things came.
pub proof fn law_sorting_forgets_order<V>(a: Seq<V>, b: Seq<V>, before: spec_fn(V, V) -> bool)
    requires
        weak_order(before),
        tells_apart(before),
        a.to_multiset() == b.to_multiset(),
    ensures
        sorted(a, before) == sorted(b, before),
{
    let leq = |x: V, y: V| !before(y, x);
    let x = sorted(a, before);
    let y = sorted(b, before);
    law_sorted_keeps(a, before);
    law_sorted_keeps(b, before);
    law_sorted_ordered(a, before);
    law_sorted_ordered(b, before);
    assert(vstd::relations::total_ordering(leq));
    assert(vstd::relations::sorted_by(x, leq));
    assert(vstd::relations::sorted_by(y, leq));
    vstd::seq_lib::lemma_sorted_unique(x, y, leq);
}

/// How often something passes a test among other things.
pub proof fn law_filter_counts<V>(s: Seq<V>, p: spec_fn(V) -> bool, x: V)
    ensures
        s.filter(p).to_multiset().count(x) == if p(x) {
            s.to_multiset().count(x)
        } else {
            0
        },
    decreases s.len(),
{
    broadcast use vstd::seq_lib::group_to_multiset_ensures;

    let none = Seq::<V>::empty();
    if s.len() > 0 {
        let init = s.drop_last();
        law_filter_counts(init, p, x);
        init.lemma_filter_push(s.last(), p);
        assert(s =~= init.push(s.last()));
    } else {
        assert(s =~= none);
        assert(none.filter(p) =~= none);
    }
}

/// The text order is one that sorting can use.
pub proof fn law_text_order_sorts()
    ensures
        weak_order(|a: Seq<char>, b: Seq<char>| text_lt(a, b)),
{
    let f = |a: Seq<char>, b: Seq<char>| text_lt(a, b);
    assert forall|a: Seq<char>, b: Seq<char>| #[trigger] f(a, b) implies !f(b, a) by {
        crate::text::law_text_order_total(a, b);
    }
    assert forall|a: Seq<char>, b: Seq<char>, c: Seq<char>|
        #![trigger f(a, b), f(c, b)]
        f(a, b) && !f(c, b) implies f(a, c) by {
        crate::text::law_text_order_total(c, b);
        if c != b {
            crate::text::law_text_order_transitive(a, b, c);
        }
    }
}

} // verus!
