//! What dependency cycles promise: everything reported is one, and every one is
//! reported.

use vstd::prelude::*;
use vstd::relations::{sorted_by, total_ordering};

use crate::depends::{
    cycles_from, from_first, is_cycle, is_end, is_path, is_way, leads, lemma_few, loops, loops_by,
    loops_from, needs, nexts, once,
};
use crate::order::{law_sorted_keeps, law_sorted_ordered, law_text_order_sorts, rank, sorted, sorted_texts};
use crate::rows::law_filter_has;
use crate::store::LinkV;
use crate::text::{law_text_order_total, law_text_order_transitive, text_lt};

verus! {

/// Sorting looks at the contents only: whatever the order was, the result is the
/// same.
pub proof fn law_sorting_forgets_order(a: Seq<Seq<char>>, b: Seq<Seq<char>>)
    requires
        a.to_multiset() == b.to_multiset(),
    ensures
        sorted_texts(a) == sorted_texts(b),
{
    let f = |x: Seq<char>, y: Seq<char>| text_lt(x, y);
    let leq = |x: Seq<char>, y: Seq<char>| !text_lt(y, x);
    law_text_order_sorts();
    law_sorted_keeps(a, f);
    law_sorted_keeps(b, f);
    law_sorted_ordered(a, f);
    law_sorted_ordered(b, f);
    lemma_total(leq);
    let x = sorted_texts(a);
    let y = sorted_texts(b);
    assert(sorted_by(x, leq)) by {
        assert forall|i: int, j: int| 0 <= i < j < x.len() implies #[trigger] leq(x[i], x[j]) by {
            assert(!f(sorted(a, f)[j], sorted(a, f)[i]));
        }
    }
    assert(sorted_by(y, leq)) by {
        assert forall|i: int, j: int| 0 <= i < j < y.len() implies #[trigger] leq(y[i], y[j]) by {
            assert(!f(sorted(b, f)[j], sorted(b, f)[i]));
        }
    }
    vstd::seq_lib::lemma_sorted_unique(x, y, leq);
}

proof fn lemma_total(leq: spec_fn(Seq<char>, Seq<char>) -> bool)
    requires
        leq == (|x: Seq<char>, y: Seq<char>| !text_lt(y, x)),
    ensures
        total_ordering(leq),
{
    assert forall|x: Seq<char>| #[trigger] leq(x, x) by {
        law_text_order_total(x, x);
    }
    assert forall|x: Seq<char>, y: Seq<char>| #[trigger] leq(x, y) && #[trigger] leq(y, x) implies x
        == y by {
        law_text_order_total(x, y);
    }
    assert forall|x: Seq<char>, y: Seq<char>| #[trigger] leq(x, y) || #[trigger] leq(y, x) by {
        law_text_order_total(x, y);
    }
    assert forall|x: Seq<char>, y: Seq<char>, z: Seq<char>| #[trigger] leq(x, y) && #[trigger] leq(
        y,
        z,
    ) implies leq(x, z) by {
        law_text_order_total(x, y);
        law_text_order_total(y, z);
        law_text_order_total(x, z);
        if text_lt(z, x) {
            if x == y {
            } else if y == z {
            } else {
                law_text_order_transitive(x, y, z);
            }
        }
    }
}

// ---------------------------------------------------------------------- sound

/// Is this the contents of a cycle that the start leads into?
pub open spec fn reported(edges: Seq<LinkV>, start: Seq<char>, c: Seq<Seq<char>>) -> bool {
    exists|p: Seq<Seq<char>>| #[trigger]
        is_cycle(edges, p) && c == sorted_texts(p) && leads(edges, start, p[0])
}

proof fn lemma_from_first(path: Seq<Seq<char>>, id: Seq<char>) -> (k: int)
    requires
        path.contains(id),
    ensures
        0 <= k < path.len(),
        path[k] == id,
        from_first(path, id) == path.skip(k),
        forall|i: int| 0 <= i < k ==> path[i] != id,
    decreases path.len(),
{
    if path[0] == id {
        assert(path.skip(0) =~= path);
        0
    } else {
        let n = choose|n: int| 0 <= n < path.len() && path[n] == id;
        assert(path.drop_first()[n - 1] == id);
        let k = lemma_from_first(path.drop_first(), id);
        assert(path.drop_first().skip(k) =~= path.skip(k + 1));
        assert forall|i: int| 0 <= i < k + 1 implies path[i] != id by {
            if i > 0 {
                assert(path.drop_first()[i - 1] != id);
            }
        }
        k + 1
    }
}

proof fn lemma_push_path(edges: Seq<LinkV>, path: Seq<Seq<char>>, id: Seq<char>)
    requires
        is_path(edges, path),
        needs(edges, path.last(), id),
    ensures
        is_path(edges, path.push(id)),
{
    let q = path.push(id);
    assert forall|i: int| 0 <= i < q.len() - 1 implies needs(edges, #[trigger] q[i], q[i + 1]) by {
        if i < path.len() - 1 {
            assert(needs(edges, path[i], path[i + 1]));
        }
    }
}

proof fn lemma_loops_sound(edges: Seq<LinkV>, path: Seq<Seq<char>>, k: int)
    requires
        is_path(edges, path),
        path.no_duplicates(),
        0 <= k < loops(edges, path).len(),
    ensures
        reported(edges, path[0], loops(edges, path)[k]),
    decreases edges.len() + 2 - path.len(), 1int, 0int,
{
    let kids = nexts(edges, path.last());
    assert forall|j: int| 0 <= j < kids.len() implies needs(edges, path.last(), #[trigger] kids[j]) by {
        let p = |l: LinkV| l.left == path.last();
        edges.lemma_filter_contains_rev(p, edges.filter(p)[j]);
        assert(edges.filter(p)[j] == (LinkV { left: path.last(), right: kids[j] }));
    }
    lemma_by_sound(edges, path, kids, k);
}

proof fn lemma_by_sound(edges: Seq<LinkV>, path: Seq<Seq<char>>, kids: Seq<Seq<char>>, k: int)
    requires
        is_path(edges, path),
        path.no_duplicates(),
        path.len() <= edges.len() + 1,
        forall|j: int| 0 <= j < kids.len() ==> needs(edges, path.last(), #[trigger] kids[j]),
        0 <= k < loops_by(edges, path, kids).len(),
    ensures
        reported(edges, path[0], loops_by(edges, path, kids)[k]),
    decreases edges.len() + 2 - path.len(), 0int, kids.len(),
{
    let init = kids.drop_last();
    let before = loops_by(edges, path, init);
    let id = kids.last();
    assert(needs(edges, path.last(), kids[kids.len() - 1]));
    if k < before.len() {
        assert forall|j: int| 0 <= j < init.len() implies needs(
            edges,
            path.last(),
            #[trigger] init[j],
        ) by {
            assert(init[j] == kids[j]);
        }
        lemma_by_sound(edges, path, init, k);
    } else if path.contains(id) {
        let n = lemma_from_first(path, id);
        let p = path.skip(n);
        assert forall|i: int| 0 <= i < p.len() - 1 implies needs(edges, #[trigger] p[i], p[i + 1]) by {
            assert(needs(edges, path[n + i], path[n + i + 1]));
        }
        assert(p.no_duplicates()) by {
            assert forall|i: int, j: int| 0 <= i < p.len() && 0 <= j < p.len() && i != j implies p[i]
                != p[j] by {
                assert(path[n + i] != path[n + j]);
            }
        }
        assert(is_cycle(edges, p));
        let w = path.take(n + 1);
        assert forall|i: int| 0 <= i < w.len() - 1 implies needs(edges, #[trigger] w[i], w[i + 1]) by {
            assert(needs(edges, path[i], path[i + 1]));
        }
        assert(is_way(edges, w, path[0], p[0]));
        assert(loops_by(edges, path, kids)[k] == sorted_texts(p));
    } else {
        lemma_push_path(edges, path, id);
        let longer = path.push(id);
        assert(longer.no_duplicates()) by {
            assert forall|i: int, j: int| 0 <= i < longer.len() && 0 <= j < longer.len() && i
                != j implies longer[i] != longer[j] by {
                if i < path.len() && j < path.len() {
                    assert(path[i] != path[j]);
                }
            }
        }
        lemma_loops_sound(edges, longer, k - before.len());
        assert(longer[0] == path[0]);
    }
}

// ------------------------------------------------------------------- complete

proof fn lemma_short(edges: Seq<LinkV>, path: Seq<Seq<char>>)
    requires
        is_path(edges, path),
        path.no_duplicates(),
    ensures
        path.len() <= edges.len() + 1,
{
    assert forall|i: int| 1 <= i < path.len() implies is_end(edges, #[trigger] path[i]) by {
        assert(needs(edges, path[i - 1], path[i - 1 + 1]));
        let l = LinkV { left: path[i - 1], right: path[i] };
        let m = choose|m: int| 0 <= m < edges.len() && edges[m] == l;
        assert(edges[m].right == path[i]);
    }
    lemma_few(edges, path);
}

proof fn lemma_by_has(
    edges: Seq<LinkV>,
    path: Seq<Seq<char>>,
    kids: Seq<Seq<char>>,
    id: Seq<char>,
    c: Seq<Seq<char>>,
)
    requires
        path.len() <= edges.len() + 1,
        kids.contains(id),
        if path.contains(id) {
            c == sorted_texts(from_first(path, id))
        } else {
            loops(edges, path.push(id)).contains(c)
        },
    ensures
        loops_by(edges, path, kids).contains(c),
    decreases kids.len(),
{
    let init = kids.drop_last();
    let before = loops_by(edges, path, init);
    let all = loops_by(edges, path, kids);
    if kids.last() == id {
        let more = if path.contains(id) {
            seq![sorted_texts(from_first(path, id))]
        } else {
            loops(edges, path.push(id))
        };
        assert(all == before + more);
        if path.contains(id) {
            assert(more[0] == c);
        }
        let k = choose|k: int| 0 <= k < more.len() && more[k] == c;
        assert(all[before.len() + k] == c);
    } else {
        let n = choose|n: int| 0 <= n < kids.len() && kids[n] == id;
        assert(init[n] == id);
        lemma_by_has(edges, path, init, id, c);
        let k = choose|k: int| 0 <= k < before.len() && before[k] == c;
        assert(all[k] == c);
    }
}

proof fn lemma_next(edges: Seq<LinkV>, a: Seq<char>, b: Seq<char>)
    requires
        needs(edges, a, b),
    ensures
        nexts(edges, a).contains(b),
{
    let p = |l: LinkV| l.left == a;
    let l = LinkV { left: a, right: b };
    law_filter_has(edges, p, l);
    let k = choose|k: int| 0 <= k < edges.filter(p).len() && edges.filter(p)[k] == l;
    assert(nexts(edges, a)[k] == b);
}

/// What is found further along a path is found from its beginning.
proof fn lemma_explore(
    edges: Seq<LinkV>,
    path: Seq<Seq<char>>,
    whole: Seq<Seq<char>>,
    c: Seq<Seq<char>>,
)
    requires
        is_path(edges, whole),
        whole.no_duplicates(),
        path.len() > 0,
        path.is_prefix_of(whole),
        loops(edges, whole).contains(c),
    ensures
        loops(edges, path).contains(c),
    decreases whole.len() - path.len(),
{
    if path.len() == whole.len() {
        assert(path =~= whole);
    } else {
        let id = whole[path.len() as int];
        let longer = path.push(id);
        assert(longer.is_prefix_of(whole)) by {
            assert(longer =~= whole.take(longer.len() as int));
        }
        lemma_explore(edges, longer, whole, c);
        lemma_short(edges, whole);
        assert(path =~= whole.take(path.len() as int));
        assert(needs(edges, whole[path.len() - 1], whole[path.len() - 1 + 1]));
        lemma_next(edges, path.last(), id);
        if path.contains(id) {
            let n = choose|n: int| 0 <= n < path.len() && path[n] == id;
            assert(whole[n] != whole[path.len() as int]);
        }
        lemma_by_has(edges, path, nexts(edges, path.last()), id, c);
    }
}

/// A way into a set can be taken without going round in circles, and so that it
/// ends where it first meets the set.
proof fn lemma_straight(edges: Seq<LinkV>, w: Seq<Seq<char>>, c: Seq<Seq<char>>) -> (q: Seq<
    Seq<char>,
>)
    requires
        is_path(edges, w),
        c.contains(w.last()),
    ensures
        is_path(edges, q),
        q[0] == w[0],
        q.no_duplicates(),
        c.contains(q.last()),
        forall|i: int| 0 <= i < q.len() - 1 ==> !c.contains(#[trigger] q[i]),
    decreases w.len(),
{
    if exists|i: int| 0 <= i < w.len() - 1 && c.contains(#[trigger] w[i]) {
        let i = choose|i: int| 0 <= i < w.len() - 1 && c.contains(#[trigger] w[i]);
        let v = w.take(i + 1);
        assert forall|k: int| 0 <= k < v.len() - 1 implies needs(edges, #[trigger] v[k], v[k + 1]) by {
            assert(needs(edges, w[k], w[k + 1]));
        }
        lemma_straight(edges, v, c)
    } else if exists|i: int, j: int| 0 <= i < j < w.len() && #[trigger] w[i] == #[trigger] w[j] {
        let (i, j) = choose|i: int, j: int| 0 <= i < j < w.len() && #[trigger] w[i] == #[trigger] w[j];
        let v = w.take(i + 1) + w.skip(j + 1);
        assert forall|k: int| 0 <= k < v.len() - 1 implies needs(edges, #[trigger] v[k], v[k + 1]) by {
            if k < i {
                assert(needs(edges, w[k], w[k + 1]));
            } else if k == i {
                assert(needs(edges, w[j], w[j + 1]));
            } else {
                assert(needs(edges, w[k - i - 1 + j + 1], w[k - i - 1 + j + 1 + 1]));
            }
        }
        assert(v.last() == w.last());
        lemma_straight(edges, v, c)
    } else {
        assert(w.no_duplicates()) by {
            assert forall|i: int, j: int| 0 <= i < w.len() && 0 <= j < w.len() && i != j implies w[i]
                != w[j] by {
                if i < j {
                    assert(w[i] != w[j]);
                } else {
                    assert(w[j] != w[i]);
                }
            }
        }
        w
    }
}

/// A way to an item of a cycle, and on around the cycle from there.
spec fn around(q: Seq<Seq<char>>, c: Seq<Seq<char>>, j: int) -> Seq<Seq<char>> {
    q + (c.skip(j + 1) + c.take(j))
}

/// Going to a cycle and around it is a way that meets nothing twice and could close
/// the cycle.
proof fn lemma_around(edges: Seq<LinkV>, q: Seq<Seq<char>>, c: Seq<Seq<char>>, j: int)
    requires
        is_cycle(edges, c),
        is_path(edges, q),
        q.no_duplicates(),
        0 <= j < c.len(),
        c[j] == q.last(),
        forall|i: int| 0 <= i < q.len() - 1 ==> !c.contains(#[trigger] q[i]),
    ensures
        is_path(edges, around(q, c, j)),
        around(q, c, j).no_duplicates(),
        needs(edges, around(q, c, j).last(), c[j]),
{
    let n = c.len() as int;
    let tail = c.skip(j + 1) + c.take(j);
    let whole = q + tail;
    // Around the cycle, starting behind its j-th item.
    assert forall|i: int| 0 <= i < tail.len() implies #[trigger] tail[i] == c[if i < n - j - 1 {
        j + 1 + i
    } else {
        i - (n - j - 1)
    }] by {
    }
    assert forall|i: int| 0 <= i < whole.len() - 1 implies needs(edges, #[trigger] whole[i], whole[i + 1]) by {
        if i < q.len() - 1 {
            assert(needs(edges, q[i], q[i + 1]));
        } else if i == q.len() - 1 {
            assert(whole[i] == c[j]);
            assert(whole[i + 1] == tail[0]);
            if j < n - 1 {
                assert(needs(edges, c[j], c[j + 1]));
            }
        } else {
            let k = i - q.len();
            assert(whole[i] == tail[k]);
            assert(whole[i + 1] == tail[k + 1]);
            if k < n - j - 2 {
                assert(needs(edges, c[j + 1 + k], c[j + 1 + k + 1]));
            } else if k == n - j - 2 {
            } else {
                let m = k - (n - j - 1);
                assert(needs(edges, c[m], c[m + 1]));
            }
        }
    }
    assert(whole.no_duplicates()) by {
        assert forall|a: int, b: int| 0 <= a < b < whole.len() implies #[trigger] whole[a]
            != #[trigger] whole[b] by {
            if b < q.len() {
                assert(q[a] != q[b]);
            } else if a < q.len() - 1 {
                assert(!c.contains(q[a]));
                let k = b - q.len();
                assert(tail[k] == whole[b]);
                assert(c.contains(tail[k]));
            } else if a == q.len() - 1 {
                let k = b - q.len();
                assert(tail[k] == whole[b]);
                assert(whole[a] == c[j]);
            } else {
                let x = a - q.len();
                let y = b - q.len();
                assert(tail[x] == whole[a]);
                assert(tail[y] == whole[b]);
            }
        }
    }
    let id = c[j];
    assert(needs(edges, whole.last(), id)) by {
        if tail.len() == 0 {
            assert(whole.last() == q.last());
            assert(n == 1);
        } else {
            assert(whole.last() == tail.last());
            if j == 0 {
                assert(tail.last() == c[n - 1]);
            } else {
                assert(tail.last() == c[j - 1]);
                assert(needs(edges, c[j - 1], c[j - 1 + 1]));
            }
        }
    }
}

/// A cycle that a start leads into is among the loops found from there.
proof fn lemma_loops_complete(edges: Seq<LinkV>, start: Seq<char>, c: Seq<Seq<char>>)
    requires
        is_cycle(edges, c),
        leads(edges, start, c[0]),
    ensures
        loops(edges, seq![start]).contains(sorted_texts(c)),
{
    let w = choose|w: Seq<Seq<char>>| is_way(edges, w, start, c[0]);
    assert(c.contains(c[0]));
    let q = lemma_straight(edges, w, c);
    let j = choose|j: int| 0 <= j < c.len() && c[j] == q.last();
    lemma_around(edges, q, c, j);
    let tail = c.skip(j + 1) + c.take(j);
    let whole = around(q, c, j);
    let id = c[j];
    assert(whole[q.len() - 1] == id);
    assert(whole.contains(id));
    let k = lemma_from_first(whole, id);
    if k != q.len() - 1 {
        assert(whole[k] != whole[q.len() - 1]);
    }
    let turned = whole.skip(k);
    assert(turned =~= seq![id] + tail);
    lemma_turned(c, j);
    law_sorting_forgets_order(turned, c);
    lemma_short(edges, whole);
    lemma_next(edges, whole.last(), id);
    lemma_by_has(edges, whole, nexts(edges, whole.last()), id, sorted_texts(c));
    assert(seq![start].is_prefix_of(whole)) by {
        assert(seq![start] =~= whole.take(1));
    }
    lemma_explore(edges, seq![start], whole, sorted_texts(c));
}

/// Turning a list keeps its contents.
proof fn lemma_turned(c: Seq<Seq<char>>, j: int)
    requires
        0 <= j < c.len(),
    ensures
        (seq![c[j]] + (c.skip(j + 1) + c.take(j))).to_multiset() == c.to_multiset(),
{
    broadcast use vstd::seq_lib::group_to_multiset_ensures;

    let a = c.take(j);
    let b = c.skip(j);
    assert(c =~= a + b);
    assert(seq![c[j]] + (c.skip(j + 1) + c.take(j)) =~= b + a);
    vstd::seq_lib::lemma_multiset_commutative(a, b);
    vstd::seq_lib::lemma_multiset_commutative(b, a);
    assert((a + b).to_multiset() =~= (b + a).to_multiset());
}

proof fn lemma_loops_from_has(edges: Seq<LinkV>, starts: Seq<Seq<char>>, start: Seq<char>, c: Seq<Seq<char>>)
    requires
        starts.contains(start),
        loops(edges, seq![start]).contains(c),
    ensures
        loops_from(edges, starts).contains(c),
    decreases starts.len(),
{
    let init = starts.drop_last();
    let before = loops_from(edges, init);
    let more = loops(edges, seq![starts.last()]);
    let all = loops_from(edges, starts);
    if starts.last() == start {
        let k = choose|k: int| 0 <= k < more.len() && more[k] == c;
        assert(all[before.len() + k] == c);
    } else {
        let n = choose|n: int| 0 <= n < starts.len() && starts[n] == start;
        assert(init[n] == start);
        lemma_loops_from_has(edges, init, start, c);
        let k = choose|k: int| 0 <= k < before.len() && before[k] == c;
        assert(all[k] == c);
    }
}

proof fn lemma_once_has<V>(s: Seq<V>, x: V)
    ensures
        once(s).contains(x) == s.contains(x),
        once(s).no_duplicates(),
    decreases s.len(),
{
    if s.len() > 0 {
        let init = s.drop_last();
        lemma_once_has(init, x);
        lemma_once_has(init, s.last());
        if s.contains(x) {
            let n = choose|n: int| 0 <= n < s.len() && s[n] == x;
            if n < init.len() {
                assert(init[n] == x);
            }
        }
        if init.contains(x) {
            let n = choose|n: int| 0 <= n < init.len() && init[n] == x;
            assert(s[n] == x);
        }
        let o = once(init);
        if o.contains(x) {
            let n = choose|n: int| 0 <= n < o.len() && o[n] == x;
            assert(o.push(s.last())[n] == x);
        }
        assert(o.push(s.last())[o.len() as int] == s.last());
        assert(s[s.len() - 1] == s.last());
    }
}

pub(crate) proof fn lemma_listed_once<V>(a: Seq<V>, b: Seq<V>, x: V)
    requires
        a.to_multiset() == b.to_multiset(),
    ensures
        a.contains(x) == b.contains(x),
{
    broadcast use vstd::seq_lib::group_to_multiset_ensures;

    assert(a.contains(x) == (a.to_multiset().count(x) > 0));
    assert(b.contains(x) == (b.to_multiset().count(x) > 0));
}

/// Every cycle is reported: whatever goes round in circles behind one of the
/// starts is in the list.
pub proof fn law_every_cycle_is_reported(
    edges: Seq<LinkV>,
    starts: Seq<Seq<char>>,
    start: Seq<char>,
    c: Seq<Seq<char>>,
)
    requires
        starts.contains(start),
        is_cycle(edges, c),
        leads(edges, start, c[0]),
    ensures
        cycles_from(edges, starts).contains(sorted_texts(c)),
{
    lemma_loops_complete(edges, start, c);
    lemma_loops_from_has(edges, starts, start, sorted_texts(c));
    let all = loops_from(edges, starts);
    lemma_once_has(all, sorted_texts(c));
    law_sorted_keeps(once(all), rank::<Vec<String>>());
    lemma_listed_once(once(all), cycles_from(edges, starts), sorted_texts(c));
}

proof fn lemma_loops_from_sound(edges: Seq<LinkV>, starts: Seq<Seq<char>>, c: Seq<Seq<char>>)
    requires
        loops_from(edges, starts).contains(c),
    ensures
        exists|k: int| 0 <= k < starts.len() && reported(edges, #[trigger] starts[k], c),
    decreases starts.len(),
{
    let all = loops_from(edges, starts);
    let n = choose|n: int| 0 <= n < all.len() && all[n] == c;
    let init = starts.drop_last();
    let before = loops_from(edges, init);
    if n < before.len() {
        assert(before[n] == c);
        lemma_loops_from_sound(edges, init, c);
        let k = choose|k: int| 0 <= k < init.len() && reported(edges, #[trigger] init[k], c);
        assert(starts[k] == init[k]);
    } else {
        let path = seq![starts.last()];
        lemma_loops_sound(edges, path, n - before.len());
        assert(starts[starts.len() - 1] == path[0]);
    }
}

/// Everything reported is a cycle, and one of the starts leads into it.
pub proof fn law_reported_is_a_cycle(edges: Seq<LinkV>, starts: Seq<Seq<char>>, c: Seq<Seq<char>>)
    requires
        cycles_from(edges, starts).contains(c),
    ensures
        exists|k: int| 0 <= k < starts.len() && reported(edges, #[trigger] starts[k], c),
{
    let all = loops_from(edges, starts);
    law_sorted_keeps(once(all), rank::<Vec<String>>());
    lemma_listed_once(once(all), cycles_from(edges, starts), c);
    lemma_once_has(all, c);
    lemma_loops_from_sound(edges, starts, c);
}

/// An edge closes a cycle exactly where its end already leads back to its start.
pub proof fn law_closing_edge(edges: Seq<LinkV>, a: Seq<char>, b: Seq<char>, p: Seq<Seq<char>>)
    requires
        !leads(edges, b, a),
        is_path(edges.push(LinkV { left: a, right: b }), p),
        needs(edges.push(LinkV { left: a, right: b }), p.last(), p[0]),
    ensures
        is_path(edges, p) && needs(edges, p.last(), p[0]),
{
    let more = edges.push(LinkV { left: a, right: b });
    // Go round twice; if the new edge is used anywhere, its end leads to its start
    // without it.
    let n = p.len() as int;
    if exists|i: int| 0 <= i < n && #[trigger] uses(p, i, a, b) && !needs(edges, a, b) {
        let i = choose|i: int| 0 <= i < n && #[trigger] uses(p, i, a, b) && !needs(edges, a, b);
        let turn = Seq::new(n as nat, |k: int| p[(i + 1 + k) % n]);
        lemma_turn(more, p, i, turn);
        // `turn` starts at b, ends at a, and follows edges.
        lemma_way_without(edges, a, b, turn);
    }
    assert forall|i: int| 0 <= i < n - 1 implies needs(edges, #[trigger] p[i], p[i + 1]) by {
        assert(needs(more, p[i], p[i + 1]));
        lemma_needs_push(edges, a, b, p[i], p[i + 1]);
        assert(uses(p, i, a, b) || needs(edges, p[i], p[i + 1]));
    }
    lemma_needs_push(edges, a, b, p.last(), p[0]);
    assert(uses(p, n - 1, a, b) || needs(edges, p.last(), p[0]));
}

/// Does the i-th step of a round go from `a` to `b`?
pub open spec fn uses(p: Seq<Seq<char>>, i: int, a: Seq<char>, b: Seq<char>) -> bool {
    p[i] == a && p[if i + 1 == p.len() {
        0
    } else {
        i + 1
    }] == b
}

proof fn lemma_needs_push(edges: Seq<LinkV>, a: Seq<char>, b: Seq<char>, x: Seq<char>, y: Seq<char>)
    ensures
        needs(edges.push(LinkV { left: a, right: b }), x, y) ==> needs(edges, x, y) || (x == a && y == b),
{
    let more = edges.push(LinkV { left: a, right: b });
    if needs(more, x, y) {
        let l = LinkV { left: x, right: y };
        let k = choose|k: int| 0 <= k < more.len() && more[k] == l;
        if k < edges.len() {
            assert(edges[k] == l);
        }
    }
}

proof fn lemma_turn(edges: Seq<LinkV>, p: Seq<Seq<char>>, i: int, turn: Seq<Seq<char>>)
    requires
        is_path(edges, p),
        needs(edges, p.last(), p[0]),
        0 <= i < p.len(),
        turn == Seq::new(p.len(), |k: int| p[(i + 1 + k) % (p.len() as int)]),
    ensures
        is_path(edges, turn),
        turn[0] == p[if i + 1 == p.len() {
            0
        } else {
            i + 1
        }],
        turn.last() == p[i],
{
    let n = p.len() as int;
    assert forall|k: int| 0 <= k < n implies #[trigger] turn[k] == p[if i + 1 + k < n {
        i + 1 + k
    } else {
        i + 1 + k - n
    }] by {
        if i + 1 + k < n {
            vstd::arithmetic::div_mod::lemma_small_mod((i + 1 + k) as nat, n as nat);
        } else {
            assert((i + 1 + k) % n == i + 1 + k - n) by (nonlinear_arith)
                requires
                    n <= i + 1 + k < 2 * n,
                    n > 0,
            ;
        }
    }
    assert forall|k: int| 0 <= k < n - 1 implies needs(edges, #[trigger] turn[k], turn[k + 1]) by {
        if i + 1 + k + 1 < n {
            assert(needs(edges, p[i + 1 + k], p[i + 1 + k + 1]));
        } else if i + 1 + k + 1 == n {
        } else {
            assert(needs(edges, p[i + 1 + k - n], p[i + 1 + k - n + 1]));
        }
    }
}

/// A way from `b` to `a` that may use the edge from `a` to `b` shows that there is
/// one that does not: up to where it first reaches `a`.
proof fn lemma_way_without(edges: Seq<LinkV>, a: Seq<char>, b: Seq<char>, w: Seq<Seq<char>>)
    requires
        is_path(edges.push(LinkV { left: a, right: b }), w),
        w[0] == b,
        w.last() == a,
    ensures
        leads(edges, b, a),
    decreases w.len(),
{
    let more = edges.push(LinkV { left: a, right: b });
    if exists|i: int| 0 <= i < w.len() - 1 && #[trigger] w[i] == a {
        let i = choose|i: int| 0 <= i < w.len() - 1 && #[trigger] w[i] == a;
        let v = w.take(i + 1);
        assert forall|k: int| 0 <= k < v.len() - 1 implies needs(more, #[trigger] v[k], v[k + 1]) by {
            assert(needs(more, w[k], w[k + 1]));
        }
        lemma_way_without(edges, a, b, v);
    } else {
        assert forall|k: int| 0 <= k < w.len() - 1 implies needs(edges, #[trigger] w[k], w[k + 1]) by {
            assert(needs(more, w[k], w[k + 1]));
            lemma_needs_push(edges, a, b, w[k], w[k + 1]);
        }
        assert(is_way(edges, w, b, a));
    }
}

} // verus!
