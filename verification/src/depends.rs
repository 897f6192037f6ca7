//! What waits for what: paths and cycles among dependencies.

use vstd::prelude::*;
use vstd::string::*;

use crate::order::{sort_texts, sorted, sorted_texts, stable_sort, rank, Ranked};
use crate::rows::{each, keep};
use crate::sql::holds_text;
use crate::store::{append, no_rows, Link, LinkV};
use crate::text::{comes_before, same, text_lt};

verus! {

broadcast use vstd::string::group_string_axioms;

/// Is there a dependency of `a` on `b`?
pub open spec fn needs(edges: Seq<LinkV>, a: Seq<char>, b: Seq<char>) -> bool {
    edges.contains(LinkV { left: a, right: b })
}

/// Does every item depend on the next?
pub open spec fn is_path(edges: Seq<LinkV>, p: Seq<Seq<char>>) -> bool {
    &&& p.len() > 0
    &&& forall|i: int| 0 <= i < p.len() - 1 ==> needs(edges, #[trigger] p[i], p[i + 1])
}

/// Is this a way from `a` to `b`?
pub open spec fn is_way(edges: Seq<LinkV>, p: Seq<Seq<char>>, a: Seq<char>, b: Seq<char>) -> bool {
    is_path(edges, p) && p[0] == a && p.last() == b
}

/// Does `a` depend on `b`, directly or through others, or are they the same?
pub open spec fn leads(edges: Seq<LinkV>, a: Seq<char>, b: Seq<char>) -> bool {
    exists|p: Seq<Seq<char>>| is_way(edges, p, a, b)
}

/// Does every item depend on the next, the last on the first, and is none there
/// twice?
pub open spec fn is_cycle(edges: Seq<LinkV>, p: Seq<Seq<char>>) -> bool {
    is_path(edges, p) && needs(edges, p.last(), p[0]) && p.no_duplicates()
}

/// What an item depends on directly.
pub open spec fn nexts(edges: Seq<LinkV>, id: Seq<char>) -> Seq<Seq<char>> {
    edges.filter(|l: LinkV| l.left == id).map_values(|l: LinkV| l.right)
}

/// The part of a path from the first mention of an item.
pub open spec fn from_first(path: Seq<Seq<char>>, id: Seq<char>) -> Seq<Seq<char>>
    decreases path.len(),
{
    if path.len() == 0 || path[0] == id {
        path
    } else {
        from_first(path.drop_first(), id)
    }
}

/// Every loop that is closed when a path goes on, each in text order.
pub open spec fn loops(edges: Seq<LinkV>, path: Seq<Seq<char>>) -> Seq<Seq<Seq<char>>>
    decreases edges.len() + 2 - path.len(), 1int, 0int,
{
    if path.len() == 0 || path.len() > edges.len() + 1 {
        Seq::empty()
    } else {
        loops_by(edges, path, nexts(edges, path.last()))
    }
}

/// Every loop that is closed when a path goes on to one of some items.
pub open spec fn loops_by(edges: Seq<LinkV>, path: Seq<Seq<char>>, kids: Seq<Seq<char>>) -> Seq<
    Seq<Seq<char>>,
>
    decreases edges.len() + 2 - path.len(), 0int, kids.len(),
{
    if kids.len() == 0 || path.len() > edges.len() + 1 {
        Seq::empty()
    } else {
        let id = kids.last();
        loops_by(edges, path, kids.drop_last()) + (if path.contains(id) {
            seq![sorted_texts(from_first(path, id))]
        } else {
            loops(edges, path.push(id))
        })
    }
}

/// The items of a list, each once, where it comes first.
pub open spec fn once<V>(s: Seq<V>) -> Seq<V>
    decreases s.len(),
{
    if s.len() == 0 {
        Seq::empty()
    } else if once(s.drop_last()).contains(s.last()) {
        once(s.drop_last())
    } else {
        once(s.drop_last()).push(s.last())
    }
}

/// The loops that some items lead into.
pub open spec fn loops_from(edges: Seq<LinkV>, starts: Seq<Seq<char>>) -> Seq<Seq<Seq<char>>>
    decreases starts.len(),
{
    if starts.len() == 0 {
        Seq::empty()
    } else {
        loops_from(edges, starts.drop_last()) + loops(edges, seq![starts.last()])
    }
}

/// The order of dictionaries, item by item.
pub open spec fn list_lt(a: Seq<Seq<char>>, b: Seq<Seq<char>>) -> bool
    decreases b.len(),
{
    if b.len() == 0 {
        false
    } else if a.len() == 0 {
        true
    } else {
        text_lt(a[0], b[0]) || (a[0] == b[0] && list_lt(a.drop_first(), b.drop_first()))
    }
}

/// The cycles that some items lead into, in order, each once.
pub open spec fn cycles_from(edges: Seq<LinkV>, starts: Seq<Seq<char>>) -> Seq<Seq<Seq<char>>> {
    sorted(once(loops_from(edges, starts)), rank::<Vec<String>>())
}

impl Ranked for Vec<String> {
    /// Item by item.
    open spec fn before(a: Seq<Seq<char>>, b: Seq<Seq<char>>) -> bool {
        list_lt(a, b)
    }

    fn is_before(&self, other: &Self) -> (r: bool) {
        let ghost a = self.deep_view();
        let ghost b = other.deep_view();
        let mut i: usize = 0;
        assert(a.skip(0) =~= a);
        assert(b.skip(0) =~= b);
        while i < other.len()
            invariant
                a == self.deep_view(),
                b == other.deep_view(),
                i <= other@.len(),
                i <= self@.len(),
                list_lt(a, b) == list_lt(a.skip(i as int), b.skip(i as int)),
            decreases other@.len() - i,
        {
            if i >= self.len() {
                return true;
            }
            let x = &self[i];
            let y = &other[i];
            proof {
                assert(a.skip(i as int)[0] == x@);
                assert(b.skip(i as int)[0] == y@);
                assert(a.skip(i as int).drop_first() =~= a.skip(i + 1));
                assert(b.skip(i as int).drop_first() =~= b.skip(i + 1));
                crate::text::law_text_order_total(x@, y@);
            }
            if comes_before(x.as_str(), y.as_str()) {
                return true;
            }
            if !same(x.as_str(), y.as_str()) {
                return false;
            }
            i += 1;
        }
        false
    }
}

// -------------------------------------------------------------- reachability

/// Does an edge end here?
pub open spec fn is_end(edges: Seq<LinkV>, x: Seq<char>) -> bool {
    exists|k: int| 0 <= k < edges.len() && (#[trigger] edges[k]).right == x
}

/// A list without repetitions from one start and the ends of some edges is no
/// longer than that.
pub(crate) proof fn lemma_few(edges: Seq<LinkV>, p: Seq<Seq<char>>)
    requires
        p.no_duplicates(),
        p.len() > 0,
        forall|i: int| 1 <= i < p.len() ==> is_end(edges, #[trigger] p[i]),
    ensures
        p.len() <= edges.len() + 1,
{
    let rights = edges.map_values(|l: LinkV| l.right);
    let tail = p.drop_first();
    assert(tail.no_duplicates()) by {
        assert forall|i: int, j: int| 0 <= i < tail.len() && 0 <= j < tail.len() && i != j implies tail[i]
            != tail[j] by {
            assert(p[i + 1] != p[j + 1]);
        }
    }
    assert(tail.to_set().subset_of(rights.to_set())) by {
        assert forall|x: Seq<char>| tail.to_set().contains(x) implies rights.to_set().contains(x) by {
            let i = choose|i: int| 0 <= i < tail.len() && tail[i] == x;
            assert(p[i + 1] == x);
            let k = choose|k: int| 0 <= k < edges.len() && (#[trigger] edges[k]).right == p[i + 1];
            assert(rights[k] == x);
        }
    }
    tail.unique_seq_to_set();
    rights.lemma_cardinality_of_set();
    vstd::set_lib::lemma_len_subset(tail.to_set(), rights.to_set());
}

proof fn lemma_extend(edges: Seq<LinkV>, a: Seq<char>, b: Seq<char>, c: Seq<char>)
    requires
        leads(edges, a, b),
        needs(edges, b, c),
    ensures
        leads(edges, a, c),
{
    let p = choose|p: Seq<Seq<char>>| is_way(edges, p, a, b);
    let q = p.push(c);
    assert forall|i: int| 0 <= i < q.len() - 1 implies needs(edges, #[trigger] q[i], q[i + 1]) by {
        if i < p.len() - 1 {
            assert(needs(edges, p[i], p[i + 1]));
        }
    }
    assert(is_way(edges, q, a, c));
}

/// A set that holds a start and follows every edge holds all that the start leads
/// to.
proof fn lemma_closed(edges: Seq<LinkV>, all: Seq<Seq<char>>, p: Seq<Seq<char>>, n: int)
    requires
        is_path(edges, p),
        all.contains(p[0]),
        0 <= n < p.len(),
        forall|k: int, m: int|
            0 <= k < all.len() && 0 <= m < edges.len() && (#[trigger] edges[m]).left == #[trigger] all[k]
                ==> all.contains(edges[m].right),
    ensures
        all.contains(p[n]),
    decreases n,
{
    if n > 0 {
        lemma_closed(edges, all, p, n - 1);
        assert(needs(edges, p[n - 1], p[n - 1 + 1]));
        let m = choose|m: int|
            0 <= m < edges.len() && edges[m] == (LinkV { left: p[n - 1], right: p[n] });
        let k = choose|k: int| 0 <= k < all.len() && all[k] == p[n - 1];
        assert(edges[m].left == all[k]);
    }
}

/// Does `from` depend on `to`, directly or through others, or are they the same?
pub fn leads_to(edges: &Vec<Link>, from: &str, to: &str) -> (r: bool)
    ensures
        r == leads(edges.deep_view(), from@, to@),
{
    let ghost ev = edges.deep_view();
    let mut reached: Vec<String> = no_rows();
    append(&mut reached, from.to_owned());
    proof {
        assert(reached.deep_view() =~= seq![from@]);
        let p = seq![from@];
        assert(is_way(ev, p, from@, from@));
    }
    let mut i: usize = 0;
    while i < reached.len()
        invariant
            ev == edges.deep_view(),
            i <= reached@.len(),
            reached@.len() == reached.deep_view().len(),
            reached@.len() > 0,
            reached.deep_view()[0] == from@,
            reached.deep_view().no_duplicates(),
            forall|k: int|
                1 <= k < reached.deep_view().len() ==> is_end(ev, #[trigger] reached.deep_view()[k]),
            forall|k: int|
                0 <= k < reached.deep_view().len() ==> leads(ev, from@, #[trigger] reached.deep_view()[k]),
            forall|k: int, m: int|
                0 <= k < i && 0 <= m < ev.len() && (#[trigger] ev[m]).left
                    == #[trigger] reached.deep_view()[k] ==> reached.deep_view().contains(ev[m].right),
            reached@.len() <= ev.len() + 1,
        decreases ev.len() + 1 - i,
    {
        let cur = reached[i].clone();
        let ghost before = reached.deep_view();
        assert(before[i as int] == cur@);
        let mut j: usize = 0;
        while j < edges.len()
            invariant
                ev == edges.deep_view(),
                i < before.len(),
                before[i as int] == cur@,
                j <= edges@.len(),
                reached@.len() == reached.deep_view().len(),
                before.is_prefix_of(reached.deep_view()),
                reached.deep_view()[0] == from@,
                reached.deep_view().no_duplicates(),
                leads(ev, from@, cur@),
                forall|k: int|
                    1 <= k < reached.deep_view().len() ==> is_end(
                        ev,
                        #[trigger] reached.deep_view()[k],
                    ),
                forall|k: int|
                    0 <= k < reached.deep_view().len() ==> leads(
                        ev,
                        from@,
                        #[trigger] reached.deep_view()[k],
                    ),
                forall|m: int|
                    0 <= m < j && (#[trigger] ev[m]).left == cur@ ==> reached.deep_view().contains(
                        ev[m].right,
                    ),
                forall|k: int, m: int|
                    0 <= k < i && 0 <= m < ev.len() && (#[trigger] ev[m]).left == #[trigger] before[k]
                        ==> before.contains(ev[m].right),
            decreases edges@.len() - j,
        {
            let e = &edges[j];
            assert(ev[j as int] == e.deep_view());
            let ghost r0 = reached.deep_view();
            if same(e.left.as_str(), cur.as_str()) && !holds_text(&reached, e.right.as_str()) {
                proof {
                    assert(needs(ev, cur@, e.right@)) by {
                        assert(ev[j as int] == (LinkV { left: cur@, right: e.right@ }));
                    }
                    lemma_extend(ev, from@, cur@, e.right@);
                }
                append(&mut reached, e.right.clone());
                proof {
                    let r1 = reached.deep_view();
                    assert forall|k: int| 1 <= k < r1.len() implies is_end(ev, #[trigger] r1[k]) by {
                        if k < r0.len() {
                            assert(is_end(ev, r0[k]));
                        } else {
                            assert(ev[j as int].right == r1[k]);
                        }
                    }
                    assert forall|k: int| 0 <= k < r1.len() implies leads(ev, from@, #[trigger] r1[k]) by {
                        if k < r0.len() {
                            assert(r1[k] == r0[k]);
                        }
                    }
                    assert forall|m: int| 0 <= m < j && (#[trigger] ev[m]).left == cur@ implies r1.contains(
                        ev[m].right,
                    ) by {
                        let n = choose|n: int| 0 <= n < r0.len() && r0[n] == ev[m].right;
                        assert(r1[n] == ev[m].right);
                    }
                    assert(r1[r0.len() as int] == e.right@);
                    assert(before.is_prefix_of(r1));
                }
            }
            j += 1;
        }
        proof {
            let r1 = reached.deep_view();
            lemma_few(ev, r1);
            assert forall|k: int, m: int|
                0 <= k < i + 1 && 0 <= m < ev.len() && (#[trigger] ev[m]).left == #[trigger] r1[k] implies r1.contains(
                ev[m].right,
            ) by {
                if k < i {
                    assert(before[k] == r1[k]);
                    let n = choose|n: int| 0 <= n < before.len() && before[n] == ev[m].right;
                    assert(r1[n] == ev[m].right);
                }
            }
        }
        i += 1;
    }
    let r = holds_text(&reached, to);
    proof {
        let rv = reached.deep_view();
        if rv.contains(to@) {
            let k = choose|k: int| 0 <= k < rv.len() && rv[k] == to@;
            assert(leads(ev, from@, rv[k]));
        }
        if leads(ev, from@, to@) {
            let p = choose|p: Seq<Seq<char>>| is_way(ev, p, from@, to@);
            assert(rv[0] == from@);
            lemma_closed(ev, rv, p, p.len() - 1);
        }
    }
    r
}

// --------------------------------------------------------------------- cycles

fn nexts_of(edges: &Vec<Link>, id: &str) -> (r: Vec<String>)
    ensures
        r.deep_view() == nexts(edges.deep_view(), id@),
{
    let test = |l: &Link| -> (b: bool)
        ensures b == (l.deep_view().left == id@)
    {
        same(l.left.as_str(), id)
    };
    let right = |l: &Link| -> (s: String)
        ensures s.deep_view() == l.deep_view().right
    {
        l.right.clone()
    };
    let links = keep(edges, test, Ghost(|l: LinkV| l.left == id@));
    each(&links, right, Ghost(|l: LinkV| l.right))
}

fn part_from(path: &Vec<String>, id: &str) -> (r: Vec<String>)
    ensures
        r.deep_view() == from_first(path.deep_view(), id@),
{
    let ghost all = path.deep_view();
    let mut i: usize = 0;
    assert(all.skip(0) =~= all);
    while i < path.len() && !same(path[i].as_str(), id)
        invariant
            all == path.deep_view(),
            i <= path@.len(),
            from_first(all, id@) == from_first(all.skip(i as int), id@),
        decreases path@.len() - i,
    {
        assert(all.skip(i as int)[0] == path@[i as int]@);
        assert(all.skip(i as int).drop_first() =~= all.skip(i + 1));
        i += 1;
    }
    proof {
        if i < path@.len() {
            assert(all.skip(i as int)[0] == path@[i as int]@);
        }
    }
    let mut out: Vec<String> = no_rows();
    let ghost from = i as int;
    assert(all.subrange(from, from) =~= Seq::empty());
    while i < path.len()
        invariant
            all == path.deep_view(),
            0 <= from <= i <= path@.len(),
            out.deep_view() =~= all.subrange(from, i as int),
        decreases path@.len() - i,
    {
        append(&mut out, path[i].clone());
        i += 1;
    }
    assert(all.subrange(from, i as int) =~= all.skip(from));
    out
}

fn find_loops(edges: &Vec<Link>, path: &Vec<String>) -> (r: Vec<Vec<String>>)
    ensures
        r.deep_view() == loops(edges.deep_view(), path.deep_view()),
    decreases edges@.len() + 2 - path@.len(),
{
    let n = path.len();
    assert(n == path.deep_view().len());
    assert(edges@.len() == edges.deep_view().len());
    if n == 0 || n - 1 > edges.len() {
        return no_rows();
    }
    assert(path.deep_view().last() == path@[n - 1]@);
    let kids = nexts_of(edges, path[n - 1].as_str());
    let ghost all = kids.deep_view();
    let mut out: Vec<Vec<String>> = no_rows();
    let mut i: usize = 0;
    while i < kids.len()
        invariant
            n == path@.len(),
            n <= edges@.len() + 1,
            edges@.len() == edges.deep_view().len(),
            all == kids.deep_view(),
            i <= kids@.len(),
            out.deep_view() == loops_by(edges.deep_view(), path.deep_view(), all.take(i as int)),
        decreases kids@.len() - i,
    {
        let id = &kids[i];
        proof {
            assert(all.take(i + 1).drop_last() =~= all.take(i as int));
            assert(all.take(i + 1).last() == id@);
            assert(path.deep_view().len() == n);
        }
        let ghost o0 = out.deep_view();
        if holds_text(path, id.as_str()) {
            let found = sort_texts(part_from(path, id.as_str()));
            let ghost fv = found.deep_view();
            append(&mut out, found);
            assert(o0.push(fv) =~= o0 + seq![fv]);
        } else {
            let mut longer = path.clone();
            assert(longer.deep_view() =~= path.deep_view());
            append(&mut longer, id.clone());
            assert(longer@.len() == longer.deep_view().len());
            let mut more = find_loops(edges, &longer);
            let ghost mv = more.deep_view();
            out.append(&mut more);
            assert(out.deep_view() =~= o0 + mv);
        }
        i += 1;
    }
    assert(all.take(i as int) =~= all);
    out
}

fn same_lists(a: &Vec<String>, b: &Vec<String>) -> (r: bool)
    ensures
        r == (a.deep_view() == b.deep_view()),
{
    assert(a@.len() == a.deep_view().len());
    assert(b@.len() == b.deep_view().len());
    if a.len() != b.len() {
        return false;
    }
    let mut i: usize = 0;
    while i < a.len()
        invariant
            a@.len() == b@.len(),
            i <= a@.len(),
            forall|k: int| 0 <= k < i ==> (#[trigger] a.deep_view()[k]) == b.deep_view()[k],
        decreases a@.len() - i,
    {
        assert(a.deep_view()[i as int] == a@[i as int]@);
        assert(b.deep_view()[i as int] == b@[i as int]@);
        if !same(a[i].as_str(), b[i].as_str()) {
            return false;
        }
        i += 1;
    }
    assert(a.deep_view() =~= b.deep_view());
    true
}

fn each_once(s: Vec<Vec<String>>) -> (r: Vec<Vec<String>>)
    ensures
        r.deep_view() == once(s.deep_view()),
{
    let ghost all = s.deep_view();
    let mut out: Vec<Vec<String>> = no_rows();
    let mut i: usize = 0;
    while i < s.len()
        invariant
            all == s.deep_view(),
            i <= s@.len(),
            out.deep_view() == once(all.take(i as int)),
        decreases s@.len() - i,
    {
        proof {
            assert(all.take(i + 1).drop_last() =~= all.take(i as int));
            assert(all.take(i + 1).last() == s@[i as int].deep_view());
        }
        let mut there = false;
        let mut k: usize = 0;
        while k < out.len() && !there
            invariant
                i < s@.len(),
                k <= out@.len(),
                there ==> out.deep_view().contains(s@[i as int].deep_view()),
                !there ==> forall|m: int|
                    0 <= m < k ==> (#[trigger] out.deep_view()[m]) != s@[i as int].deep_view(),
            decreases
                    out@.len() - k + if there {
                        0int
                    } else {
                        1int
                    },
        {
            assert(out.deep_view()[k as int] == out@[k as int].deep_view());
            if same_lists(&out[k], &s[i]) {
                there = true;
            } else {
                k += 1;
            }
        }
        assert(out@.len() == out.deep_view().len());
        if !there {
            let c = s[i].clone();
            assert(c.deep_view() =~= s@[i as int].deep_view());
            append(&mut out, c);
        }
        i += 1;
    }
    assert(all.take(i as int) =~= all);
    out
}

/// The cycles that some items lead into, each in text order, the cycles in order.
pub fn find_cycles(edges: &Vec<Link>, starts: &Vec<String>) -> (r: Vec<Vec<String>>)
    ensures
        r.deep_view() == cycles_from(edges.deep_view(), starts.deep_view()),
{
    let ghost all = starts.deep_view();
    let mut out: Vec<Vec<String>> = no_rows();
    let mut i: usize = 0;
    while i < starts.len()
        invariant
            all == starts.deep_view(),
            i <= starts@.len(),
            out.deep_view() == loops_from(edges.deep_view(), all.take(i as int)),
        decreases starts@.len() - i,
    {
        proof {
            assert(all.take(i + 1).drop_last() =~= all.take(i as int));
            assert(all.take(i + 1).last() == starts@[i as int]@);
        }
        let mut path: Vec<String> = no_rows();
        append(&mut path, starts[i].clone());
        assert(path.deep_view() =~= seq![starts@[i as int]@]);
        let ghost o0 = out.deep_view();
        let mut more = find_loops(edges, &path);
        let ghost mv = more.deep_view();
        out.append(&mut more);
        assert(out.deep_view() =~= o0 + mv);
        i += 1;
    }
    assert(all.take(i as int) =~= all);
    stable_sort(each_once(out))
}

} // verus!
