//! Loops among links, by a walk that goes deep first.
//!
//! Every link that leads back to where the walk is standing is reported with the
//! part of the way that it closes. Not every loop is reported, but each reported
//! one is a loop, and where there is any, one is reported.

use vstd::prelude::*;
use vstd::string::*;

use crate::depends::{from_first, is_cycle, is_path, needs, nexts};
use crate::rows::{each, keep};
use crate::sql::holds_text;
use crate::store::{append, no_rows, Link, LinkV};
use crate::text::same;

verus! {

broadcast use vstd::string::group_string_axioms;

/// How far a walk has come.
pub struct Walk {
    /// What was left behind, in the order in which it was.
    pub done: Seq<Seq<char>>,
    /// The way to where the walk stands.
    pub way: Seq<Seq<char>>,
    /// The loops found.
    pub out: Seq<Seq<Seq<char>>>,
}

/// Going on to each of some items in turn, at most `fuel` deep.
pub open spec fn visit(links: Seq<LinkV>, to: Seq<Seq<char>>, w: Walk, fuel: nat) -> Walk
    decreases fuel, to.len(),
{
    if to.len() == 0 {
        w
    } else {
        let w = visit(links, to.drop_last(), w, fuel);
        let n = to.last();
        if w.way.contains(n) {
            Walk { out: w.out.push(from_first(w.way, n)), ..w }
        } else if w.done.contains(n) || fuel == 0 {
            w
        } else {
            let v = visit(
                links,
                nexts(links, n),
                Walk { way: w.way.push(n), ..w },
                (fuel - 1) as nat,
            );
            Walk { done: v.done.push(n), way: w.way, out: v.out }
        }
    }
}

/// The loops that a walk from each of the items in turn finds.
pub open spec fn loops_found(ids: Seq<Seq<char>>, links: Seq<LinkV>) -> Seq<Seq<Seq<char>>> {
    visit(
        links,
        ids,
        Walk { done: Seq::empty(), way: Seq::empty(), out: Seq::empty() },
        ids.len(),
    ).out
}

fn nexts_of(links: &Vec<Link>, id: &str) -> (r: Vec<String>)
    ensures
        r.deep_view() == nexts(links.deep_view(), id@),
{
    let out = |l: &Link| -> (b: bool)
        ensures b == (l.deep_view().left == id@)
    {
        same(l.left.as_str(), id)
    };
    let end = |l: &Link| -> (x: String)
        ensures x.deep_view() == l.deep_view().right
    {
        l.right.clone()
    };
    each(
        &keep(links, out, Ghost(|l: LinkV| l.left == id@)),
        end,
        Ghost(|l: LinkV| l.right),
    )
}

fn tail_from(way: &Vec<String>, id: &str) -> (r: Vec<String>)
    ensures
        r.deep_view() == from_first(way.deep_view(), id@),
{
    let ghost all = way.deep_view();
    let mut i: usize = 0;
    assert(all.skip(0) =~= all);
    while i < way.len() && !same(way[i].as_str(), id)
        invariant
            all == way.deep_view(),
            i <= way@.len(),
            from_first(all, id@) == from_first(all.skip(i as int), id@),
        decreases way@.len() - i,
    {
        assert(all.skip(i as int)[0] == way@[i as int]@);
        assert(all.skip(i as int).drop_first() =~= all.skip(i + 1));
        i += 1;
    }
    proof {
        if i < way@.len() {
            assert(all.skip(i as int)[0] == way@[i as int]@);
        }
        assert(from_first(all.skip(i as int), id@) == all.skip(i as int));
    }
    let ghost start = i as int;
    let mut out: Vec<String> = no_rows();
    while i < way.len()
        invariant
            all == way.deep_view(),
            0 <= start <= i <= way@.len(),
            out.deep_view() =~= all.subrange(start, i as int),
        decreases way@.len() - i,
    {
        append(&mut out, way[i].clone());
        assert(all.subrange(start, i + 1) =~= all.subrange(start, i as int).push(all[i as int]));
        i += 1;
    }
    assert(all.subrange(start, i as int) =~= all.skip(start));
    out
}

fn go_on(
    links: &Vec<Link>,
    to: &Vec<String>,
    done: &mut Vec<String>,
    way: &mut Vec<String>,
    out: &mut Vec<Vec<String>>,
    fuel: usize,
)
    ensures
        (Walk {
            done: final(done).deep_view(),
            way: final(way).deep_view(),
            out: final(out).deep_view(),
        }) == visit(
            links.deep_view(),
            to.deep_view(),
            Walk {
                done: old(done).deep_view(),
                way: old(way).deep_view(),
                out: old(out).deep_view(),
            },
            fuel as nat,
        ),
        final(way).deep_view() == old(way).deep_view(),
    decreases fuel,
{
    let ghost lv = links.deep_view();
    let ghost all = to.deep_view();
    let ghost w0 = Walk { done: done.deep_view(), way: way.deep_view(), out: out.deep_view() };
    let mut i: usize = 0;
    while i < to.len()
        invariant
            lv == links.deep_view(),
            all == to.deep_view(),
            i <= to@.len(),
            (Walk { done: done.deep_view(), way: way.deep_view(), out: out.deep_view() }) == visit(
                lv,
                all.take(i as int),
                w0,
                fuel as nat,
            ),
            way.deep_view() == w0.way,
        decreases to@.len() - i,
    {
        let n = &to[i];
        proof {
            assert(all.take(i + 1).drop_last() =~= all.take(i as int));
            assert(all.take(i + 1).last() == n@);
        }
        if holds_text(way, n.as_str()) {
            append(out, tail_from(way, n.as_str()));
        } else if holds_text(done, n.as_str()) || fuel == 0 {
        } else {
            let more = nexts_of(links, n.as_str());
            append(way, n.clone());
            let ghost ahead = way.deep_view();
            go_on(links, &more, done, way, out, fuel - 1);
            way.pop();
            assert(way.deep_view() =~= ahead.drop_last());
            assert(ahead.drop_last() =~= w0.way);
            append(done, n.clone());
        }
        i += 1;
    }
    assert(all.take(i as int) =~= all);
}

/// The loops that a walk from each of the items in turn finds.
pub fn find_loops(ids: &Vec<String>, links: &Vec<Link>) -> (r: Vec<Vec<String>>)
    ensures
        r.deep_view() == loops_found(ids.deep_view(), links.deep_view()),
{
    let mut done: Vec<String> = no_rows();
    let mut way: Vec<String> = no_rows();
    let mut out: Vec<Vec<String>> = no_rows();
    assert(ids@.len() == ids.deep_view().len());
    assert(ids.len() == ids.deep_view().len());
    go_on(links, ids, &mut done, &mut way, &mut out, ids.len());
    out
}

// ------------------------------------------------------------------------ laws

/// Does every link end at one of the items?
pub open spec fn closed(ids: Seq<Seq<char>>, links: Seq<LinkV>) -> bool {
    forall|i: int| 0 <= i < links.len() ==> ids.contains((#[trigger] links[i]).right)
}

/// Was everything that an item links to left behind before the item?
pub open spec fn in_order(links: Seq<LinkV>, done: Seq<Seq<char>>) -> bool {
    forall|k: int, v: Seq<char>|
        0 <= k < done.len() && #[trigger] needs(links, done[k], v) ==> done.take(k).contains(v)
}

/// What holds of a walk at every step.
spec fn steady(ids: Seq<Seq<char>>, links: Seq<LinkV>, w: Walk) -> bool {
    &&& w.way.no_duplicates()
    &&& w.done.no_duplicates()
    &&& forall|x: Seq<char>| #[trigger] w.way.contains(x) ==> !w.done.contains(x) && ids.contains(x)
    &&& w.way.len() > 0 ==> is_path(links, w.way)
    &&& forall|i: int| 0 <= i < w.out.len() ==> is_cycle(links, #[trigger] w.out[i])
    &&& w.out.len() == 0 ==> in_order(links, w.done)
}

proof fn lemma_nexts(links: Seq<LinkV>, id: Seq<char>, v: Seq<char>)
    ensures
        nexts(links, id).contains(v) <==> needs(links, id, v),
{
    let p = |l: LinkV| l.left == id;
    let f = links.filter(p);
    if nexts(links, id).contains(v) {
        let i = choose|i: int| 0 <= i < nexts(links, id).len() && nexts(links, id)[i] == v;
        links.lemma_filter_pred(p, i);
        assert(f.contains(f[i]));
        links.lemma_filter_contains_rev(p, f[i]);
        assert(f[i] == LinkV { left: id, right: v });
    }
    if needs(links, id, v) {
        let l = LinkV { left: id, right: v };
        crate::rows::law_filter_has(links, p, l);
        let i = choose|i: int| 0 <= i < f.len() && f[i] == l;
        assert(nexts(links, id)[i] == v);
    }
}

/// The part of a way from an item on is a way, and begins there.
proof fn lemma_from_first(links: Seq<LinkV>, way: Seq<Seq<char>>, id: Seq<char>)
    requires
        way.contains(id),
        is_path(links, way),
        way.no_duplicates(),
    ensures
        is_path(links, from_first(way, id)),
        from_first(way, id).no_duplicates(),
        from_first(way, id)[0] == id,
        from_first(way, id).last() == way.last(),
    decreases way.len(),
{
    if way[0] != id {
        let rest = way.drop_first();
        let k = choose|k: int| 0 <= k < way.len() && way[k] == id;
        assert(rest[k - 1] == id);
        assert forall|i: int| 0 <= i < rest.len() - 1 implies needs(
            links,
            #[trigger] rest[i],
            rest[i + 1],
        ) by {
            assert(rest[i] == way[i + 1]);
            assert(needs(links, way[i + 1], way[i + 2]));
        }
        assert forall|i: int, j: int| 0 <= i < rest.len() && 0 <= j < rest.len() && i != j implies rest[i]
            != rest[j] by {
            assert(way[i + 1] != way[j + 1]);
        }
        lemma_from_first(links, rest, id);
        assert(rest.last() == way.last());
    }
}

/// A list without repeats whose items are all in another is no longer than that.
proof fn lemma_pigeons(s: Seq<Seq<char>>, ids: Seq<Seq<char>>)
    requires
        s.no_duplicates(),
        forall|x: Seq<char>| #[trigger] s.contains(x) ==> ids.contains(x),
    ensures
        s.len() <= ids.len(),
{
    s.unique_seq_to_set();
    assert(s.to_set().subset_of(ids.to_set())) by {
        assert forall|x: Seq<char>| s.to_set().contains(x) implies ids.to_set().contains(x) by {
            assert(s.contains(x));
        }
    }
    vstd::set_lib::lemma_len_subset(s.to_set(), ids.to_set());
    ids.lemma_cardinality_of_set();
}

proof fn lemma_visit(
    ids: Seq<Seq<char>>,
    links: Seq<LinkV>,
    to: Seq<Seq<char>>,
    w: Walk,
    fuel: nat,
)
    requires
        closed(ids, links),
        steady(ids, links, w),
        forall|x: Seq<char>| #[trigger] to.contains(x) ==> ids.contains(x),
        w.way.len() > 0 ==> forall|x: Seq<char>| #[trigger]
            to.contains(x) ==> needs(links, w.way.last(), x),
        fuel + w.way.len() >= ids.len(),
    ensures
        ({
            let r = visit(links, to, w, fuel);
            &&& steady(ids, links, r)
            &&& r.way == w.way
            &&& w.done.is_prefix_of(r.done)
            &&& w.out.is_prefix_of(r.out)
            &&& r.out.len() == 0 ==> forall|x: Seq<char>| #[trigger]
                to.contains(x) ==> r.done.contains(x)
        }),
    decreases fuel, to.len(),
{
    if to.len() == 0 {
        assert(w.done.is_prefix_of(w.done));
    } else {
        let init = to.drop_last();
        let n = to.last();
        assert forall|x: Seq<char>| #[trigger] init.contains(x) implies to.contains(x) by {
            let i = choose|i: int| 0 <= i < init.len() && init[i] == x;
            assert(to[i] == x);
        }
        assert(to.contains(n)) by {
            assert(to[to.len() - 1] == n);
        }
        lemma_visit(ids, links, init, w, fuel);
        let m = visit(links, init, w, fuel);
        let r = visit(links, to, w, fuel);
        if m.way.contains(n) {
            lemma_from_first(links, m.way, n);
            assert(is_cycle(links, from_first(m.way, n)));
            assert forall|i: int| 0 <= i < r.out.len() implies is_cycle(links, #[trigger] r.out[i]) by {
                if i < m.out.len() {
                    assert(r.out[i] == m.out[i]);
                }
            }
        } else if m.done.contains(n) {
            lemma_to(to, r);
        } else {
            let ahead = Walk { way: m.way.push(n), ..m };
            lemma_ahead(ids, links, m, n);
            lemma_pigeons(ahead.way, ids);
            let more = nexts(links, n);
            assert forall|x: Seq<char>| #[trigger] more.contains(x) implies ids.contains(x) && needs(
                links,
                n,
                x,
            ) by {
                lemma_nexts(links, n, x);
                let i = choose|i: int| 0 <= i < links.len() && links[i] == (LinkV { left: n, right: x });
                assert(ids.contains(links[i].right));
            }
            lemma_visit(ids, links, more, ahead, (fuel - 1) as nat);
            let v = visit(links, more, ahead, (fuel - 1) as nat);
            lemma_back(ids, links, m, v, n, r);
            lemma_to(to, r);
        }
    }
}

/// Standing on one item more.
proof fn lemma_ahead(ids: Seq<Seq<char>>, links: Seq<LinkV>, m: Walk, n: Seq<char>)
    requires
        steady(ids, links, m),
        !m.way.contains(n),
        !m.done.contains(n),
        ids.contains(n),
        m.way.len() > 0 ==> needs(links, m.way.last(), n),
    ensures
        steady(ids, links, Walk { way: m.way.push(n), ..m }),
{
    let way = m.way.push(n);
    assert forall|i: int| 0 <= i < way.len() - 1 implies needs(links, #[trigger] way[i], way[i + 1]) by {
        if i < m.way.len() - 1 {
            assert(needs(links, m.way[i], m.way[i + 1]));
        }
    }
    assert forall|x: Seq<char>| #[trigger] way.contains(x) implies !m.done.contains(x)
        && ids.contains(x) by {
        if x != n {
            let i = choose|i: int| 0 <= i < way.len() && way[i] == x;
            assert(m.way[i] == x);
            assert(m.way.contains(x));
        }
    }
    assert forall|i: int, j: int| 0 <= i < way.len() && 0 <= j < way.len() && i != j implies way[i]
        != way[j] by {
        if i == m.way.len() {
            assert(m.way.contains(m.way[j]));
        } else if j == m.way.len() {
            assert(m.way.contains(m.way[i]));
        }
    }
}

/// Leaving an item behind.
proof fn lemma_back(
    ids: Seq<Seq<char>>,
    links: Seq<LinkV>,
    m: Walk,
    v: Walk,
    n: Seq<char>,
    r: Walk,
)
    requires
        steady(ids, links, m),
        steady(ids, links, v),
        v.way == m.way.push(n),
        m.done.is_prefix_of(v.done),
        m.out.is_prefix_of(v.out),
        v.out.len() == 0 ==> forall|x: Seq<char>| #[trigger]
            nexts(links, n).contains(x) ==> v.done.contains(x),
        r == (Walk { done: v.done.push(n), way: m.way, out: v.out }),
        !m.way.contains(n),
    ensures
        steady(ids, links, r),
        m.done.is_prefix_of(r.done),
        r.done.contains(n),
{
    assert(v.way[m.way.len() as int] == n);
    assert(v.way.contains(n));
    assert(!v.done.contains(n));
    assert forall|x: Seq<char>| #[trigger] r.way.contains(x) implies !r.done.contains(x)
        && ids.contains(x) by {
        let i = choose|i: int| 0 <= i < m.way.len() && m.way[i] == x;
        assert(v.way[i] == x);
        assert(v.way.contains(x));
        if r.done.contains(x) {
            let j = choose|j: int| 0 <= j < r.done.len() && r.done[j] == x;
            if j < v.done.len() {
                assert(v.done[j] == x);
            }
        }
    }
    assert forall|i: int, j: int| 0 <= i < r.done.len() && 0 <= j < r.done.len() && i != j implies r.done[i]
        != r.done[j] by {
        if i == v.done.len() {
            assert(v.done.contains(v.done[j]));
        } else if j == v.done.len() {
            assert(v.done.contains(v.done[i]));
        }
    }
    assert(r.done[v.done.len() as int] == n);
    if r.out.len() == 0 {
        assert forall|k: int, x: Seq<char>|
            0 <= k < r.done.len() && #[trigger] needs(links, r.done[k], x) implies r.done.take(
            k,
        ).contains(x) by {
            if k < v.done.len() {
                assert(needs(links, v.done[k], x));
                assert(v.done.take(k).contains(x));
                assert(r.done.take(k) =~= v.done.take(k));
            } else {
                lemma_nexts(links, n, x);
                assert(r.done.take(k) =~= v.done);
            }
        }
    }
}

/// Where the first items are done and the last is, all are.
proof fn lemma_to(to: Seq<Seq<char>>, r: Walk)
    ensures
        (to.len() > 0 && r.done.contains(to.last()) && forall|x: Seq<char>| #[trigger]
            to.drop_last().contains(x) ==> r.done.contains(x)) ==> forall|x: Seq<char>| #[trigger]
            to.contains(x) ==> r.done.contains(x),
{
    if to.len() > 0 && r.done.contains(to.last()) && forall|x: Seq<char>| #[trigger]
        to.drop_last().contains(x) ==> r.done.contains(x) {
        assert forall|x: Seq<char>| #[trigger] to.contains(x) implies r.done.contains(x) by {
            let i = choose|i: int| 0 <= i < to.len() && to[i] == x;
            if i < to.len() - 1 {
                assert(to.drop_last()[i] == x);
                assert(to.drop_last().contains(x));
            }
        }
    }
}

/// Whatever is reported is a loop.
pub proof fn law_found_loops_are_loops(ids: Seq<Seq<char>>, links: Seq<LinkV>, i: int)
    requires
        closed(ids, links),
        0 <= i < loops_found(ids, links).len(),
    ensures
        is_cycle(links, loops_found(ids, links)[i]),
{
    let w = Walk { done: Seq::empty(), way: Seq::empty(), out: Seq::empty() };
    lemma_visit(ids, links, ids, w, ids.len());
}

/// Along a loop, where everything was left behind after what it links to, each item
/// was left behind before the one ahead of it.
proof fn lemma_earlier(links: Seq<LinkV>, done: Seq<Seq<char>>, p: Seq<Seq<char>>, k: int, start: int) -> (at:
    int)
    requires
        in_order(links, done),
        done.no_duplicates(),
        is_path(links, p),
        0 <= k < p.len(),
        0 <= start < done.len(),
        done[start] == p[0],
    ensures
        0 <= at <= start - k,
        done[at] == p[k],
    decreases k,
{
    if k == 0 {
        start
    } else {
        let b = lemma_earlier(links, done, p, k - 1, start);
        assert(needs(links, p[k - 1], p[(k - 1) + 1]));
        assert(needs(links, done[b], p[k]));
        let at = choose|j: int| 0 <= j < done.take(b).len() && done.take(b)[j] == p[k];
        assert(done[at] == p[k]);
        at
    }
}

/// Where there is a loop, one is reported.
pub proof fn law_a_loop_is_found(ids: Seq<Seq<char>>, links: Seq<LinkV>, p: Seq<Seq<char>>)
    requires
        closed(ids, links),
        is_cycle(links, p),
    ensures
        loops_found(ids, links).len() > 0,
{
    let w = Walk { done: Seq::empty(), way: Seq::empty(), out: Seq::empty() };
    lemma_visit(ids, links, ids, w, ids.len());
    let r = visit(links, ids, w, ids.len());
    if r.out.len() == 0 {
        let l = LinkV { left: p.last(), right: p[0] };
        let i = choose|i: int| 0 <= i < links.len() && links[i] == l;
        assert(ids.contains(links[i].right));
        let start = choose|j: int| 0 <= j < r.done.len() && r.done[j] == p[0];
        let at = lemma_earlier(links, r.done, p, p.len() - 1, start);
        assert(needs(links, r.done[at], p[0]));
        let again = choose|j: int| 0 <= j < r.done.take(at).len() && r.done.take(at)[j] == p[0];
        assert(r.done[again] == r.done[start]);
    }
}

} // verus!
