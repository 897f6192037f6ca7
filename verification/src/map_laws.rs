//! What the map of a repository shows.

use vstd::prelude::*;
use vstd::string::*;

use crate::arch::{arrow, contents, distinct, event_place, is_edge, ActivityV, ArchNodeV, LayoutV, RECENT_MS};
use crate::arch_laws::lemma_sorted_has;
use crate::edge_laws::lemma_parts;
use crate::edges::edge_lt;
use crate::goal_laws::lemma_deduped;
use crate::lookup_laws::lemma_filtered;
use crate::model::{EdgeKind, EdgeV, EventV, LeaseV, Role, SymbolV};
use crate::order::{deduped, sorted};
use crate::store::StoreV;
use crate::work::TaskViewV;

verus! {

broadcast use vstd::string::group_string_axioms;

pub(crate) proof fn lemma_some<A>(s: Seq<A>, p: spec_fn(A) -> bool, x: A)
    requires
        s.contains(x),
        p(x),
    ensures
        s.filter(p).contains(x),
        s.filter(p).len() >= 1,
{
    lemma_filtered(s, p, x);
    let k = choose|k: int| 0 <= k < s.filter(p).len() && s.filter(p)[k] == x;
    assert(s.filter(p).len() > k);
}

proof fn lemma_box_edges(s: StoreV, l: LayoutV, symbols: Seq<SymbolV>, edges: Seq<EdgeV>, k: int, a: Seq<char>, b: Seq<char>)
    requires
        0 <= k < edges.len(),
        edges[k].kind == EdgeKind::Imports || edges[k].kind == EdgeKind::Queries,
        s.end_box(l, symbols, edges[k].src) == Some(a),
        s.end_box(l, symbols, edges[k].dst) == Some(b),
        a != b,
    ensures
        s.box_edges(l, symbols, edges).contains((EdgeV { src: a, dst: b, kind: edges[k].kind })),
    decreases edges.len(),
{
    let init = edges.drop_last();
    let last = edges.len() - 1;
    let e = EdgeV { src: a, dst: b, kind: edges[k].kind };
    let all = s.box_edges(l, symbols, edges);
    if k < last {
        assert(init[k] == edges[k]);
        lemma_box_edges(s, l, symbols, init, k, a, b);
        let rest = s.box_edges(l, symbols, init);
        let n = choose|n: int| 0 <= n < rest.len() && rest[n] == e;
        assert(all[n] == e);
    } else {
        assert(all.last() == e);
        assert(all[all.len() - 1] == e);
    }
}

/// Whenever something in one box imports or queries something in another, an arrow is
/// drawn between the two.
pub proof fn law_dependencies_are_drawn(
    s: StoreV,
    l: LayoutV,
    symbols: Seq<SymbolV>,
    k: int,
    a: Seq<char>,
    b: Seq<char>,
)
    requires
        0 <= k < s.edges.len(),
        s.edges[k].kind == EdgeKind::Imports || s.edges[k].kind == EdgeKind::Queries,
        s.end_box(l, symbols, s.edges[k].src) == Some(a),
        s.end_box(l, symbols, s.edges[k].dst) == Some(b),
        a != b,
    ensures
        exists|n: int|
            0 <= n < s.arrows(l, symbols).len() && (#[trigger] s.arrows(l, symbols)[n]).from == a && s.arrows(
                l,
                symbols,
            )[n].to == b && s.arrows(l, symbols)[n].kind == s.edges[k].kind && s.arrows(l, symbols)[n].weight >= 1,
{
    let e = EdgeV { src: a, dst: b, kind: s.edges[k].kind };
    let all = s.box_edges(l, symbols, s.edges);
    lemma_box_edges(s, l, symbols, s.edges, k, a, b);
    let lt = |x: EdgeV, y: EdgeV| edge_lt(x, y);
    lemma_sorted_has(all, lt, e);
    lemma_deduped(sorted(all, lt), e);
    let once = deduped(sorted(all, lt));
    let n = choose|n: int| 0 <= n < once.len() && once[n] == e;
    lemma_some(all, is_edge(e), e);
    assert(s.arrows(l, symbols)[n] == arrow(all, e));
}

/// A box counts what is in it: files, symbols, and of these the endpoints and the tests.
pub proof fn law_boxes_count_their_contents(
    s: StoreV,
    l: LayoutV,
    symbols: Seq<SymbolV>,
    live: Seq<ActivityV>,
    now: i64,
    n: ArchNodeV,
    x: SymbolV,
)
    requires
        symbols.contains(x),
        !(x.kind is Service),
        !(x.kind is Table),
        l.place(x.repo_id, x.path).contains(n.id),
    ensures
        ({
            let r = s.filled(l, symbols, live, now, n);
            &&& x.kind is File ==> r.files >= 1
            &&& !(x.kind is File) ==> r.symbols >= 1
            &&& !(x.kind is File) && x.role == Some(Role::Api) ==> r.endpoints >= 1
            &&& !(x.kind is File) && x.role == Some(Role::Test) ==> r.tests >= 1
            &&& r.id == n.id && r.kind == n.kind && r.name == n.name && r.parent == n.parent && r.path == n.path
        }),
{
    let c = |y: SymbolV| !(y.kind is Service) && !(y.kind is Table);
    lemma_some(symbols, c, x);
    let here = |y: SymbolV| l.place(y.repo_id, y.path).contains(n.id);
    lemma_some(contents(symbols), here, x);
    let mine = contents(symbols).filter(here);
    if x.kind is File {
        lemma_some(mine, |y: SymbolV| y.kind is File, x);
    } else {
        lemma_some(mine, |y: SymbolV| !(y.kind is File), x);
        if x.role == Some(Role::Api) {
            lemma_some(mine, |y: SymbolV| !(y.kind is File) && y.role == Some(Role::Api), x);
        }
        if x.role == Some(Role::Test) {
            lemma_some(mine, |y: SymbolV| !(y.kind is File) && y.role == Some(Role::Test), x);
        }
    }
}

pub(crate) proof fn lemma_distinct(s: Seq<Seq<char>>, x: Seq<char>)
    ensures
        distinct(s).contains(x) <==> s.contains(x),
    decreases s.len(),
{
    if s.len() > 0 {
        let init = s.drop_last();
        lemma_distinct(init, x);
        lemma_distinct(init, s.last());
        let d = distinct(init);
        assert(s =~= init + seq![s.last()]);
        lemma_parts(init, seq![s.last()], x);
        assert(seq![s.last()].contains(x) <==> x == s.last()) by {
            assert(seq![s.last()][0] == s.last());
        }
        if !d.contains(s.last()) {
            assert(d.push(s.last()) =~= d + seq![s.last()]);
            lemma_parts(d, seq![s.last()], x);
        }
    }
}

proof fn lemma_goals_of(s: StoreV, ts: Seq<TaskViewV>, g: Seq<char>)
    ensures
        s.goals_of(ts).contains(g) <==> exists|k: int|
            0 <= k < ts.len() && s.task_goal((#[trigger] ts[k]).task.id) == Some(g),
    decreases ts.len(),
{
    if ts.len() > 0 {
        let init = ts.drop_last();
        let last = ts.len() - 1;
        lemma_goals_of(s, init, g);
        let mine = match s.task_goal(ts.last().task.id) {
            Some(x) => seq![x],
            None => Seq::empty(),
        };
        assert(s.goals_of(ts) =~= s.goals_of(init) + mine);
        lemma_parts(s.goals_of(init), mine, g);
        if mine.contains(g) {
            assert(s.task_goal(ts[last].task.id) == Some(g));
        }
        if s.goals_of(init).contains(g) {
            let k = choose|k: int| 0 <= k < init.len() && s.task_goal((#[trigger] init[k]).task.id) == Some(g);
            assert(ts[k] == init[k]);
        }
        if exists|k: int| 0 <= k < ts.len() && s.task_goal((#[trigger] ts[k]).task.id) == Some(g) {
            let k = choose|k: int| 0 <= k < ts.len() && s.task_goal((#[trigger] ts[k]).task.id) == Some(g);
            if k < last {
                assert(init[k] == ts[k]);
            } else {
                assert(mine[0] == g);
            }
        }
    }
}

/// A box shows the work that lands in it: the tasks whose scope is in it, the goals that
/// they serve, what waits for review, who is at work there and what changed there within
/// the hour.
pub proof fn law_boxes_show_their_work(
    s: StoreV,
    l: LayoutV,
    symbols: Seq<SymbolV>,
    live: Seq<ActivityV>,
    now: i64,
    n: ArchNodeV,
    t: TaskViewV,
    a: ActivityV,
    k: int,
)
    ensures
        ({
            let r = s.filled(l, symbols, live, now, n);
            let lands = s.tasks_listed().contains(t) && s.task_place(l, t).contains(n.id);
            &&& lands ==> r.tasks.contains(t.task.id)
            &&& lands && t.task.state is Review ==> r.review_pending >= 1
            &&& lands && s.task_goal(t.task.id) is Some ==> r.goals.contains(s.task_goal(t.task.id)->0)
            &&& live.contains(a) && l.place(a.repo_id, a.path).contains(n.id) ==> r.activity.contains(a)
                && r.workers.contains(a.agent)
            &&& 0 <= k < s.events.len() && s.events.len() - 500 <= k && s.events[k].ts >= now - 3_600_000
                && event_place(l, s.events[k]).contains(n.id) ==> r.changed_recently >= 1
        }),
{
    let r = s.filled(l, symbols, live, now, n);
    let lands = |x: TaskViewV| s.task_place(l, x).contains(n.id);
    let landing = s.tasks_listed().filter(lands);
    if s.tasks_listed().contains(t) && s.task_place(l, t).contains(n.id) {
        lemma_some(s.tasks_listed(), lands, t);
        let i = choose|i: int| 0 <= i < landing.len() && landing[i] == t;
        assert(r.tasks[i] == t.task.id);
        if t.task.state is Review {
            lemma_some(landing, |x: TaskViewV| x.task.state is Review, t);
        }
        if s.task_goal(t.task.id) is Some {
            let g = s.task_goal(t.task.id)->0;
            lemma_goals_of(s, landing, g);
            assert(s.task_goal(landing[i].task.id) == Some(g));
            lemma_distinct(s.goals_of(landing), g);
        }
    }
    if live.contains(a) && l.place(a.repo_id, a.path).contains(n.id) {
        let here = |x: ActivityV| l.place(x.repo_id, x.path).contains(n.id);
        lemma_some(live, here, a);
        let acts = live.filter(here);
        let i = choose|i: int| 0 <= i < acts.len() && acts[i] == a;
        let names = acts.map_values(|x: ActivityV| x.agent);
        assert(names[i] == a.agent);
        let held = s.held_now().filter(
            |x: LeaseV| s.lease_place(l, x).contains(n.id),
        ).map_values(|x: LeaseV| x.agent);
        lemma_parts(held, names, a.agent);
        lemma_distinct(held + names, a.agent);
    }
    if 0 <= k < s.events.len() && s.events.len() - 500 <= k && s.events[k].ts >= now - 3_600_000 && event_place(
        l,
        s.events[k],
    ).contains(n.id) {
        let e = s.events[k];
        let recent = s.recent(500);
        if s.events.len() > 500 {
            assert(recent[k - (s.events.len() - 500)] == e);
        } else {
            assert(recent[k] == e);
        }
        let late = |x: EventV| x.ts >= now - RECENT_MS;
        lemma_some(recent, late, e);
        let here = |x: EventV| event_place(l, x).contains(n.id);
        lemma_some(s.changes(now), here, e);
    }
}

} // verus!
