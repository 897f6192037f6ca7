//! What the scheduler promises.

use vstd::prelude::*;
use vstd::string::*;

use crate::depends::{is_cycle, is_path, is_way, needs};
use crate::depends_laws::{
    law_closing_edge, law_every_cycle_is_reported, law_reported_is_a_cycle, lemma_listed_once, reported,
};
use crate::lease::{lemma_finish_each_keeps, AcquireOptionsV};
use crate::lease_laws::{holds_live, law_scope_all_or_nothing};
use crate::model::{Capability, LeaseState, SymbolV};
use crate::order::{law_sorted_keeps, law_text_order_sorts, rank, sorted, sorted_texts};
use crate::rows::law_filter_has;
use crate::schedule::{
    claim_options, claimed, ids_of, lemma_levels_filled, returned, Claim, InferredDepV, ScheduledTaskV,
    MAX_WAVES,
};
use crate::store::{
    first_where, law_first_where, LeaseRowV, LinkV, StoreErrorV, StoreV, TaskRow, TaskRowV, Tick,
};
use crate::text::text_lt;
use crate::work::TaskViewV;

verus! {

broadcast use vstd::string::group_string_axioms;

// ------------------------------------------------------------------- inference

/// Does nothing depend on itself, directly or through others?
pub open spec fn loop_free(edges: Seq<LinkV>) -> bool {
    forall|p: Seq<Seq<char>>| #[trigger] is_path(edges, p) ==> !needs(edges, p.last(), p[0])
}

/// Inferring dependencies never makes a task wait for itself.
pub proof fn law_inference_closes_no_loop(s: StoreV, ds: Seq<InferredDepV>, now: i64)
    requires
        loop_free(s.task_deps),
    ensures
        loop_free(s.add_deps(ds, now).0.task_deps),
    decreases ds.len(),
{
    if ds.len() > 0 {
        law_inference_closes_no_loop(s, ds.drop_last(), now);
        let m = s.add_deps(ds.drop_last(), now).0;
        let d = ds.last();
        if !m.redundant(d) {
            let edges = m.task_deps;
            let l = LinkV { left: d.task, right: d.depends_on };
            let more = edges.push(l);
            assert(m.with_dep(d, now).task_deps == more);
            assert forall|p: Seq<Seq<char>>| #[trigger] is_path(more, p) implies !needs(
                more,
                p.last(),
                p[0],
            ) by {
                if needs(more, p.last(), p[0]) {
                    law_closing_edge(edges, d.task, d.depends_on, p);
                }
            }
        }
    }
}

pub(crate) proof fn lemma_deps_grow(s: StoreV, ds: Seq<InferredDepV>, now: i64)
    ensures
        ({
            let r = s.add_deps(ds, now).0;
            &&& s.task_deps.is_prefix_of(r.task_deps)
            &&& r == (StoreV { task_deps: r.task_deps, events: r.events, ..s })
        }),
    decreases ds.len(),
{
    if ds.len() > 0 {
        lemma_deps_grow(s, ds.drop_last(), now);
        let m = s.add_deps(ds.drop_last(), now).0;
        let r = s.add_deps(ds, now).0;
        if !m.redundant(ds.last()) {
            assert(m.task_deps.is_prefix_of(r.task_deps));
        }
        assert(s.task_deps =~= r.task_deps.take(s.task_deps.len() as int));
    }
}

proof fn lemma_needs_grow(a: Seq<LinkV>, b: Seq<LinkV>, x: Seq<char>, y: Seq<char>)
    requires
        a.is_prefix_of(b),
        needs(a, x, y),
    ensures
        needs(b, x, y),
{
    let l = LinkV { left: x, right: y };
    let k = choose|k: int| 0 <= k < a.len() && a[k] == l;
    assert(b[k] == l);
}

proof fn lemma_redundant_grows(s: StoreV, r: StoreV, d: InferredDepV)
    requires
        s.task_deps.is_prefix_of(r.task_deps),
        s.redundant(d),
    ensures
        r.redundant(d),
{
    if s.task_deps.contains(LinkV { left: d.task, right: d.depends_on }) {
        lemma_needs_grow(s.task_deps, r.task_deps, d.task, d.depends_on);
    } else {
        let p = choose|p: Seq<Seq<char>>| is_way(s.task_deps, p, d.depends_on, d.task);
        assert forall|i: int| 0 <= i < p.len() - 1 implies needs(r.task_deps, #[trigger] p[i], p[i + 1]) by {
            assert(needs(s.task_deps, p[i], p[i + 1]));
            lemma_needs_grow(s.task_deps, r.task_deps, p[i], p[i + 1]);
        }
        assert(is_way(r.task_deps, p, d.depends_on, d.task));
    }
}

/// Every dependency that was gone through is there, or would close a loop.
pub(crate) proof fn lemma_all_redundant(s: StoreV, ds: Seq<InferredDepV>, now: i64, k: int)
    requires
        0 <= k < ds.len(),
    ensures
        s.add_deps(ds, now).0.redundant(ds[k]),
    decreases ds.len(),
{
    let m = s.add_deps(ds.drop_last(), now).0;
    let r = s.add_deps(ds, now).0;
    let d = ds.last();
    if k < ds.len() - 1 {
        lemma_all_redundant(s, ds.drop_last(), now, k);
        assert(ds.drop_last()[k] == ds[k]);
        if !m.redundant(d) {
            assert(m.task_deps.is_prefix_of(r.task_deps));
            lemma_redundant_grows(m, r, ds[k]);
        }
    } else if !m.redundant(d) {
        let l = LinkV { left: d.task, right: d.depends_on };
        assert(r.task_deps == m.task_deps.push(l));
        assert(r.task_deps[m.task_deps.len() as int] == l);
    }
}

proof fn lemma_nothing_added(s: StoreV, ds: Seq<InferredDepV>, now: i64)
    requires
        forall|k: int| 0 <= k < ds.len() ==> s.redundant(#[trigger] ds[k]),
    ensures
        s.add_deps(ds, now).0 == s,
        forall|k: int|
            0 <= k < s.add_deps(ds, now).1.len() ==> s.would_cycle(
                #[trigger] s.add_deps(ds, now).1[k],
            ),
    decreases ds.len(),
{
    if ds.len() > 0 {
        let init = ds.drop_last();
        assert forall|k: int| 0 <= k < init.len() implies s.redundant(#[trigger] init[k]) by {
            assert(init[k] == ds[k]);
        }
        lemma_nothing_added(s, init, now);
        assert(s.redundant(ds[ds.len() - 1]));
    }
}

proof fn lemma_claims_same(a: StoreV, b: StoreV, x: Seq<TaskViewV>, y: Seq<TaskViewV>)
    requires
        a.symbols == b.symbols,
        a.task_symbols == b.task_symbols,
        ids_of(x) == ids_of(y),
    ensures
        a.claims(x) == b.claims(y),
    decreases x.len(),
{
    assert(x.len() == ids_of(x).len());
    assert(y.len() == ids_of(y).len());
    if x.len() > 0 {
        assert(ids_of(x.drop_last()) =~= ids_of(x).drop_last());
        assert(ids_of(y.drop_last()) =~= ids_of(y).drop_last());
        lemma_claims_same(a, b, x.drop_last(), y.drop_last());
        assert(ids_of(x)[x.len() - 1] == x.last().task.id);
        assert(ids_of(y)[y.len() - 1] == y.last().task.id);
        let id = x.last().task.id;
        lemma_symbols_same(a, b, a.scope_ids(id));
        assert(a.task_scope(id) == b.task_scope(id));
    }
}

proof fn lemma_symbols_same(a: StoreV, b: StoreV, ids: Seq<Seq<char>>)
    requires
        a.symbols == b.symbols,
    ensures
        a.symbols_of(ids) == b.symbols_of(ids),
    decreases ids.len(),
{
    if ids.len() > 0 {
        lemma_symbols_same(a, b, ids.drop_last());
    }
}

proof fn lemma_asked_same(a: StoreV, b: StoreV, claims: Seq<Claim>, some: Seq<Claim>)
    requires
        a.symbols == b.symbols,
        a.edges == b.edges,
    ensures
        a.asked(claims, some) == b.asked(claims, some),
    decreases some.len(),
{
    if some.len() > 0 {
        lemma_asked_same(a, b, claims, some.drop_last());
        let c = some.last();
        lemma_neighbours_same(
            a,
            b,
            a.edges.filter(
                |e: crate::model::EdgeV| e.src == c.symbol.id && e.kind.semantic(),
            ).map_values(|e: crate::model::EdgeV| (e.dst, e.kind)),
        );
        assert(a.neighbors(c.symbol.id).callees == b.neighbors(c.symbol.id).callees);
        lemma_asked_by_same(a, b, claims, c, a.neighbors(c.symbol.id).callees);
    }
}

proof fn lemma_neighbours_same(
    a: StoreV,
    b: StoreV,
    ends: Seq<(Seq<char>, crate::model::EdgeKind)>,
)
    requires
        a.symbols == b.symbols,
    ensures
        a.neighbours(ends) == b.neighbours(ends),
    decreases ends.len(),
{
    if ends.len() > 0 {
        lemma_neighbours_same(a, b, ends.drop_last());
    }
}

proof fn lemma_asked_by_same(
    a: StoreV,
    b: StoreV,
    claims: Seq<Claim>,
    c: Claim,
    out: Seq<crate::graph::NeighborV>,
)
    requires
        a.symbols == b.symbols,
    ensures
        a.asked_by(claims, c, out) == b.asked_by(claims, c, out),
    decreases out.len(),
{
    if out.len() > 0 {
        lemma_asked_by_same(a, b, claims, c, out.drop_last());
        lemma_owner_same(a, b, claims, out.last().symbol.id);
    }
}

proof fn lemma_owner_same(a: StoreV, b: StoreV, claims: Seq<Claim>, symbol: Seq<char>)
    requires
        a.symbols == b.symbols,
    ensures
        a.owner(claims, symbol) == b.owner(claims, symbol),
{
    let p = |c: Claim| c.symbol.id != symbol && a.covers(c.symbol.id, symbol);
    let q = |c: Claim| c.symbol.id != symbol && b.covers(c.symbol.id, symbol);
    assert(p =~= q);
}

/// What listing and filtering keep of the tasks when only their dependencies
/// change: the ids, in order.
proof fn lemma_open_same(a: StoreV, b: StoreV)
    requires
        a.tasks == b.tasks,
    ensures
        ids_of(a.open_tasks()) == ids_of(b.open_tasks()),
{
    lemma_open_rows(a, b, sorted(a.tasks, rank::<TaskRow>()));
}

proof fn lemma_open_rows(a: StoreV, b: StoreV, rows: Seq<TaskRowV>)
    ensures
        ({
            let p = |t: TaskViewV| !(t.task.state is Done) && !(t.task.state is Failed);
            ids_of(rows.map_values(|r: TaskRowV| a.view_of(r)).filter(p)) == ids_of(
                rows.map_values(|r: TaskRowV| b.view_of(r)).filter(p),
            )
        }),
    decreases rows.len(),
{
    reveal(Seq::filter);
    let p = |t: TaskViewV| !(t.task.state is Done) && !(t.task.state is Failed);
    let x = rows.map_values(|r: TaskRowV| a.view_of(r));
    let y = rows.map_values(|r: TaskRowV| b.view_of(r));
    if rows.len() > 0 {
        lemma_open_rows(a, b, rows.drop_last());
        assert(x.drop_last() =~= rows.drop_last().map_values(|r: TaskRowV| a.view_of(r)));
        assert(y.drop_last() =~= rows.drop_last().map_values(|r: TaskRowV| b.view_of(r)));
        let fx = x.drop_last().filter(p);
        let fy = y.drop_last().filter(p);
        assert(ids_of(fx.push(x.last())) =~= ids_of(fx).push(x.last().task.id));
        assert(ids_of(fy.push(y.last())) =~= ids_of(fy).push(y.last().task.id));
    } else {
        assert(x.filter(p) =~= y.filter(p));
    }
}

/// A dependency that the code asks for is there afterwards, or it would close a loop
/// and is reported.
pub proof fn law_loops_are_reported_not_created(s: StoreV, ds: Seq<InferredDepV>, now: i64, k: int)
    requires
        0 <= k < ds.len(),
    ensures
        ({
            let (r, found) = s.add_deps(ds, now);
            r.knows(ds[k]) || (r.would_cycle(ds[k]) && found.contains(ds[k]))
        }),
    decreases ds.len(),
{
    let (m, some) = s.add_deps(ds.drop_last(), now);
    let (r, found) = s.add_deps(ds, now);
    let d = ds.last();
    lemma_all_redundant(s, ds, now, k);
    if k < ds.len() - 1 {
        law_loops_are_reported_not_created(s, ds.drop_last(), now, k);
        assert(ds.drop_last()[k] == ds[k]);
        if m.knows(ds[k]) {
            assert(m.task_deps.is_prefix_of(r.task_deps));
            lemma_needs_grow(m.task_deps, r.task_deps, ds[k].task, ds[k].depends_on);
        } else {
            let j = some.index_of(ds[k]);
            assert(found[j] == ds[k]);
        }
    } else if !m.knows(d) {
        assert(found == some.push(d));
        assert(found[some.len() as int] == d);
    }
}

/// Inferring twice creates nothing the second time: the state stays, and only what
/// would close a loop is reported again.
pub proof fn law_inference_idempotent(s: StoreV, now: i64, later: i64)
    ensures
        ({
            let r = s.add_deps(s.wanted(), now).0;
            let (again, found) = r.add_deps(r.wanted(), later);
            again == r && forall|k: int| 0 <= k < found.len() ==> r.would_cycle(#[trigger] found[k])
        }),
{
    let ds = s.wanted();
    let r = s.add_deps(ds, now).0;
    lemma_deps_grow(s, ds, now);
    lemma_open_same(s, r);
    lemma_claims_same(s, r, s.open_tasks(), r.open_tasks());
    let claims = s.claims(s.open_tasks());
    lemma_asked_same(s, r, claims, claims);
    assert(r.wanted() == ds);
    assert forall|k: int| 0 <= k < ds.len() implies r.redundant(#[trigger] ds[k]) by {
        lemma_all_redundant(s, ds, now, k);
    }
    lemma_nothing_added(r, ds, later);
}

// ----------------------------------------------------------------------- waves

/// The ids in the first waves.
pub open spec fn placed_before(waves: Seq<Seq<TaskViewV>>, k: int) -> Seq<Seq<char>>
    decreases k,
{
    if k <= 0 || k > waves.len() {
        Seq::empty()
    } else {
        placed_before(waves, k - 1) + ids_of(waves[k - 1])
    }
}

/// Every task of a wave was left over by the earlier ones, is cleared by them, and
/// was not cleared one wave before.
proof fn lemma_level(
    s: StoreV,
    remaining: Seq<TaskViewV>,
    placed: Seq<Seq<char>>,
    rounds: nat,
    k: int,
    t: TaskViewV,
)
    requires
        0 <= k < s.levels(remaining, placed, rounds).len(),
        s.levels(remaining, placed, rounds)[k].contains(t),
    ensures
        ({
            let w = s.levels(remaining, placed, rounds);
            &&& remaining.contains(t)
            &&& s.cleared(t, placed + placed_before(w, k))
            &&& k > 0 ==> !s.cleared(t, placed + placed_before(w, k - 1))
            &&& k > 0 ==> !(placed + placed_before(w, k)).contains(t.task.id)
        }),
    decreases rounds,
{
    let p = |x: TaskViewV| s.cleared(x, placed);
    let now = remaining.filter(p);
    let w = s.levels(remaining, placed, rounds);
    let more = placed + ids_of(now);
    let q = |x: TaskViewV| !more.contains(x.task.id);
    let rest = remaining.filter(q);
    let tail = s.levels(rest, more, (rounds - 1) as nat);
    assert(w == seq![now] + tail);
    if k == 0 {
        remaining.lemma_filter_contains_rev(p, t);
        assert(placed + placed_before(w, 0) =~= placed);
    } else {
        assert(w[k] == tail[k - 1]);
        lemma_level(s, rest, more, (rounds - 1) as nat, k - 1, t);
        remaining.lemma_filter_contains_rev(q, t);
        lemma_placed_shift(w, now, tail, k);
        lemma_placed_shift(w, now, tail, k - 1);
        assert(placed + placed_before(w, k) =~= more + placed_before(tail, k - 1));
        if k == 1 {
            assert(placed + placed_before(w, 0) =~= placed);
            if s.cleared(t, placed) {
                law_filter_has(remaining, p, t);
                let n = choose|n: int| 0 <= n < now.len() && now[n] == t;
                assert(ids_of(now)[n] == t.task.id);
                assert(more[placed.len() + n] == t.task.id);
            }
            assert(placed + placed_before(w, 1) =~= more);
        } else {
            assert(placed + placed_before(w, k - 1) =~= more + placed_before(tail, k - 2));
        }
    }
}

proof fn lemma_placed_shift(
    w: Seq<Seq<TaskViewV>>,
    first: Seq<TaskViewV>,
    tail: Seq<Seq<TaskViewV>>,
    k: int,
)
    requires
        w == seq![first] + tail,
        0 <= k <= w.len(),
    ensures
        k > 0 ==> placed_before(w, k) == ids_of(first) + placed_before(tail, k - 1),
    decreases k,
{
    if k > 1 {
        lemma_placed_shift(w, first, tail, k - 1);
        assert(w[k - 1] == tail[k - 2]);
        assert(placed_before(w, k) =~= ids_of(first) + placed_before(tail, k - 1));
    } else if k == 1 {
        assert(w[0] == first);
        assert(placed_before(w, 0) =~= Seq::empty());
        assert(placed_before(tail, 0) =~= Seq::empty());
        assert(placed_before(w, 1) =~= ids_of(first) + Seq::<Seq<char>>::empty());
    }
}

proof fn lemma_placed_where(waves: Seq<Seq<TaskViewV>>, k: int, id: Seq<char>)
    requires
        0 <= k <= waves.len(),
        placed_before(waves, k).contains(id),
    ensures
        exists|j: int| 0 <= j < k && ids_of(#[trigger] waves[j]).contains(id),
    decreases k,
{
    if k > 0 {
        let all = placed_before(waves, k);
        let init = placed_before(waves, k - 1);
        let n = choose|n: int| 0 <= n < all.len() && all[n] == id;
        if n < init.len() {
            assert(init[n] == id);
            lemma_placed_where(waves, k - 1, id);
            let j = choose|j: int| 0 <= j < k - 1 && ids_of(#[trigger] waves[j]).contains(id);
            assert(0 <= j < k);
        } else {
            assert(ids_of(waves[k - 1])[n - init.len()] == id);
            assert(ids_of(waves[k - 1]).contains(id));
        }
    }
}

proof fn lemma_placed_has(waves: Seq<Seq<TaskViewV>>, k: int, j: int, id: Seq<char>)
    requires
        0 <= j < k <= waves.len(),
        ids_of(waves[j]).contains(id),
    ensures
        placed_before(waves, k).contains(id),
    decreases k,
{
    let all = placed_before(waves, k);
    let init = placed_before(waves, k - 1);
    if j == k - 1 {
        let n = choose|n: int| 0 <= n < ids_of(waves[j]).len() && ids_of(waves[j])[n] == id;
        assert(all[init.len() + n] == id);
    } else {
        lemma_placed_has(waves, k - 1, j, id);
        let n = choose|n: int| 0 <= n < init.len() && init[n] == id;
        assert(all[n] == id);
    }
}

/// Waves respect dependencies: whatever a task of a wave still waits for is in an
/// earlier wave.
pub proof fn law_waves_respect_dependencies(s: StoreV, k: int, t: TaskViewV, d: Seq<char>)
    requires
        0 <= k < s.waves().len(),
        s.waves()[k].contains(t),
        t.task.deps.contains(d),
        s.unmet(d),
    ensures
        exists|j: int| 0 <= j < k && ids_of(#[trigger] s.waves()[j]).contains(d),
{
    let none = Seq::<Seq<char>>::empty();
    lemma_level(s, s.waiting(), none, MAX_WAVES as nat, k, t);
    let n = choose|n: int| 0 <= n < t.task.deps.len() && t.task.deps[n] == d;
    assert(none + placed_before(s.waves(), k) =~= placed_before(s.waves(), k));
    assert(placed_before(s.waves(), k).contains(t.task.deps[n]));
    lemma_placed_where(s.waves(), k, d);
}

/// A task of a wave could not have been in an earlier one: something it waits for
/// is in the wave right before.
pub proof fn law_waves_are_tight(s: StoreV, k: int, t: TaskViewV)
    requires
        0 < k < s.waves().len(),
        s.waves()[k].contains(t),
    ensures
        exists|n: int|
            0 <= n < t.task.deps.len() && ids_of(s.waves()[k - 1]).contains(
                #[trigger] t.task.deps[n],
            ),
{
    let none = Seq::<Seq<char>>::empty();
    let w = s.waves();
    lemma_level(s, s.waiting(), none, MAX_WAVES as nat, k, t);
    assert(none + placed_before(w, k) =~= placed_before(w, k));
    assert(none + placed_before(w, k - 1) =~= placed_before(w, k - 1));
    let n = choose|n: int|
        0 <= n < t.task.deps.len() && !(placed_before(w, k - 1).contains(#[trigger] t.task.deps[n])
            || !s.unmet(t.task.deps[n]));
    let d = t.task.deps[n];
    assert(placed_before(w, k).contains(d));
    let all = placed_before(w, k);
    let init = placed_before(w, k - 1);
    let m = choose|m: int| 0 <= m < all.len() && all[m] == d;
    if m < init.len() {
        assert(init[m] == d);
    }
    assert(ids_of(w[k - 1])[m - init.len()] == d);
}

/// No task is in two waves.
pub proof fn law_waves_are_disjoint(s: StoreV, j: int, k: int, id: Seq<char>)
    requires
        0 <= j < k < s.waves().len(),
        ids_of(s.waves()[j]).contains(id),
    ensures
        !ids_of(s.waves()[k]).contains(id),
{
    let none = Seq::<Seq<char>>::empty();
    let w = s.waves();
    lemma_placed_has(w, k, j, id);
    if ids_of(w[k]).contains(id) {
        let n = choose|n: int| 0 <= n < ids_of(w[k]).len() && ids_of(w[k])[n] == id;
        let t = w[k][n];
        assert(w[k].contains(t));
        lemma_level(s, s.waiting(), none, MAX_WAVES as nat, k, t);
        assert(none + placed_before(w, k) =~= placed_before(w, k));
    }
}

/// What is reported as a cycle is one among tasks that are not done, and each of
/// those is reported.
pub proof fn law_cycles_of_open_work(s: StoreV, c: Seq<Seq<char>>)
    ensures
        is_cycle(s.open_deps(), c) ==> s.dependency_cycles().contains(sorted_texts(c)),
        s.dependency_cycles().contains(c) ==> exists|p: Seq<Seq<char>>| #[trigger]
            is_cycle(s.open_deps(), p) && c == sorted_texts(p),
{
    let edges = s.open_deps();
    if is_cycle(edges, c) {
        let q = |l: LinkV| s.unmet(l.left) && s.unmet(l.right);
        s.task_deps.lemma_filter_contains_rev(q, LinkV { left: c.last(), right: c[0] });
        lemma_unmet_is_unfinished(s, c[0]);
        assert(is_way(edges, seq![c[0]], c[0], c[0]));
        law_every_cycle_is_reported(edges, s.unfinished(), c[0], c);
    }
    if s.dependency_cycles().contains(c) {
        law_reported_is_a_cycle(edges, s.unfinished(), c);
        let k = choose|k: int|
            0 <= k < s.unfinished().len() && reported(edges, #[trigger] s.unfinished()[k], c);
        assert(reported(edges, s.unfinished()[k], c));
    }
}

proof fn lemma_unmet_is_unfinished(s: StoreV, id: Seq<char>)
    requires
        s.unmet(id),
    ensures
        s.unfinished().contains(id),
{
    law_first_where(s.tasks, |r: TaskRowV| r.id == id);
    let row = s.task_row(id)->0;
    law_sorted_keeps(s.tasks, rank::<TaskRow>());
    let rows = sorted(s.tasks, rank::<TaskRow>());
    lemma_listed_once(s.tasks, rows, row);
    let n = rows.index_of(row);
    let all = s.tasks_listed();
    assert(all[n] == s.view_of(row));
    let p = |t: TaskViewV| !(t.task.state is Done);
    law_filter_has(all, p, all[n]);
    let m = choose|m: int| 0 <= m < all.filter(p).len() && all.filter(p)[m] == all[n];
    assert(s.unfinished()[m] == id);
}

/// A task in a cycle can never become ready: it waits for another task of a cycle,
/// which is not done.
pub proof fn law_a_cycle_is_never_ready(s: StoreV, id: Seq<char>)
    requires
        s.circular(id),
    ensures
        exists|d: Seq<char>| #[trigger]
            s.deps_of(id).contains(d) && s.unmet(d) && s.circular(d),
        s.task(id) matches Some(t) ==> !t.ready && t.blocked_by.len() > 0,
{
    let edges = s.open_deps();
    let k = choose|k: int|
        0 <= k < s.dependency_cycles().len() && (#[trigger] s.dependency_cycles()[k]).contains(id);
    let c = s.dependency_cycles()[k];
    law_cycles_of_open_work(s, c);
    let p = choose|p: Seq<Seq<char>>| #[trigger] is_cycle(edges, p) && c == sorted_texts(p);
    law_text_order_sorts();
    law_sorted_keeps(p, |a: Seq<char>, b: Seq<char>| text_lt(a, b));
    lemma_listed_once(p, c, id);
    let i = p.index_of(id);
    let d = if i + 1 < p.len() {
        p[i + 1]
    } else {
        p[0]
    };
    assert(needs(edges, id, d));
    lemma_listed_once(p, c, d);
    assert(s.dependency_cycles()[k].contains(d));
    let l = LinkV { left: id, right: d };
    let q = |l: LinkV| s.unmet(l.left) && s.unmet(l.right);
    s.task_deps.lemma_filter_contains_rev(q, l);
    let mine = |l: LinkV| l.left == id;
    law_filter_has(s.task_deps, mine, l);
    let m = choose|m: int|
        0 <= m < s.task_deps.filter(mine).len() && s.task_deps.filter(mine)[m] == l;
    assert(s.deps_of(id)[m] == d);
    law_filter_has(s.deps_of(id), |x: Seq<char>| s.unmet(x), d);
    law_first_where(s.tasks, |r: TaskRowV| r.id == id);
}

/// Only work that waits is in a wave, and nothing that is part of a cycle among work
/// that is not done.
pub proof fn law_waves_hold_waiting_work(s: StoreV, k: int, t: TaskViewV)
    requires
        0 <= k < s.waves().len(),
        s.waves()[k].contains(t),
    ensures
        t.task.state is Pending || t.task.state is Blocked,
        !s.circular(t.task.id),
{
    lemma_level(s, s.waiting(), Seq::empty(), MAX_WAVES as nat, k, t);
    let p = |x: TaskViewV|
        (x.task.state is Pending || x.task.state is Blocked) && !s.circular(x.task.id);
    s.tasks_listed().lemma_filter_contains_rev(p, t);
}

/// Does each task of a chain depend on the one before it?
pub open spec fn causal(s: StoreV, chain: Seq<Seq<char>>) -> bool {
    forall|i: int| 0 < i < chain.len() ==> s.deps_of(#[trigger] chain[i]).contains(chain[i - 1])
}

/// The chain to a task of a wave has one task of every wave up to that, each
/// depending on the one before it.
pub proof fn law_chain_is_causal(s: StoreV, k: nat, t: TaskViewV)
    requires
        k < s.waves().len(),
        s.waves()[k as int].contains(t),
    ensures
        ({
            let c = s.chain_to(s.waves(), t.task.id, k);
            c.len() == k + 1 && causal(s, c) && c.last() == t.task.id
        }),
    decreases k,
{
    let w = s.waves();
    let id = t.task.id;
    if k > 0 {
        law_waves_are_tight(s, k as int, t);
        let n = choose|n: int|
            0 <= n < t.task.deps.len() && ids_of(w[k - 1]).contains(#[trigger] t.task.deps[n]);
        lemma_level(s, s.waiting(), Seq::empty(), MAX_WAVES as nat, k as int, t);
        lemma_waiting_deps(s, t);
        let p = |d: Seq<char>| ids_of(w[k - 1]).contains(d);
        law_first_where(s.deps_of(id), p);
        assert(p(s.deps_of(id)[n]));
        let d = first_where(s.deps_of(id), p)->0;
        let before = ids_of(w[k - 1]);
        let m = choose|m: int| 0 <= m < before.len() && before[m] == d;
        let u = w[k - 1][m];
        assert(w[k - 1].contains(u));
        law_chain_is_causal(s, (k - 1) as nat, u);
        let c = s.chain_to(w, d, (k - 1) as nat);
        let all = c.push(id);
        assert forall|i: int| 0 < i < all.len() implies s.deps_of(#[trigger] all[i]).contains(all[i - 1]) by {
            if i < c.len() {
                assert(s.deps_of(c[i]).contains(c[i - 1]));
            } else {
                assert(all[i - 1] == c.last());
            }
        }
    }
}

proof fn lemma_waiting_deps(s: StoreV, t: TaskViewV)
    requires
        s.waiting().contains(t),
    ensures
        t.task.deps == s.deps_of(t.task.id),
{
    let p = |x: TaskViewV|
        (x.task.state is Pending || x.task.state is Blocked) && !s.circular(x.task.id);
    s.tasks_listed().lemma_filter_contains_rev(p, t);
    let rows = sorted(s.tasks, rank::<TaskRow>());
    let n = choose|n: int| 0 <= n < s.tasks_listed().len() && s.tasks_listed()[n] == t;
    assert(t == s.view_of(rows[n]));
}

/// The critical path is a real chain: as long as there are waves, each task
/// depending on the one before it.
pub proof fn law_critical_path_is_causal(s: StoreV)
    ensures
        s.critical_path(s.waves()).len() == s.waves().len(),
        causal(s, s.critical_path(s.waves())),
{
    let w = s.waves();
    if w.len() > 0 {
        lemma_levels_filled(s, s.waiting(), Seq::empty(), MAX_WAVES as nat, w.len() - 1);
        let t = w.last()[0];
        assert(w[w.len() - 1].contains(t));
        law_chain_is_causal(s, (w.len() - 1) as nat, t);
    }
}

// ----------------------------------------------------------------- handing out

/// A paused agent is given nothing, and nothing changes.
pub proof fn law_paused_gets_nothing(
    s: StoreV,
    agent: Seq<char>,
    ttl_secs: i64,
    goal: Option<Seq<char>>,
    t: Tick,
)
    requires
        s.agent(agent) matches Some(a) && a.paused,
    ensures
        s.claim_next_in(agent, ttl_secs, goal, t) == (
            s,
            Ok::<Option<ScheduledTaskV>, StoreErrorV>(None),
        ),
{
}

proof fn lemma_first_claimed(
    s: StoreV,
    ids: Seq<Seq<char>>,
    agent: Seq<char>,
    ttl_secs: i64,
    t: Tick,
)
    ensures
        match s.claim_first(ids, agent, ttl_secs, t) {
            (r, Ok(Some(id))) => ids.contains(id) && s.claim_one(id, agent, ttl_secs, t) == (
                r,
                Ok::<bool, StoreErrorV>(true),
            ),
            (r, _) => r == s,
        },
    decreases ids.len(),
{
    if ids.len() > 0 {
        lemma_first_claimed(s, ids.drop_first(), agent, ttl_secs, t);
        assert(ids.contains(ids[0]));
        if let (r, Ok(Some(id))) = s.claim_first(ids.drop_first(), agent, ttl_secs, t) {
            let k = choose|k: int| 0 <= k < ids.drop_first().len() && ids.drop_first()[k] == id;
            assert(ids[k + 1] == id);
        }
    }
}

proof fn lemma_claimed_stays(s: StoreV, id: Seq<char>, agent: Seq<char>, ttl_secs: i64, t: Tick)
    requires
        s.claim_one(id, agent, ttl_secs, t).1 == Ok::<bool, StoreErrorV>(true),
    ensures
        s.claim_one(id, agent, ttl_secs, t).0.task(id) is Some,
{
    let scope = s.task_scope(id).map_values(|x: SymbolV| x.id);
    let o = claim_options(id, ttl_secs);
    let m = s.settle_scope(scope, agent, o, t).0;
    lemma_settle_keeps_tasks(s, scope, agent, o, t);
    crate::work::lemma_first_task(m.tasks, id, |x: TaskRowV| claimed(x, agent, t.now));
}

/// Where nothing is handed out, nothing changes, be it that there was nothing to hand
/// out or that handing it out failed.
pub proof fn law_no_claim_no_change(
    s: StoreV,
    agent: Seq<char>,
    ttl_secs: i64,
    goal: Option<Seq<char>>,
    t: Tick,
)
    ensures
        match s.claim_next_in(agent, ttl_secs, goal, t) {
            (_, Ok(Some(_))) => true,
            (r, Ok(None)) => r == s,
            (r, Err(_)) => r == s,
        },
{
    let capability = match s.agent(agent) {
        Some(a) => a.capability,
        None => None,
    };
    let ids = s.offers(capability, goal, t.now);
    lemma_first_claimed(s, ids, agent, ttl_secs, t);
    if let (_, Ok(Some(id))) = s.claim_first(ids, agent, ttl_secs, t) {
        lemma_claimed_stays(s, id, agent, ttl_secs, t);
    }
}

/// Work that asks for a capability is only handed to an agent that has it, and with
/// a goal named only work that serves it is handed out. Whoever gets a task could
/// start it.
pub proof fn law_claims_fit(
    s: StoreV,
    capability: Option<Capability>,
    goal: Option<Seq<char>>,
    now: i64,
    id: Seq<char>,
)
    requires
        s.offers(capability, goal, now).contains(id),
    ensures
        exists|t: ScheduledTaskV| #[trigger]
            s.offered(t, capability, goal) && t.task.task.id == id && s.plan(now).waves[0].tasks.contains(t),
{
    let ids = s.offers(capability, goal, now);
    let tasks = s.plan(now).waves[0].tasks;
    let p = |t: ScheduledTaskV| s.offered(t, capability, goal);
    let k = choose|k: int| 0 <= k < ids.len() && ids[k] == id;
    let t = tasks.filter(p)[k];
    tasks.lemma_filter_contains_rev(p, t);
    assert(s.offered(t, capability, goal));
}

/// A claim comes with the scope: whoever was given a task holds every symbol that it
/// is scoped to, and the task runs for them.
pub proof fn law_claim_takes_the_scope(
    s: StoreV,
    id: Seq<char>,
    agent: Seq<char>,
    ttl_secs: i64,
    t: Tick,
)
    requires
        s.ids_differ(),
        s.exclusive(),
        t.ok(),
        0 < ttl_secs <= crate::store::TTL_LIMIT,
        s.claim_one(id, agent, ttl_secs, t).1 == Ok::<bool, StoreErrorV>(true),
    ensures
        ({
            let r = s.claim_one(id, agent, ttl_secs, t).0;
            &&& forall|k: int|
                0 <= k < s.task_scope(id).len() ==> holds_live(
                    r,
                    agent,
                    (#[trigger] s.task_scope(id)[k]).id,
                    t.now,
                )
            &&& r.task_row(id) matches Some(row) && row.state is Running && row.assignee == Some(agent)
            &&& r.ids_differ() && r.exclusive()
        }),
{
    let scope = s.task_scope(id).map_values(|x: SymbolV| x.id);
    let o = claim_options(id, ttl_secs);
    law_scope_all_or_nothing(s, scope, agent, o, t);
    let m = s.settle_scope(scope, agent, o, t).0;
    let r = s.claim_one(id, agent, ttl_secs, t).0;
    assert(r.leases == m.leases);
    assert(r.symbols == m.symbols);
    assert forall|k: int| 0 <= k < s.task_scope(id).len() implies holds_live(
        r,
        agent,
        (#[trigger] s.task_scope(id)[k]).id,
        t.now,
    ) by {
        assert(scope[k] == s.task_scope(id)[k].id);
        assert(holds_live(m, agent, scope[k], t.now));
        let i = choose|i: int|
            0 <= i < m.leases.len() && crate::lease::held(#[trigger] m.leases[i], agent)
                && m.leases[i].symbol_id == scope[k] && !crate::lease::due(m.leases[i], t.now);
        assert(crate::lease::held(r.leases[i], agent));
    }
    lemma_settle_keeps_tasks(s, scope, agent, o, t);
    crate::work::lemma_first_task(m.tasks, id, |x: TaskRowV| claimed(x, agent, t.now));
    assert(r.exclusive()) by {
        assert forall|i: int, j: int|
            0 <= i < r.leases.len() && 0 <= j < r.leases.len() && i != j && (
            #[trigger] r.leases[i]).state is Active && (#[trigger] r.leases[j]).state is Active implies {
            &&& r.leases[i].symbol_id != r.leases[j].symbol_id
            &&& r.leases[i].agent != r.leases[j].agent ==> !r.related(
                r.leases[i].symbol_id,
                r.leases[j].symbol_id,
            )
        } by {
            assert(m.leases[i].state is Active);
            assert(m.leases[j].state is Active);
            assert(r.related(r.leases[i].symbol_id, r.leases[j].symbol_id) == m.related(
                r.leases[i].symbol_id,
                r.leases[j].symbol_id,
            ));
        }
    }
}

/// Acquiring leases tasks and agents alone.
proof fn lemma_acquire_keeps_tasks(
    s: StoreV,
    symbol: Seq<char>,
    agent: Seq<char>,
    o: AcquireOptionsV,
    t: Tick,
)
    ensures
        s.acquire(symbol, agent, o, t).0.tasks == s.tasks,
{
    crate::lease::lemma_expire_keeps(s, t.now);
    if let Some(sym) = s.symbol(symbol) {
        let w = s.swept(t.now);
        let blocking = w.blocking(sym.id, agent);
        crate::lease::lemma_preempt_keeps(w, blocking, agent, o.priority, t.now);
    }
}

proof fn lemma_each_keeps_tasks(
    s: StoreV,
    scope: Seq<Seq<char>>,
    agent: Seq<char>,
    o: AcquireOptionsV,
    t: Tick,
)
    ensures
        s.acquire_each(scope, agent, o, t).0.tasks == s.tasks,
    decreases scope.len(),
{
    if scope.len() > 0 {
        lemma_each_keeps_tasks(s, scope.drop_last(), agent, o, t);
        let m = s.acquire_each(scope.drop_last(), agent, o, t).0;
        lemma_acquire_keeps_tasks(m, scope.last(), agent, o, t);
    }
}

pub(crate) proof fn lemma_settle_keeps_tasks(
    s: StoreV,
    scope: Seq<Seq<char>>,
    agent: Seq<char>,
    o: AcquireOptionsV,
    t: Tick,
)
    ensures
        s.settle_scope(scope, agent, o, t).0.tasks == s.tasks,
{
    lemma_each_keeps_tasks(s, scope, agent, o, t);
}

/// An assignment that is refused changes nothing: the task, and every lease, is
/// where it was.
pub proof fn law_refused_assignment_changes_nothing(
    s: StoreV,
    id: Seq<char>,
    to: Seq<char>,
    actor: Option<Seq<char>>,
    preempt: bool,
    priority: i64,
    t: Tick,
)
    ensures
        s.assign_task_opts(id, to, actor, preempt, priority, t).1 is Err ==> s.assign_task_opts(
            id,
            to,
            actor,
            preempt,
            priority,
            t,
        ).0 == s,
{
}

// --------------------------------------------------------------------- orphans

/// Giving tasks back changes those tasks alone.
pub proof fn law_giving_back(s: StoreV, rows: Seq<TaskRowV>, now: i64, i: int)
    requires
        0 <= i < s.tasks.len(),
    ensures
        ({
            let r = s.give_back_all(rows, now);
            &&& r.tasks.len() == s.tasks.len()
            &&& r.tasks[i].id == s.tasks[i].id
            &&& (exists|k: int| 0 <= k < rows.len() && (#[trigger] rows[k]).id == s.tasks[i].id)
                ==> r.tasks[i].state is Pending && r.tasks[i].assignee is None
            &&& !(exists|k: int| 0 <= k < rows.len() && (#[trigger] rows[k]).id == s.tasks[i].id)
                ==> r.tasks[i] == s.tasks[i]
        }),
    decreases rows.len(),
{
    if rows.len() > 0 {
        let init = rows.drop_last();
        law_giving_back(s, init, now, i);
        let m = s.give_back_all(init, now);
        let x = rows.last();
        let w = m.with_task(x.id, |y: TaskRowV| returned(y, now));
        lemma_finish_each_keeps(
            w,
            w.task_leases(x.id),
            LeaseState::Released,
            "task finished"@,
            now,
        );
        let id = s.tasks[i].id;
        if exists|k: int| 0 <= k < init.len() && (#[trigger] init[k]).id == id {
            let k = choose|k: int| 0 <= k < init.len() && (#[trigger] init[k]).id == id;
            assert(rows[k].id == id);
        }
        if exists|k: int| 0 <= k < rows.len() && (#[trigger] rows[k]).id == id {
            let k = choose|k: int| 0 <= k < rows.len() && (#[trigger] rows[k]).id == id;
            if k < init.len() {
                assert(init[k].id == id);
            }
        }
        if x.id == id {
            assert(rows[rows.len() - 1].id == id);
        }
    }
}

/// Giving a task back ends the leases taken for it, and starts none.
pub proof fn law_giving_back_frees(s: StoreV, rows: Seq<TaskRowV>, now: i64, j: int)
    requires
        0 <= j < s.leases.len(),
    ensures
        ({
            let r = s.give_back_all(rows, now);
            &&& r.leases.len() == s.leases.len()
            &&& r.leases[j].task == s.leases[j].task
            &&& r.leases[j].state is Active ==> s.leases[j].state is Active
            &&& (exists|k: int| 0 <= k < rows.len() && Some((#[trigger] rows[k]).id) == s.leases[j].task)
                ==> !(r.leases[j].state is Active)
        }),
    decreases rows.len(),
{
    if rows.len() > 0 {
        let init = rows.drop_last();
        law_giving_back_frees(s, init, now, j);
        let m = s.give_back_all(init, now);
        let x = rows.last();
        let w = m.with_task(x.id, |y: TaskRowV| returned(y, now));
        let p = |l: LeaseRowV| l.task == Some(x.id) && l.state is Active;
        let held = w.leases.filter(p);
        lemma_finish_each_keeps(w, held, LeaseState::Released, "task finished"@, now);
        let l = w.leases[j];
        if l.task == Some(x.id) && l.state is Active {
            law_filter_has(w.leases, p, l);
            let n = choose|n: int| 0 <= n < held.len() && held[n] == l;
            assert(held[n].id == l.id);
        }
        if exists|k: int| 0 <= k < rows.len() && Some((#[trigger] rows[k]).id) == s.leases[j].task {
            let k = choose|k: int|
                0 <= k < rows.len() && Some((#[trigger] rows[k]).id) == s.leases[j].task;
            if k < init.len() {
                assert(Some(init[k].id) == s.leases[j].task);
            }
        }
    }
}

/// The work of an agent that went silent comes back to the pool with its scope:
/// pending, nobody's, and nothing is leased for it any more.
pub proof fn law_orphans_come_back(s: StoreV, cutoff: int, now: i64, i: int, j: int)
    requires
        0 <= i < s.tasks.len(),
        0 <= j < s.leases.len(),
        s.orphaned(s.tasks[i], cutoff),
        s.leases[j].task == Some(s.tasks[i].id),
    ensures
        ({
            let r = s.give_back_all(s.orphans(cutoff), now);
            &&& r.tasks[i].state is Pending && r.tasks[i].assignee is None
            &&& !(r.leases[j].state is Active)
        }),
{
    let p = |x: TaskRowV| s.orphaned(x, cutoff);
    let rows = s.orphans(cutoff);
    law_filter_has(s.tasks, p, s.tasks[i]);
    let k = choose|k: int| 0 <= k < rows.len() && rows[k] == s.tasks[i];
    assert(rows[k].id == s.tasks[i].id);
    assert(Some(rows[k].id) == s.leases[j].task);
    law_giving_back(s, rows, now, i);
    law_giving_back_frees(s, rows, now, j);
}

/// Work whose agent is alive is left alone.
pub proof fn law_the_living_keep_their_work(s: StoreV, cutoff: int, now: i64, i: int)
    requires
        s.wf(),
        0 <= i < s.tasks.len(),
        !s.orphaned(s.tasks[i], cutoff),
    ensures
        s.give_back_all(s.orphans(cutoff), now).tasks[i] == s.tasks[i],
{
    let p = |x: TaskRowV| s.orphaned(x, cutoff);
    let rows = s.orphans(cutoff);
    if exists|k: int| 0 <= k < rows.len() && (#[trigger] rows[k]).id == s.tasks[i].id {
        let k = choose|k: int| 0 <= k < rows.len() && (#[trigger] rows[k]).id == s.tasks[i].id;
        s.tasks.lemma_filter_contains_rev(p, rows[k]);
        let m = choose|m: int| 0 <= m < s.tasks.len() && s.tasks[m] == rows[k];
        assert(m == i);
    }
    law_giving_back(s, rows, now, i);
}

} // verus!
