//! What inferring dependencies from the code is for: who uses something waits for
//! whoever is changing it.

use vstd::prelude::*;
use vstd::string::*;

use crate::depends::leads;
use crate::graph::NeighborV;
use crate::model::{EdgeKind, EdgeV, Symbol, SymbolV};
use crate::order::{law_sorted_keeps, rank, sorted};
use crate::rows::law_filter_has;
use crate::scan_laws::lemma_kept;
use crate::schedule::{last_where, pairs_once, same_pair, Claim, InferredDep, InferredDepV};
use crate::schedule_laws::{lemma_all_redundant, lemma_deps_grow};
use crate::store::{first_where, law_first_where, LinkV, StoreV, TaskRow};
use crate::work::TaskViewV;

verus! {

broadcast use vstd::string::group_string_axioms;

/// Is there a task with this id whose work is not over?
pub open spec fn under_way(s: StoreV, id: Seq<char>) -> bool {
    exists|i: int|
        0 <= i < s.tasks.len() && (#[trigger] s.tasks[i]).id == id && !(s.tasks[i].state is Done) && !(
        s.tasks[i].state is Failed)
}

/// Is there a symbol with this id?
pub open spec fn exists_symbol(s: StoreV, id: Seq<char>) -> bool {
    exists|i: int| 0 <= i < s.symbols.len() && (#[trigger] s.symbols[i]).id == id
}

/// Is work under way that is scoped to a symbol which is there?
pub open spec fn works_on(s: StoreV, task: Seq<char>, symbol: Seq<char>) -> bool {
    under_way(s, task) && exists_symbol(s, symbol) && s.task_symbols.contains(
        LinkV { left: task, right: symbol },
    )
}

/// Does whoever has one end of an edge wait for whoever has the other?
pub open spec fn waits_for(kind: EdgeKind) -> bool {
    kind == EdgeKind::Calls || kind == EdgeKind::Uses || kind == EdgeKind::Imports || kind
        == EdgeKind::Queries
}

/// Does one task depend on the other, or would that close a loop?
pub open spec fn depends_or_loops(links: Seq<LinkV>, a: Seq<char>, b: Seq<char>) -> bool {
    links.contains(LinkV { left: a, right: b }) || leads(links, b, a)
}

// -------------------------------------------------------------------- what is listed

pub(crate) proof fn lemma_moved<T>(a: Seq<T>, b: Seq<T>, x: T)
    requires
        a.to_multiset() == b.to_multiset(),
        a.contains(x),
    ensures
        b.contains(x),
{
    broadcast use vstd::seq_lib::group_to_multiset_ensures;

    assert(a.to_multiset().count(x) > 0);
}

proof fn lemma_open_listed(s: StoreV, id: Seq<char>) -> (k: int)
    requires
        under_way(s, id),
    ensures
        0 <= k < s.open_tasks().len(),
        s.open_tasks()[k].task.id == id,
{
    let i = choose|i: int|
        0 <= i < s.tasks.len() && (#[trigger] s.tasks[i]).id == id && !(s.tasks[i].state is Done) && !(
        s.tasks[i].state is Failed);
    let row = s.tasks[i];
    law_sorted_keeps(s.tasks, rank::<TaskRow>());
    let rows = sorted(s.tasks, rank::<TaskRow>());
    assert(s.tasks.contains(row));
    lemma_moved(s.tasks, rows, row);
    let j = choose|j: int| 0 <= j < rows.len() && rows[j] == row;
    let v = s.view_of(row);
    assert(s.tasks_listed()[j] == v);
    let p = |t: TaskViewV| !(t.task.state is Done) && !(t.task.state is Failed);
    law_filter_has(s.tasks_listed(), p, v);
    choose|k: int| 0 <= k < s.open_tasks().len() && s.open_tasks()[k] == v
}

proof fn lemma_listed_open(s: StoreV, k: int)
    requires
        0 <= k < s.open_tasks().len(),
    ensures
        under_way(s, s.open_tasks()[k].task.id),
{
    let p = |t: TaskViewV| !(t.task.state is Done) && !(t.task.state is Failed);
    lemma_kept(s.tasks_listed(), p, k);
    s.tasks_listed().lemma_filter_pred(p, k);
    let v = s.open_tasks()[k];
    let j = choose|j: int| 0 <= j < s.tasks_listed().len() && s.tasks_listed()[j] == v;
    law_sorted_keeps(s.tasks, rank::<TaskRow>());
    let rows = sorted(s.tasks, rank::<TaskRow>());
    assert(v == s.view_of(rows[j]));
    assert(rows.contains(rows[j]));
    lemma_moved(rows, s.tasks, rows[j]);
    let i = choose|i: int| 0 <= i < s.tasks.len() && s.tasks[i] == rows[j];
    assert(s.tasks[i].id == v.task.id);
}

proof fn lemma_symbols_have(s: StoreV, ids: Seq<Seq<char>>, id: Seq<char>)
    requires
        ids.contains(id),
        s.symbol(id) is Some,
    ensures
        s.symbols_of(ids).contains(s.symbol(id)->0),
    decreases ids.len(),
{
    let k = choose|k: int| 0 <= k < ids.len() && ids[k] == id;
    let x = s.symbol(id)->0;
    let rest = s.symbols_of(ids.drop_last());
    if k < ids.len() - 1 {
        assert(ids.drop_last()[k] == id);
        lemma_symbols_have(s, ids.drop_last(), id);
        let j = choose|j: int| 0 <= j < rest.len() && rest[j] == x;
        assert(s.symbols_of(ids)[j] == x);
    } else {
        assert(s.symbols_of(ids)[rest.len() as int] == x);
    }
}

pub(crate) proof fn lemma_symbols_from(s: StoreV, ids: Seq<Seq<char>>, x: SymbolV)
    requires
        s.symbols_of(ids).contains(x),
    ensures
        ids.contains(x.id),
        s.symbols.contains(x),
    decreases ids.len(),
{
    let k = choose|k: int| 0 <= k < s.symbols_of(ids).len() && s.symbols_of(ids)[k] == x;
    let rest = s.symbols_of(ids.drop_last());
    law_first_where(s.symbols, |y: SymbolV| y.id == ids.last());
    if k < rest.len() {
        assert(rest[k] == x);
        lemma_symbols_from(s, ids.drop_last(), x);
        let j = choose|j: int| 0 <= j < ids.drop_last().len() && ids.drop_last()[j] == x.id;
        assert(ids[j] == x.id);
    } else {
        assert(ids[ids.len() - 1] == x.id);
    }
}

pub(crate) proof fn lemma_symbol_there(s: StoreV, id: Seq<char>)
    requires
        exists_symbol(s, id),
    ensures
        s.symbol(id) is Some,
        s.symbol(id)->0.id == id,
{
    law_first_where(s.symbols, |x: SymbolV| x.id == id);
    let i = choose|i: int| 0 <= i < s.symbols.len() && (#[trigger] s.symbols[i]).id == id;
    assert(s.symbols[i].id == id);
}

/// A symbol that a task is scoped to is in its scope.
proof fn lemma_in_scope(s: StoreV, task: Seq<char>, symbol: Seq<char>)
    requires
        exists_symbol(s, symbol),
        s.task_symbols.contains(LinkV { left: task, right: symbol }),
    ensures
        s.task_scope(task).contains(s.symbol(symbol)->0),
{
    lemma_symbol_there(s, symbol);
    let l = LinkV { left: task, right: symbol };
    let p = |x: LinkV| x.left == task;
    law_filter_has(s.task_symbols, p, l);
    let some = s.task_symbols.filter(p);
    let k = choose|k: int| 0 <= k < some.len() && some[k] == l;
    assert(s.scope_ids(task)[k] == symbol);
    lemma_symbols_have(s, s.scope_ids(task), symbol);
    law_sorted_keeps(s.symbols_of(s.scope_ids(task)), rank::<Symbol>());
    lemma_moved(s.symbols_of(s.scope_ids(task)), s.task_scope(task), s.symbol(symbol)->0);
}

/// What is in the scope of a task, the task is scoped to.
proof fn lemma_scope_of(s: StoreV, task: Seq<char>, x: SymbolV)
    requires
        s.task_scope(task).contains(x),
    ensures
        exists_symbol(s, x.id),
        s.task_symbols.contains(LinkV { left: task, right: x.id }),
{
    law_sorted_keeps(s.symbols_of(s.scope_ids(task)), rank::<Symbol>());
    lemma_moved(s.task_scope(task), s.symbols_of(s.scope_ids(task)), x);
    lemma_symbols_from(s, s.scope_ids(task), x);
    let p = |l: LinkV| l.left == task;
    let some = s.task_symbols.filter(p);
    let k = choose|k: int| 0 <= k < s.scope_ids(task).len() && s.scope_ids(task)[k] == x.id;
    lemma_kept(s.task_symbols, p, k);
    s.task_symbols.lemma_filter_pred(p, k);
    assert(some[k] == LinkV { left: task, right: x.id });
    let i = choose|i: int| 0 <= i < s.symbols.len() && s.symbols[i] == x;
    assert(s.symbols[i].id == x.id);
}

proof fn lemma_claims_have(s: StoreV, tasks: Seq<TaskViewV>, k: int, x: SymbolV)
    requires
        0 <= k < tasks.len(),
        s.task_scope(tasks[k].task.id).contains(x),
    ensures
        s.claims(tasks).contains(Claim { symbol: x, task: tasks[k].task.id }),
    decreases tasks.len(),
{
    let c = Claim { symbol: x, task: tasks[k].task.id };
    let before = s.claims(tasks.drop_last());
    if k < tasks.len() - 1 {
        lemma_claims_have(s, tasks.drop_last(), k, x);
        let j = choose|j: int| 0 <= j < before.len() && before[j] == c;
        assert(s.claims(tasks)[j] == c);
    } else {
        let scope = s.task_scope(tasks[k].task.id);
        let j = choose|j: int| 0 <= j < scope.len() && scope[j] == x;
        assert(s.claims(tasks)[before.len() + j] == c);
    }
}

proof fn lemma_claims_of(s: StoreV, tasks: Seq<TaskViewV>, n: int) -> (k: int)
    requires
        0 <= n < s.claims(tasks).len(),
    ensures
        0 <= k < tasks.len(),
        s.claims(tasks)[n].task == tasks[k].task.id,
        s.task_scope(tasks[k].task.id).contains(s.claims(tasks)[n].symbol),
    decreases tasks.len(),
{
    let before = s.claims(tasks.drop_last());
    if n < before.len() {
        lemma_claims_of(s, tasks.drop_last(), n)
    } else {
        let id = tasks.last().task.id;
        assert(s.claims(tasks)[n].symbol == s.task_scope(id)[n - before.len()]);
        tasks.len() - 1
    }
}

/// The claims are what tasks under way are scoped to.
proof fn lemma_claim(s: StoreV, task: Seq<char>, symbol: Seq<char>)
    requires
        works_on(s, task, symbol),
    ensures
        s.claims(s.open_tasks()).contains(Claim { symbol: s.symbol(symbol)->0, task }),
{
    let k = lemma_open_listed(s, task);
    lemma_in_scope(s, task, symbol);
    lemma_claims_have(s, s.open_tasks(), k, s.symbol(symbol)->0);
}

proof fn lemma_claimant(s: StoreV, c: Claim)
    requires
        s.claims(s.open_tasks()).contains(c),
    ensures
        works_on(s, c.task, c.symbol.id),
{
    let all = s.claims(s.open_tasks());
    let n = choose|n: int| 0 <= n < all.len() && all[n] == c;
    let k = lemma_claims_of(s, s.open_tasks(), n);
    lemma_listed_open(s, k);
    lemma_scope_of(s, c.task, c.symbol);
}

proof fn lemma_last_where<T>(s: Seq<T>, p: spec_fn(T) -> bool)
    ensures
        match last_where(s, p) {
            Some(x) => p(x) && s.contains(x),
            None => forall|i: int| 0 <= i < s.len() ==> !p(#[trigger] s[i]),
        },
    decreases s.len(),
{
    if s.len() > 0 {
        lemma_last_where(s.drop_last(), p);
        if p(s.last()) {
            assert(s[s.len() - 1] == s.last());
        } else {
            match last_where(s.drop_last(), p) {
                Some(x) => {
                    let k = choose|k: int| 0 <= k < s.drop_last().len() && s.drop_last()[k] == x;
                    assert(s[k] == x);
                },
                None => {
                    assert forall|i: int| 0 <= i < s.len() implies !p(#[trigger] s[i]) by {
                        if i < s.len() - 1 {
                            assert(s.drop_last()[i] == s[i]);
                        }
                    }
                },
            }
        }
    }
}

/// Who a symbol belongs to.
proof fn lemma_owner(s: StoreV, symbol: Seq<char>)
    ensures
        ({
            let claims = s.claims(s.open_tasks());
            match s.owner(claims, symbol) {
                Some(t) => works_on(s, t, symbol) || (exists|y: Seq<char>|
                    y != symbol && #[trigger] works_on(s, t, y) && s.covers(y, symbol)) && !exists|u: Seq<
                    char,
                >| #[trigger] works_on(s, u, symbol),
                None => forall|u: Seq<char>, y: Seq<char>| #[trigger]
                    works_on(s, u, y) ==> y != symbol && !s.covers(y, symbol),
            }
        }),
{
    let claims = s.claims(s.open_tasks());
    let here = |c: Claim| c.symbol.id == symbol;
    let around = |c: Claim| c.symbol.id != symbol && s.covers(c.symbol.id, symbol);
    lemma_last_where(claims, here);
    law_first_where(claims, around);
    match last_where(claims, here) {
        Some(c) => {
            lemma_claimant(s, c);
        },
        None => {
            assert forall|u: Seq<char>| !#[trigger] works_on(s, u, symbol) by {
                if works_on(s, u, symbol) {
                    lemma_symbol_there(s, symbol);
                    lemma_claim(s, u, symbol);
                    let c = Claim { symbol: s.symbol(symbol)->0, task: u };
                    let k = choose|k: int| 0 <= k < claims.len() && claims[k] == c;
                    assert(here(claims[k]));
                }
            }
            match first_where(claims, around) {
                Some(c) => {
                    lemma_claimant(s, c);
                },
                None => {
                    assert forall|u: Seq<char>, y: Seq<char>| #[trigger] works_on(s, u, y) implies y != symbol
                        && !s.covers(y, symbol) by {
                        lemma_symbol_there(s, y);
                        lemma_claim(s, u, y);
                        let c = Claim { symbol: s.symbol(y)->0, task: u };
                        let k = choose|k: int| 0 <= k < claims.len() && claims[k] == c;
                        assert(!around(claims[k]));
                    }
                },
            }
        },
    }
}

proof fn lemma_neighbour(s: StoreV, ends: Seq<(Seq<char>, EdgeKind)>, k: int)
    requires
        0 <= k < ends.len(),
        s.symbol(ends[k].0) is Some,
    ensures
        s.neighbours(ends).contains(
            NeighborV { symbol: s.symbol(ends[k].0)->0, kind: ends[k].1 },
        ),
    decreases ends.len(),
{
    let n = NeighborV { symbol: s.symbol(ends[k].0)->0, kind: ends[k].1 };
    let before = s.neighbours(ends.drop_last());
    if k < ends.len() - 1 {
        lemma_neighbour(s, ends.drop_last(), k);
        let j = choose|j: int| 0 <= j < before.len() && before[j] == n;
        assert(s.neighbours(ends)[j] == n);
    } else {
        assert(s.neighbours(ends)[before.len() as int] == n);
    }
}

proof fn lemma_neighbour_of(s: StoreV, ends: Seq<(Seq<char>, EdgeKind)>, n: int) -> (k: int)
    requires
        0 <= n < s.neighbours(ends).len(),
    ensures
        0 <= k < ends.len(),
        s.neighbours(ends)[n].symbol.id == ends[k].0,
        s.neighbours(ends)[n].kind == ends[k].1,
    decreases ends.len(),
{
    let before = s.neighbours(ends.drop_last());
    if n < before.len() {
        lemma_neighbour_of(s, ends.drop_last(), n)
    } else {
        law_first_where(s.symbols, |x: SymbolV| x.id == ends.last().0);
        ends.len() - 1
    }
}

/// What a symbol uses is among its neighbours.
proof fn lemma_callee(s: StoreV, e: EdgeV)
    requires
        s.edges.contains(e),
        waits_for(e.kind),
        exists_symbol(s, e.dst),
    ensures
        s.neighbors(e.src).callees.contains(NeighborV { symbol: s.symbol(e.dst)->0, kind: e.kind }),
{
    lemma_symbol_there(s, e.dst);
    let p = |x: EdgeV| x.src == e.src && x.kind.semantic();
    law_filter_has(s.edges, p, e);
    let some = s.edges.filter(p);
    let k = choose|k: int| 0 <= k < some.len() && some[k] == e;
    let ends = some.map_values(|x: EdgeV| (x.dst, x.kind));
    assert(ends[k] == (e.dst, e.kind));
    lemma_neighbour(s, ends, k);
}

proof fn lemma_callee_of(s: StoreV, id: Seq<char>, n: int) -> (e: EdgeV)
    requires
        0 <= n < s.neighbors(id).callees.len(),
    ensures
        s.edges.contains(e),
        e.src == id,
        e.dst == s.neighbors(id).callees[n].symbol.id,
        e.kind == s.neighbors(id).callees[n].kind,
{
    let p = |x: EdgeV| x.src == id && x.kind.semantic();
    let some = s.edges.filter(p);
    let ends = some.map_values(|x: EdgeV| (x.dst, x.kind));
    let k = lemma_neighbour_of(s, ends, n);
    lemma_kept(s.edges, p, k);
    s.edges.lemma_filter_pred(p, k);
    some[k]
}

proof fn lemma_asked_by_has(s: StoreV, claims: Seq<Claim>, c: Claim, out: Seq<NeighborV>, k: int)
    requires
        0 <= k < out.len(),
        waits_for(out[k].kind),
        s.owner(claims, out[k].symbol.id) matches Some(t) && t != c.task,
    ensures
        s.asked_by(claims, c, out).contains(
            InferredDepV {
                task: c.task,
                depends_on: s.owner(claims, out[k].symbol.id)->0,
                via: c.symbol.handle(),
                edge: out[k].kind,
            },
        ),
    decreases out.len(),
{
    let d = InferredDepV {
        task: c.task,
        depends_on: s.owner(claims, out[k].symbol.id)->0,
        via: c.symbol.handle(),
        edge: out[k].kind,
    };
    let before = s.asked_by(claims, c, out.drop_last());
    if k < out.len() - 1 {
        lemma_asked_by_has(s, claims, c, out.drop_last(), k);
        let j = choose|j: int| 0 <= j < before.len() && before[j] == d;
        assert(s.asked_by(claims, c, out)[j] == d);
    } else {
        assert(s.asked_by(claims, c, out)[before.len() as int] == d);
    }
}

proof fn lemma_asked_by_of(s: StoreV, claims: Seq<Claim>, c: Claim, out: Seq<NeighborV>, n: int) -> (k: int)
    requires
        0 <= n < s.asked_by(claims, c, out).len(),
    ensures
        ({
            let d = s.asked_by(claims, c, out)[n];
            &&& 0 <= k < out.len()
            &&& waits_for(out[k].kind)
            &&& d.task == c.task
            &&& d.via == c.symbol.handle()
            &&& d.edge == out[k].kind
            &&& s.owner(claims, out[k].symbol.id) == Some(d.depends_on)
            &&& d.depends_on != d.task
        }),
    decreases out.len(),
{
    let before = s.asked_by(claims, c, out.drop_last());
    if n < before.len() {
        lemma_asked_by_of(s, claims, c, out.drop_last(), n)
    } else {
        out.len() - 1
    }
}

proof fn lemma_asked_has(s: StoreV, claims: Seq<Claim>, some: Seq<Claim>, k: int, d: InferredDepV)
    requires
        0 <= k < some.len(),
        s.asked_by(claims, some[k], s.neighbors(some[k].symbol.id).callees).contains(d),
    ensures
        s.asked(claims, some).contains(d),
    decreases some.len(),
{
    let before = s.asked(claims, some.drop_last());
    if k < some.len() - 1 {
        lemma_asked_has(s, claims, some.drop_last(), k, d);
        let j = choose|j: int| 0 <= j < before.len() && before[j] == d;
        assert(s.asked(claims, some)[j] == d);
    } else {
        let more = s.asked_by(claims, some[k], s.neighbors(some[k].symbol.id).callees);
        let j = choose|j: int| 0 <= j < more.len() && more[j] == d;
        assert(s.asked(claims, some)[before.len() + j] == d);
    }
}

proof fn lemma_asked_of(s: StoreV, claims: Seq<Claim>, some: Seq<Claim>, n: int) -> (k: int)
    requires
        0 <= n < s.asked(claims, some).len(),
    ensures
        0 <= k < some.len(),
        s.asked_by(claims, some[k], s.neighbors(some[k].symbol.id).callees).contains(
            s.asked(claims, some)[n],
        ),
    decreases some.len(),
{
    let before = s.asked(claims, some.drop_last());
    if n < before.len() {
        lemma_asked_of(s, claims, some.drop_last(), n)
    } else {
        let c = some.last();
        let more = s.asked_by(claims, c, s.neighbors(c.symbol.id).callees);
        assert(more[n - before.len()] == s.asked(claims, some)[n]);
        some.len() - 1
    }
}

proof fn lemma_pair_kept(ds: Seq<InferredDepV>, k: int) -> (n: int)
    requires
        0 <= k < ds.len(),
    ensures
        0 <= n < pairs_once(ds).len(),
        same_pair(pairs_once(ds)[n], ds[k]),
    decreases ds.len(),
{
    let before = pairs_once(ds.drop_last());
    if k < ds.len() - 1 {
        lemma_pair_kept(ds.drop_last(), k)
    } else if before.len() > 0 && same_pair(before.last(), ds.last()) {
        before.len() - 1
    } else {
        before.len() as int
    }
}

proof fn lemma_pair_of(ds: Seq<InferredDepV>, n: int)
    requires
        0 <= n < pairs_once(ds).len(),
    ensures
        ds.contains(pairs_once(ds)[n]),
    decreases ds.len(),
{
    let before = pairs_once(ds.drop_last());
    if n < before.len() {
        lemma_pair_of(ds.drop_last(), n);
        let j = choose|j: int| 0 <= j < ds.drop_last().len() && ds.drop_last()[j] == before[n];
        assert(ds[j] == before[n]);
    } else {
        assert(ds[ds.len() - 1] == pairs_once(ds)[n]);
    }
}

/// An edge out of something that one task is scoped to asks for a dependency on
/// whoever the other end belongs to.
proof fn lemma_edge_asks(s: StoreV, a: Seq<char>, e: EdgeV, b: Seq<char>) -> (n: int)
    requires
        works_on(s, a, e.src),
        s.edges.contains(e),
        waits_for(e.kind),
        exists_symbol(s, e.dst),
        s.owner(s.claims(s.open_tasks()), e.dst) == Some(b),
        a != b,
    ensures
        0 <= n < s.wanted().len(),
        s.wanted()[n].task == a,
        s.wanted()[n].depends_on == b,
{
    let claims = s.claims(s.open_tasks());
    lemma_symbol_there(s, e.src);
    lemma_symbol_there(s, e.dst);
    lemma_claim(s, a, e.src);
    let c = Claim { symbol: s.symbol(e.src)->0, task: a };
    let i = choose|i: int| 0 <= i < claims.len() && claims[i] == c;
    lemma_callee(s, e);
    let out = s.neighbors(e.src).callees;
    let nb = NeighborV { symbol: s.symbol(e.dst)->0, kind: e.kind };
    let k = choose|k: int| 0 <= k < out.len() && out[k] == nb;
    lemma_asked_by_has(s, claims, c, out, k);
    let d = InferredDepV { task: a, depends_on: b, via: c.symbol.handle(), edge: e.kind };
    lemma_asked_has(s, claims, claims, i, d);
    let asked = s.asked(claims, claims);
    law_sorted_keeps(asked, rank::<InferredDep>());
    let order = sorted(asked, rank::<InferredDep>());
    lemma_moved(asked, order, d);
    let j = choose|j: int| 0 <= j < order.len() && order[j] == d;
    lemma_pair_kept(order, j)
}

// ------------------------------------------------------------------------------ laws

/// Whoever uses something waits for whoever is changing it. Where a symbol that task
/// `a` is scoped to calls, uses, imports or queries one that other work under way is
/// scoped to, then afterwards `a` depends on one of those tasks, or that would close a
/// loop.
pub proof fn law_users_wait_for_changes(s: StoreV, now: i64, a: Seq<char>, e: EdgeV)
    requires
        works_on(s, a, e.src),
        s.edges.contains(e),
        e.kind == EdgeKind::Calls || e.kind == EdgeKind::Uses || e.kind == EdgeKind::Imports || e.kind
            == EdgeKind::Queries,
        exists|b: Seq<char>| #[trigger] works_on(s, b, e.dst),
        !works_on(s, a, e.dst),
    ensures
        exists|b: Seq<char>| #[trigger]
            works_on(s, b, e.dst) && depends_or_loops(
                s.add_deps(s.wanted(), now).0.task_deps,
                a,
                b,
            ),
{
    lemma_owner(s, e.dst);
    let u = choose|u: Seq<char>| #[trigger] works_on(s, u, e.dst);
    let b = s.owner(s.claims(s.open_tasks()), e.dst)->0;
    assert(works_on(s, b, e.dst));
    let n = lemma_edge_asks(s, a, e, b);
    lemma_all_redundant(s, s.wanted(), now, n);
}

/// Where only one task under way is scoped to what is used, that is the one to wait
/// for.
pub proof fn law_users_wait_for_the_change(s: StoreV, now: i64, a: Seq<char>, b: Seq<char>, e: EdgeV)
    requires
        a != b,
        works_on(s, a, e.src),
        works_on(s, b, e.dst),
        s.edges.contains(e),
        e.kind == EdgeKind::Calls || e.kind == EdgeKind::Uses || e.kind == EdgeKind::Imports || e.kind
            == EdgeKind::Queries,
        forall|t: Seq<char>| #[trigger] works_on(s, t, e.dst) ==> t == b,
    ensures
        s.add_deps(s.wanted(), now).0.task_deps.contains(LinkV { left: a, right: b }) || leads(
            s.add_deps(s.wanted(), now).0.task_deps,
            b,
            a,
        ),
{
    law_users_wait_for_changes(s, now, a, e);
}

/// Work on a class is work on its methods: where nobody is scoped to what is used, but
/// one task under way is scoped to something around it, that is the one to wait for.
pub proof fn law_users_wait_for_what_is_around(
    s: StoreV,
    now: i64,
    a: Seq<char>,
    b: Seq<char>,
    e: EdgeV,
    outer: Seq<char>,
)
    requires
        a != b,
        works_on(s, a, e.src),
        exists_symbol(s, e.dst),
        works_on(s, b, outer),
        s.covers(outer, e.dst),
        s.edges.contains(e),
        e.kind == EdgeKind::Calls || e.kind == EdgeKind::Uses || e.kind == EdgeKind::Imports || e.kind
            == EdgeKind::Queries,
        forall|t: Seq<char>, y: Seq<char>| #[trigger]
            works_on(s, t, y) && (y == e.dst || s.covers(y, e.dst)) ==> t == b,
    ensures
        s.add_deps(s.wanted(), now).0.task_deps.contains(LinkV { left: a, right: b }) || leads(
            s.add_deps(s.wanted(), now).0.task_deps,
            b,
            a,
        ),
{
    lemma_owner(s, e.dst);
    let t = s.owner(s.claims(s.open_tasks()), e.dst)->0;
    assert(t == b);
    let n = lemma_edge_asks(s, a, e, b);
    lemma_all_redundant(s, s.wanted(), now, n);
}

/// Is there an edge that makes one task wait for the other, of this kind and out of
/// the symbol with this handle?
pub open spec fn reason(s: StoreV, d: InferredDepV, e: EdgeV) -> bool {
    &&& s.edges.contains(e)
    &&& waits_for(e.kind)
    &&& e.kind == d.edge
    &&& works_on(s, d.task, e.src)
    &&& exists|y: Seq<char>| #[trigger]
        works_on(s, d.depends_on, y) && (y == e.dst || s.covers(y, e.dst))
    &&& d.task != d.depends_on
    &&& exists|i: int|
        0 <= i < s.symbols.len() && (#[trigger] s.symbols[i]).id == e.src && s.symbols[i].handle() == d.via
}

proof fn lemma_wanted_has_reason(s: StoreV, n: int) -> (e: EdgeV)
    requires
        0 <= n < s.wanted().len(),
    ensures
        reason(s, s.wanted()[n], e),
{
    let claims = s.claims(s.open_tasks());
    let asked = s.asked(claims, claims);
    let order = sorted(asked, rank::<InferredDep>());
    law_sorted_keeps(asked, rank::<InferredDep>());
    let d = s.wanted()[n];
    lemma_pair_of(order, n);
    lemma_moved(order, asked, d);
    let j = choose|j: int| 0 <= j < asked.len() && asked[j] == d;
    let i = lemma_asked_of(s, claims, claims, j);
    let c = claims[i];
    let out = s.neighbors(c.symbol.id).callees;
    let more = s.asked_by(claims, c, out);
    let m = choose|m: int| 0 <= m < more.len() && more[m] == d;
    let k = lemma_asked_by_of(s, claims, c, out, m);
    let e = lemma_callee_of(s, c.symbol.id, k);
    lemma_claimant(s, c);
    lemma_owner(s, e.dst);
    lemma_claim_symbol(s, c);
    e
}

proof fn lemma_claim_symbol(s: StoreV, c: Claim)
    requires
        s.claims(s.open_tasks()).contains(c),
    ensures
        s.symbols.contains(c.symbol),
        exists|i: int| 0 <= i < s.symbols.len() && (#[trigger] s.symbols[i]).id == c.symbol.id && s.symbols[i].handle()
            == c.symbol.handle(),
{
    let all = s.claims(s.open_tasks());
    let n = choose|n: int| 0 <= n < all.len() && all[n] == c;
    let k = lemma_claims_of(s, s.open_tasks(), n);
    law_sorted_keeps(s.symbols_of(s.scope_ids(c.task)), rank::<Symbol>());
    lemma_moved(s.task_scope(c.task), s.symbols_of(s.scope_ids(c.task)), c.symbol);
    lemma_symbols_from(s, s.scope_ids(c.task), c.symbol);
    let i = choose|i: int| 0 <= i < s.symbols.len() && s.symbols[i] == c.symbol;
    assert(s.symbols[i].id == c.symbol.id);
}

proof fn lemma_reported_of(s: StoreV, ds: Seq<InferredDepV>, now: i64, k: int)
    requires
        0 <= k < s.add_deps(ds, now).1.len(),
    ensures
        ds.contains(s.add_deps(ds, now).1[k]),
        !s.task_deps.contains(
            LinkV { left: s.add_deps(ds, now).1[k].task, right: s.add_deps(ds, now).1[k].depends_on },
        ),
    decreases ds.len(),
{
    let init = ds.drop_last();
    let (m, some) = s.add_deps(init, now);
    lemma_deps_grow(s, init, now);
    if k < some.len() {
        lemma_reported_of(s, init, now, k);
        let j = choose|j: int| 0 <= j < init.len() && init[j] == some[k];
        assert(ds[j] == some[k]);
    } else {
        assert(ds[ds.len() - 1] == s.add_deps(ds, now).1[k]);
        let l = LinkV { left: ds.last().task, right: ds.last().depends_on };
        if s.task_deps.contains(l) {
            let i = choose|i: int| 0 <= i < s.task_deps.len() && s.task_deps[i] == l;
            assert(m.task_deps[i] == l);
        }
    }
}

proof fn lemma_link_of(s: StoreV, ds: Seq<InferredDepV>, now: i64, l: LinkV) -> (k: int)
    requires
        s.add_deps(ds, now).0.task_deps.contains(l),
        !s.task_deps.contains(l),
    ensures
        0 <= k < s.add_deps(ds, now).1.len(),
        s.add_deps(ds, now).1[k].task == l.left,
        s.add_deps(ds, now).1[k].depends_on == l.right,
    decreases ds.len(),
{
    if ds.len() == 0 {
        0
    } else {
        let init = ds.drop_last();
        let (m, some) = s.add_deps(init, now);
        if m.task_deps.contains(l) {
            lemma_link_of(s, init, now, l)
        } else {
            let r = s.add_deps(ds, now).0;
            let i = choose|i: int| 0 <= i < r.task_deps.len() && r.task_deps[i] == l;
            assert(i >= m.task_deps.len());
            some.len() as int
        }
    }
}

/// Nothing waits without a reason: whatever is reported was not there before, and an
/// edge of the code asks for it. The report names that edge's kind and the symbol that
/// it comes out of.
pub proof fn law_inferred_dependencies_have_reasons(s: StoreV, now: i64, k: int) -> (e: EdgeV)
    requires
        0 <= k < s.add_deps(s.wanted(), now).1.len(),
    ensures
        reason(s, s.add_deps(s.wanted(), now).1[k], e),
        !s.task_deps.contains(
            LinkV {
                left: s.add_deps(s.wanted(), now).1[k].task,
                right: s.add_deps(s.wanted(), now).1[k].depends_on,
            },
        ),
{
    lemma_reported_of(s, s.wanted(), now, k);
    let d = s.add_deps(s.wanted(), now).1[k];
    let n = choose|n: int| 0 <= n < s.wanted().len() && s.wanted()[n] == d;
    lemma_wanted_has_reason(s, n)
}

/// Every dependency that was created is reported, and no dependency is taken away.
pub proof fn law_created_dependencies_are_reported(s: StoreV, now: i64, l: LinkV)
    ensures
        s.task_deps.contains(l) ==> s.add_deps(s.wanted(), now).0.task_deps.contains(l),
        s.add_deps(s.wanted(), now).0.task_deps.contains(l) && !s.task_deps.contains(l) ==> exists|k: int|
            0 <= k < s.add_deps(s.wanted(), now).1.len() && (#[trigger] s.add_deps(
                s.wanted(),
                now,
            ).1[k]).task == l.left && s.add_deps(s.wanted(), now).1[k].depends_on == l.right,
{
    let r = s.add_deps(s.wanted(), now).0;
    lemma_deps_grow(s, s.wanted(), now);
    if s.task_deps.contains(l) {
        let i = choose|i: int| 0 <= i < s.task_deps.len() && s.task_deps[i] == l;
        assert(r.task_deps[i] == l);
    } else if r.task_deps.contains(l) {
        let k = lemma_link_of(s, s.wanted(), now, l);
        assert(s.add_deps(s.wanted(), now).1[k].task == l.left);
    }
}

} // verus!
