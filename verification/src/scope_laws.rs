//! What a task touches, and who is given it.

use vstd::prelude::*;
use vstd::string::*;

use crate::arch_laws::lemma_sorted_has;
use crate::claim_laws::lemma_row;
use crate::edge_laws::lemma_parts;
use crate::lookup_laws::lemma_filtered;
use crate::model::{Symbol, SymbolV};
use crate::order::rank;
use crate::schedule::assign_options;
use crate::schedule_laws::lemma_settle_keeps_tasks;
use crate::store::{task_ids_differ, LeaseRowV, LinkV, StoreErrorV, StoreV, TaskRowV, Tick};
use crate::task_laws::lemma_linked;

verus! {

broadcast use vstd::string::group_string_axioms;

proof fn lemma_symbols_of(s: StoreV, ids: Seq<Seq<char>>, x: SymbolV)
    ensures
        s.symbols_of(ids).contains(x) <==> exists|k: int|
            0 <= k < ids.len() && s.symbol(#[trigger] ids[k]) == Some(x),
    decreases ids.len(),
{
    if ids.len() > 0 {
        let init = ids.drop_last();
        let last = ids.len() - 1;
        lemma_symbols_of(s, init, x);
        let a = s.symbols_of(init);
        let mine = match s.symbol(ids.last()) {
            Some(y) => seq![y],
            None => Seq::empty(),
        };
        assert(s.symbols_of(ids) =~= a + mine);
        lemma_parts(a, mine, x);
        if mine.contains(x) {
            assert(s.symbol(ids[last]) == Some(x));
        }
        if a.contains(x) {
            let k = choose|k: int| 0 <= k < init.len() && s.symbol(#[trigger] init[k]) == Some(x);
            assert(ids[k] == init[k]);
        }
        if exists|k: int| 0 <= k < ids.len() && s.symbol(#[trigger] ids[k]) == Some(x) {
            let k = choose|k: int| 0 <= k < ids.len() && s.symbol(#[trigger] ids[k]) == Some(x);
            if k < last {
                assert(init[k] == ids[k]);
            } else {
                assert(mine[0] == x);
            }
        }
    }
}

/// The scope of a task is the symbols that it is linked to.
pub proof fn law_scope_is_what_is_linked(s: StoreV, task: Seq<char>, x: SymbolV)
    ensures
        s.task_scope(task).contains(x) <==> exists|k: int|
            0 <= k < s.task_symbols.len() && (#[trigger] s.task_symbols[k]).left == task && s.symbol(
                s.task_symbols[k].right,
            ) == Some(x),
{
    let p = |l: LinkV| l.left == task;
    let mine = s.task_symbols.filter(p);
    let ids = s.scope_ids(task);
    let r = rank::<Symbol>();
    lemma_sorted_has(s.symbols_of(ids), r, x);
    lemma_symbols_of(s, ids, x);
    if exists|k: int| 0 <= k < ids.len() && s.symbol(#[trigger] ids[k]) == Some(x) {
        let k = choose|k: int| 0 <= k < ids.len() && s.symbol(#[trigger] ids[k]) == Some(x);
        assert(mine.contains(mine[k]));
        lemma_filtered(s.task_symbols, p, mine[k]);
        let j = choose|j: int| 0 <= j < s.task_symbols.len() && s.task_symbols[j] == mine[k];
        assert(s.task_symbols[j].left == task);
    }
    if exists|k: int|
        0 <= k < s.task_symbols.len() && (#[trigger] s.task_symbols[k]).left == task && s.symbol(
            s.task_symbols[k].right,
        ) == Some(x) {
        let k = choose|k: int|
            0 <= k < s.task_symbols.len() && (#[trigger] s.task_symbols[k]).left == task && s.symbol(
                s.task_symbols[k].right,
            ) == Some(x);
        assert(s.task_symbols.contains(s.task_symbols[k]));
        lemma_filtered(s.task_symbols, p, s.task_symbols[k]);
        let j = choose|j: int| 0 <= j < mine.len() && mine[j] == s.task_symbols[k];
        assert(ids[j] == mine[j].right);
        assert(s.symbol(ids[j]) == Some(x));
    }
}

proof fn lemma_resolve_all(s: StoreV, queries: Seq<Seq<char>>)
    ensures
        s.resolve_all(queries) matches Ok(found) ==> found.len() == queries.len() && forall|k: int|
            0 <= k < queries.len() ==> s.resolve(#[trigger] queries[k]) == Ok::<SymbolV, StoreErrorV>(found[k]),
        s.resolve_all(queries) is Err ==> exists|k: int|
            0 <= k < queries.len() && s.resolve(#[trigger] queries[k]) is Err,
    decreases queries.len(),
{
    if queries.len() > 0 {
        let init = queries.drop_last();
        let last = queries.len() - 1;
        lemma_resolve_all(s, init);
        match s.resolve_all(init) {
            Err(_) => {
                let k = choose|k: int| 0 <= k < init.len() && s.resolve(#[trigger] init[k]) is Err;
                assert(queries[k] == init[k]);
            },
            Ok(found) => {
                if let Ok(x) = s.resolve(queries.last()) {
                    let all = found.push(x);
                    assert forall|k: int| 0 <= k < queries.len() implies s.resolve(#[trigger] queries[k]) == Ok::<
                        SymbolV,
                        StoreErrorV,
                    >(all[k]) by {
                        if k < last {
                            assert(init[k] == queries[k]);
                        }
                    }
                } else {
                    assert(s.resolve(queries[last]) is Err);
                }
            },
        }
    }
}

/// Scoping a task links it to every symbol that is named, where each of them is found and
/// the task is known; otherwise nothing changes. What it was linked to before stays.
pub proof fn law_scoping(s: StoreV, task: Seq<char>, queries: Seq<Seq<char>>, now: i64, k: int, l: LinkV)
    ensures
        ({
            let (r, x) = s.set_task_scope(task, queries, now);
            let all_found = forall|j: int| 0 <= j < queries.len() ==> s.resolve(#[trigger] queries[j]) is Ok;
            &&& x is Ok <==> all_found && s.task_row(task) is Some
            &&& x is Err ==> r == s
            &&& x is Ok && 0 <= k < queries.len() ==> r.task_symbols.contains(
                LinkV { left: task, right: s.resolve(queries[k])->Ok_0.id },
            )
            &&& x is Ok && s.task_symbols.contains(l) ==> r.task_symbols.contains(l)
            &&& x is Ok && r.task_symbols.contains(l) && !s.task_symbols.contains(l) ==> l.left == task && exists|j: int|
                0 <= j < queries.len() && s.resolve(#[trigger] queries[j])->Ok_0.id == l.right
            &&& x is Ok ==> r.events.last().kind == "task.scoped"@ && r.events.last().task == Some(task) && r.tasks
                == s.tasks && r.leases == s.leases
        }),
{
    lemma_resolve_all(s, queries);
    if let Ok(found) = s.resolve_all(queries) {
        let ids = found.map_values(|y: SymbolV| y.id);
        lemma_linked(s.task_symbols, task, ids);
        assert forall|j: int| 0 <= j < queries.len() implies s.resolve(#[trigger] queries[j]) is Ok by {}
        if 0 <= k < queries.len() {
            assert(s.resolve(queries[k]) == Ok::<SymbolV, StoreErrorV>(found[k]));
            assert(ids[k] == found[k].id);
        }
        let (r, x) = s.set_task_scope(task, queries, now);
        if x is Ok && r.task_symbols.contains(l) && !s.task_symbols.contains(l) {
            let j = choose|j: int| 0 <= j < ids.len() && ids[j] == l.right;
            assert(s.resolve(queries[j]) == Ok::<SymbolV, StoreErrorV>(found[j]));
        }
    }
}

/// A task's priority is what it was last set to, and nothing else of it changes.
pub proof fn law_setting_a_priority(s: StoreV, i: int, priority: i64, now: i64)
    requires
        task_ids_differ(s.tasks),
        0 <= i < s.tasks.len(),
    ensures
        ({
            let (r, x) = s.set_task_priority(s.tasks[i].id, priority, now);
            &&& x matches Ok(v) && v.task.priority == priority
            &&& r.tasks.len() == s.tasks.len()
            &&& r.tasks[i] == (TaskRowV { priority, updated_at: now, ..s.tasks[i] })
            &&& forall|j: int| 0 <= j < s.tasks.len() && j != i ==> #[trigger] r.tasks[j] == s.tasks[j]
            &&& r.leases == s.leases && r.task_deps == s.task_deps
        }),
{
    lemma_row(s, i);
    let r = s.set_task_priority(s.tasks[i].id, priority, now).0;
    assert forall|j: int| 0 <= j < s.tasks.len() && j != i implies #[trigger] r.tasks[j] == s.tasks[j] by {
        assert(s.tasks[j].id != s.tasks[i].id);
    }
}

proof fn lemma_hand_keeps(s: StoreV, rows: Seq<LeaseRowV>, to: Seq<char>, now: i64)
    ensures
        s.hand_all(rows, to, now).0.tasks == s.tasks,
        s.hand_all(rows, to, now).0.agents == s.agents,
    decreases rows.len(),
{
    if rows.len() > 0 {
        lemma_hand_keeps(s, rows.drop_last(), to, now);
    }
}

/// A task that is given to an agent runs for that agent; every other task stays as it was.
pub proof fn law_assigned_work_runs(
    s: StoreV,
    i: int,
    to: Seq<char>,
    actor: Option<Seq<char>>,
    preempt: bool,
    priority: i64,
    t: Tick,
)
    requires
        task_ids_differ(s.tasks),
        0 <= i < s.tasks.len(),
        s.tasks[i].assignee != Some(to),
    ensures
        ({
            let (r, x) = s.assign_task_opts(s.tasks[i].id, to, actor, preempt, priority, t);
            &&& x is Ok ==> s.agent(to) is Some
            &&& x is Err ==> r == s
            &&& x matches Ok(v) ==> {
                &&& v.task.state is Running && v.task.assignee == Some(to) && v.task.id == s.tasks[i].id
                &&& r.tasks.len() == s.tasks.len()
                &&& r.tasks[i].state is Running && r.tasks[i].assignee == Some(to) && r.tasks[i].id == s.tasks[i].id
                &&& r.tasks[i].priority == s.tasks[i].priority && r.tasks[i].title == s.tasks[i].title
                &&& forall|j: int| 0 <= j < s.tasks.len() && j != i ==> #[trigger] r.tasks[j] == s.tasks[j]
                &&& r.events.last().kind == "task.reassigned"@ && r.events.last().task == Some(s.tasks[i].id)
            }
        }),
{
    let id = s.tasks[i].id;
    lemma_row(s, i);
    let held = s.task_leases(id);
    lemma_hand_keeps(s, held, to, t.now);
    let m = s.hand_all(held, to, t.now).0;
    let settled = held.map_values(|l: LeaseRowV| l.symbol_id);
    let rest = s.task_scope(id).map_values(|y: SymbolV| y.id).filter(|y: Seq<char>| !settled.contains(y));
    let o = assign_options(id, preempt, priority);
    assert forall|scope: Seq<Seq<char>>| (#[trigger] m.settle_scope(scope, to, o, t)).0.tasks == s.tasks by {
        lemma_settle_keeps_tasks(m, scope, to, o, t);
    }
    let (r, x) = s.assign_task_opts(id, to, actor, preempt, priority, t);
    if x is Ok {
        assert forall|j: int| 0 <= j < s.tasks.len() && j != i implies #[trigger] r.tasks[j] == s.tasks[j] by {
            assert(s.tasks[j].id != s.tasks[i].id);
        }
    }
}

} // verus!
