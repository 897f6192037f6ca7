//! What an agent that asks for work is given.

use vstd::prelude::*;
use vstd::string::*;

use crate::arch_laws::lemma_sorted_has;
use crate::lookup_laws::{lemma_filter_count, lemma_filtered};
use crate::model::{AgentV, Capability, ConflictV, SymbolV};
use crate::order::{law_sorted_ordered, rank, sorted, weak_order};
use crate::schedule::{claim_options, claimed, ScheduledTask, ScheduledTaskV};
use crate::schedule_laws::{law_a_cycle_is_never_ready, lemma_settle_keeps_tasks};
use crate::store::{first_where, law_first_where, task_ids_differ, LinkV, StoreErrorV, StoreV, TaskRow, TaskRowV, Tick};
use crate::work::TaskViewV;

verus! {

broadcast use vstd::string::group_string_axioms;

/// Is a task pending, and everything that it depends on done?
pub open spec fn could_start(s: StoreV, i: int) -> bool {
    &&& 0 <= i < s.tasks.len()
    &&& s.tasks[i].state is Pending
    &&& forall|k: int, j: int|
        #![trigger s.task_deps[k], s.tasks[j]]
        0 <= k < s.task_deps.len() && 0 <= j < s.tasks.len() && s.task_deps[k].left == s.tasks[i].id
            && s.tasks[j].id == s.task_deps[k].right ==> s.tasks[j].state is Done
}

/// Does a task touch no symbol in particular?
pub open spec fn unscoped(s: StoreV, id: Seq<char>) -> bool {
    forall|k: int| 0 <= k < s.task_symbols.len() ==> (#[trigger] s.task_symbols[k]).left != id
}

/// Does a task serve a goal?
pub open spec fn serves(s: StoreV, id: Seq<char>, goal: Seq<char>) -> bool {
    exists|k: int|
        0 <= k < s.task_goals.len() && (#[trigger] s.task_goals[k]).left == id && s.task_goals[k].right == goal
            && forall|j: int| 0 <= j < k ==> (#[trigger] s.task_goals[j]).left != id
}

/// Is it the agent with a name?
pub open spec fn is_agent(s: StoreV, name: Seq<char>, a: int) -> bool {
    &&& 0 <= a < s.agents.len()
    &&& s.agents[a].name == name
    &&& forall|b: int| 0 <= b < a ==> (#[trigger] s.agents[b]).name != name
}

/// May the work be handed to an agent with this capability, when work for some goal is
/// asked for?
pub open spec fn suits(s: StoreV, row: TaskRowV, capability: Option<Capability>, goal: Option<Seq<char>>) -> bool {
    &&& row.required_capability is None || row.required_capability == capability
    &&& goal is None || serves(s, row.id, goal->0)
}

pub(crate) proof fn lemma_first<T>(s: Seq<T>, p: spec_fn(T) -> bool, k: int)
    requires
        0 <= k < s.len(),
        p(s[k]),
        forall|j: int| 0 <= j < k ==> !p(#[trigger] s[j]),
    ensures
        first_where(s, p) == Some(s[k]),
    decreases s.len(),
{
    if k > 0 {
        let rest = s.drop_first();
        assert(!p(s[0]));
        assert forall|j: int| 0 <= j < k - 1 implies !p(#[trigger] rest[j]) by {
            assert(rest[j] == s[j + 1]);
        }
        lemma_first(rest, p, k - 1);
    }
}

pub(crate) proof fn lemma_row(s: StoreV, i: int)
    requires
        task_ids_differ(s.tasks),
        0 <= i < s.tasks.len(),
    ensures
        s.task_row(s.tasks[i].id) == Some(s.tasks[i]),
{
    let id = s.tasks[i].id;
    let p = |t: TaskRowV| t.id == id;
    assert forall|j: int| 0 <= j < i implies !p(#[trigger] s.tasks[j]) by {}
    lemma_first(s.tasks, p, i);
}

pub(crate) proof fn lemma_met(s: StoreV, i: int, d: Seq<char>)
    requires
        task_ids_differ(s.tasks),
        could_start(s, i),
        s.deps_of(s.tasks[i].id).contains(d),
    ensures
        !s.unmet(d),
{
    let id = s.tasks[i].id;
    let p = |l: LinkV| l.left == id;
    let mine = s.task_deps.filter(p);
    let n = choose|n: int| 0 <= n < s.deps_of(id).len() && s.deps_of(id)[n] == d;
    assert(mine[n].right == d);
    lemma_filtered(s.task_deps, p, mine[n]);
    assert(mine.contains(mine[n]));
    let k = choose|k: int| 0 <= k < s.task_deps.len() && s.task_deps[k] == mine[n];
    if s.task_row(d) is Some {
        let q = |t: TaskRowV| t.id == d;
        law_first_where(s.tasks, q);
        let r = s.task_row(d)->0;
        let j = choose|j: int| 0 <= j < s.tasks.len() && s.tasks[j] == r;
        assert(s.task_deps[k].left == id && s.tasks[j].id == s.task_deps[k].right);
    }
}

/// A task that could start is ready, and in the first wave.
pub(crate) proof fn lemma_in_first_wave(s: StoreV, i: int)
    requires
        task_ids_differ(s.tasks),
        could_start(s, i),
    ensures
        s.view_of(s.tasks[i]).ready,
        s.waves().len() > 0,
        s.waves()[0].contains(s.view_of(s.tasks[i])),
{
    let row = s.tasks[i];
    let v = s.view_of(row);
    lemma_row(s, i);
    let open = |d: Seq<char>| s.unmet(d);
    assert(v.blocked_by.len() == 0) by {
        if v.blocked_by.len() > 0 {
            let d = v.blocked_by[0];
            assert(v.blocked_by.contains(d));
            lemma_filtered(s.deps_of(row.id), open, d);
            lemma_met(s, i, d);
        }
    }
    assert(!s.circular(row.id)) by {
        if s.circular(row.id) {
            law_a_cycle_is_never_ready(s, row.id);
        }
    }
    let r = rank::<TaskRow>();
    lemma_sorted_has(s.tasks, r, row);
    assert(s.tasks.contains(row));
    let o = sorted(s.tasks, r);
    let n = choose|n: int| 0 <= n < o.len() && o[n] == row;
    let listed = s.tasks_listed();
    assert(listed[n] == v);
    assert(listed.contains(v));
    let waits = |t: TaskViewV|
        (t.task.state is Pending || t.task.state is Blocked) && !s.circular(t.task.id);
    lemma_filtered(listed, waits, v);
    assert(s.waiting().contains(v));
    let none = Seq::<Seq<char>>::empty();
    assert(s.cleared(v, none)) by {
        assert forall|k: int| 0 <= k < v.task.deps.len() implies none.contains(#[trigger] v.task.deps[k]) || !s.unmet(
            v.task.deps[k],
        ) by {
            assert(s.deps_of(row.id).contains(v.task.deps[k]));
            lemma_met(s, i, v.task.deps[k]);
        }
    }
    let clear = |t: TaskViewV| s.cleared(t, none);
    lemma_filtered(s.waiting(), clear, v);
    assert(s.waiting().filter(clear).contains(v));
    assert(s.waves()[0] == s.waiting().filter(clear));
}

proof fn lemma_no_scope(s: StoreV, id: Seq<char>)
    requires
        unscoped(s, id),
    ensures
        s.task_scope(id).len() == 0,
{
    let p = |l: LinkV| l.left == id;
    let mine = s.task_symbols.filter(p);
    assert(mine.len() == 0) by {
        lemma_filter_count(s.task_symbols, p);
    }
    assert(s.scope_ids(id) =~= Seq::empty());
    assert(s.symbols_of(s.scope_ids(id)).len() == 0);
}

proof fn lemma_goal(s: StoreV, id: Seq<char>, goal: Seq<char>)
    requires
        serves(s, id, goal),
    ensures
        s.task_goal(id) == Some(goal),
{
    let k = choose|k: int|
        0 <= k < s.task_goals.len() && (#[trigger] s.task_goals[k]).left == id && s.task_goals[k].right == goal
            && forall|j: int| 0 <= j < k ==> (#[trigger] s.task_goals[j]).left != id;
    let p = |l: LinkV| l.left == id;
    assert forall|j: int| 0 <= j < k implies !p(#[trigger] s.task_goals[j]) by {}
    lemma_first(s.task_goals, p, k);
}

/// Work that could start, suits and touches nothing is offered, and only work of at least
/// its priority is offered before it.
proof fn lemma_offered(s: StoreV, i: int, capability: Option<Capability>, goal: Option<Seq<char>>, now: i64) -> (p: int)
    requires
        task_ids_differ(s.tasks),
        could_start(s, i),
        unscoped(s, s.tasks[i].id),
        suits(s, s.tasks[i], capability, goal),
    ensures
        0 <= p < s.offers(capability, goal, now).len(),
        s.offers(capability, goal, now)[p] == s.tasks[i].id,
        forall|q: int|
            0 <= q <= p ==> (s.task(#[trigger] s.offers(capability, goal, now)[q]) matches Some(v)
                && v.task.priority >= s.tasks[i].priority),
{
    let row = s.tasks[i];
    let v = s.view_of(row);
    lemma_in_first_wave(s, i);
    lemma_no_scope(s, row.id);
    if goal is Some {
        lemma_goal(s, row.id, goal->0);
    }
    let first = s.waves()[0];
    let deco = s.decorated(first, now);
    let d = s.decorate(v, now);
    let n = choose|n: int| 0 <= n < first.len() && first[n] == v;
    assert(deco[n] == d);
    assert(deco.contains(d));
    let r = rank::<ScheduledTask>();
    let o = sorted(deco, r);
    lemma_sorted_has(deco, r, d);
    assert(weak_order(r));
    law_sorted_ordered(deco, r);
    let plan = s.plan(now);
    assert(plan.waves[0].tasks == o);
    let ok = |t: ScheduledTaskV| s.offered(t, capability, goal);
    assert(d.contended_by is None);
    assert(ok(d));
    let kept = o.filter(ok);
    lemma_filtered(o, ok, d);
    let p = choose|p: int| 0 <= p < kept.len() && kept[p] == d;
    let ids = s.offers(capability, goal, now);
    assert(ids == kept.map_values(|t: ScheduledTaskV| t.task.task.id));
    assert(ids[p] == row.id);
    assert forall|q: int| 0 <= q <= p implies (s.task(#[trigger] ids[q]) matches Some(w) && w.task.priority
        >= row.priority) by {
        let x = kept[q];
        lemma_kept_in_order(o, ok, q, p);
        let (a, b) = choose|a: int, b: int| 0 <= a <= b < o.len() && o[a] == kept[q] && o[b] == kept[p];
        if a < b {
            assert(!r(o[b], o[a]));
        }
        assert(x.task.task.priority >= row.priority);
        assert(o.contains(x)) by {
            assert(o[a] == x);
        }
        lemma_sorted_has(deco, r, x);
        let m = choose|m: int| 0 <= m < deco.len() && deco[m] == x;
        assert(x.task == first[m]);
        lemma_first_wave_rows(s, m);
        assert(ids[q] == x.task.task.id);
    }
    p
}

proof fn lemma_kept_in_order<T>(s: Seq<T>, p: spec_fn(T) -> bool, i: int, j: int)
    requires
        0 <= i <= j < s.filter(p).len(),
    ensures
        exists|a: int, b: int| 0 <= a <= b < s.len() && s[a] == s.filter(p)[i] && s[b] == s.filter(p)[j],
    decreases s.len(),
{
    reveal(Seq::filter);
    if s.len() > 0 {
        let init = s.drop_last();
        let f = init.filter(p);
        let last = s.len() - 1;
        if j < f.len() {
            lemma_kept_in_order(init, p, i, j);
            let (a, b) = choose|a: int, b: int| 0 <= a <= b < init.len() && init[a] == f[i] && init[b] == f[j];
            assert(s[a] == s.filter(p)[i] && s[b] == s.filter(p)[j]);
        } else if i < f.len() {
            lemma_kept_in_order(init, p, i, i);
            let (a, b) = choose|a: int, b: int| 0 <= a <= b < init.len() && init[a] == f[i] && init[b] == f[i];
            assert(s[a] == s.filter(p)[i] && s[last] == s.filter(p)[j]);
        } else {
            assert(s[last] == s.filter(p)[i] && s[last] == s.filter(p)[j]);
        }
    }
}

/// What stands in the first wave is the view of a task's row.
proof fn lemma_first_wave_rows(s: StoreV, m: int)
    requires
        task_ids_differ(s.tasks),
        s.waves().len() > 0,
        0 <= m < s.waves()[0].len(),
    ensures
        s.task(s.waves()[0][m].task.id) == Some(s.waves()[0][m]),
{
    let none = Seq::<Seq<char>>::empty();
    let clear = |t: TaskViewV| s.cleared(t, none);
    let waits = |t: TaskViewV|
        (t.task.state is Pending || t.task.state is Blocked) && !s.circular(t.task.id);
    let w = s.waves()[0][m];
    assert(s.waves()[0] == s.waiting().filter(clear));
    assert(s.waves()[0].contains(w));
    lemma_filtered(s.waiting(), clear, w);
    let listed = s.tasks_listed();
    lemma_filtered(listed, waits, w);
    let n = choose|n: int| 0 <= n < listed.len() && listed[n] == w;
    let r = rank::<TaskRow>();
    let o = sorted(s.tasks, r);
    assert(o.contains(o[n]));
    lemma_sorted_has(s.tasks, r, o[n]);
    let i = choose|i: int| 0 <= i < s.tasks.len() && s.tasks[i] == o[n];
    lemma_row(s, i);
}

proof fn lemma_claimable(s: StoreV, i: int, agent: Seq<char>, ttl_secs: i64, t: Tick)
    requires
        task_ids_differ(s.tasks),
        could_start(s, i),
        unscoped(s, s.tasks[i].id),
    ensures
        s.claim_one(s.tasks[i].id, agent, ttl_secs, t).1 == Ok::<bool, StoreErrorV>(true),
{
    let id = s.tasks[i].id;
    lemma_row(s, i);
    lemma_no_scope(s, id);
    let scope = s.task_scope(id).map_values(|x: SymbolV| x.id);
    assert(scope =~= Seq::empty());
    let o = claim_options(id, ttl_secs);
    assert(s.scope_conflicts(scope, agent, o, t.now).len() == 0);
    assert(s.acquire_each(scope, agent, o, t) == (s, Ok::<Seq<ConflictV>, StoreErrorV>(Seq::empty())));
}

proof fn lemma_claim_first(s: StoreV, ids: Seq<Seq<char>>, p: int, agent: Seq<char>, ttl_secs: i64, t: Tick)
    requires
        0 <= p < ids.len(),
        s.claim_one(ids[p], agent, ttl_secs, t).1 == Ok::<bool, StoreErrorV>(true),
    ensures
        match s.claim_first(ids, agent, ttl_secs, t) {
            (_, Err(_)) => true,
            (r, Ok(got)) => exists|q: int|
                0 <= q <= p && got == Some(#[trigger] ids[q]) && r == s.claim_one(ids[q], agent, ttl_secs, t).0
                    && s.claim_one(ids[q], agent, ttl_secs, t).1 == Ok::<bool, StoreErrorV>(true),
        },
    decreases ids.len(),
{
    match s.claim_one(ids[0], agent, ttl_secs, t) {
        (_, Err(_)) => {},
        (r, Ok(true)) => {
            assert(s.claim_first(ids, agent, ttl_secs, t).1 == Ok::<Option<Seq<char>>, StoreErrorV>(Some(ids[0])));
        },
        (_, Ok(false)) => {
            let rest = ids.drop_first();
            assert(rest[p - 1] == ids[p]);
            lemma_claim_first(s, rest, p - 1, agent, ttl_secs, t);
            if let (r, Ok(got)) = s.claim_first(rest, agent, ttl_secs, t) {
                let q = choose|q: int|
                    0 <= q <= p - 1 && got == Some(#[trigger] rest[q]) && r == s.claim_one(
                        rest[q],
                        agent,
                        ttl_secs,
                        t,
                    ).0 && s.claim_one(rest[q], agent, ttl_secs, t).1 == Ok::<bool, StoreErrorV>(true);
                assert(ids[q + 1] == rest[q]);
            }
        },
    }
}

/// An agent that asks for work gets some as long as there is any: where a task is pending,
/// everything that it depends on is done, and it suits the agent and the goal that was
/// asked for, the agent is not sent away with nothing. What it gets has at least that
/// task's priority. This is stated of tasks that touch no symbol, which no lease of
/// another agent can keep back.
pub proof fn law_ready_work_is_handed_out(
    s: StoreV,
    i: int,
    name: Seq<char>,
    a: int,
    ttl_secs: i64,
    goal: Option<Seq<char>>,
    t: Tick,
)
    requires
        task_ids_differ(s.tasks),
        could_start(s, i),
        unscoped(s, s.tasks[i].id),
        is_agent(s, name, a),
        !s.agents[a].paused,
        suits(s, s.tasks[i], s.agents[a].capability, goal),
    ensures
        match s.claim_next_in(name, ttl_secs, goal, t).1 {
            Err(_) => true,
            Ok(None) => false,
            Ok(Some(got)) => got.task.task.priority >= s.tasks[i].priority && got.task.task.state is Running
                && got.task.task.assignee == Some(name),
        },
{
    let p_agent = |x: AgentV| x.name == name;
    assert forall|b: int| 0 <= b < a implies !p_agent(#[trigger] s.agents[b]) by {}
    lemma_first(s.agents, p_agent, a);
    assert(s.agent(name) == Some(s.agents[a]));
    let capability = s.agents[a].capability;
    let ids = s.offers(capability, goal, t.now);
    let p = lemma_offered(s, i, capability, goal, t.now);
    lemma_claimable(s, i, name, ttl_secs, t);
    lemma_claim_first(s, ids, p, name, ttl_secs, t);
    if let (r, Ok(got)) = s.claim_first(ids, name, ttl_secs, t) {
        let q = choose|q: int|
            0 <= q <= p && got == Some(#[trigger] ids[q]) && r == s.claim_one(ids[q], name, ttl_secs, t).0
                && s.claim_one(ids[q], name, ttl_secs, t).1 == Ok::<bool, StoreErrorV>(true);
        let id = ids[q];
        lemma_started(s, id, name, ttl_secs, t);
        assert(s.task(id) is Some);
    }
}

proof fn lemma_started(s: StoreV, id: Seq<char>, name: Seq<char>, ttl_secs: i64, t: Tick)
    requires
        s.claim_one(id, name, ttl_secs, t).1 == Ok::<bool, StoreErrorV>(true),
    ensures
        ({
            let r = s.claim_one(id, name, ttl_secs, t).0;
            s.task(id) matches Some(v) && r.task(id) matches Some(w) && w.task.priority == v.task.priority
                && w.task.state is Running && w.task.assignee == Some(name)
        }),
{
    let scope = s.task_scope(id).map_values(|x: SymbolV| x.id);
    let o = claim_options(id, ttl_secs);
    lemma_settle_keeps_tasks(s, scope, name, o, t);
    let m = s.settle_scope(scope, name, o, t).0;
    let r = m.start(id, name, scope.len(), t.now);
    let p = |x: TaskRowV| x.id == id;
    law_first_where(s.tasks, p);
    let row = s.task_row(id)->0;
    let f = |x: TaskRowV| claimed(x, name, t.now);
    let after = s.tasks.map_values(
        |x: TaskRowV|
            if x.id == id {
                f(x)
            } else {
                x
            },
    );
    assert(r.tasks =~= after);
    lemma_first_index(s.tasks, p);
    let k = choose|k: int|
        0 <= k < s.tasks.len() && first_where(s.tasks, p) == Some(s.tasks[k]) && p(s.tasks[k]) && forall|j: int|
            0 <= j < k ==> !p(#[trigger] s.tasks[j]);
    assert forall|j: int| 0 <= j < k implies !p(#[trigger] r.tasks[j]) by {
        assert(!p(s.tasks[j]));
        assert(r.tasks[j] == s.tasks[j]);
    }
    assert(r.tasks[k] == f(s.tasks[k]));
    lemma_first(r.tasks, p, k);
}

pub(crate) proof fn lemma_first_index<T>(s: Seq<T>, p: spec_fn(T) -> bool)
    requires
        first_where(s, p) is Some,
    ensures
        exists|k: int|
            0 <= k < s.len() && first_where(s, p) == Some(s[k]) && p(s[k]) && forall|j: int|
                0 <= j < k ==> !p(#[trigger] s[j]),
    decreases s.len(),
{
    if s.len() > 0 && !p(s[0]) {
        let rest = s.drop_first();
        lemma_first_index(rest, p);
        let k = choose|k: int|
            0 <= k < rest.len() && first_where(rest, p) == Some(rest[k]) && p(rest[k]) && forall|j: int|
                0 <= j < k ==> !p(#[trigger] rest[j]);
        assert forall|j: int| 0 <= j < k + 1 implies !p(#[trigger] s[j]) by {
            if j > 0 {
                assert(rest[j - 1] == s[j]);
            }
        }
        assert(s[k + 1] == rest[k]);
    }
}

} // verus!
