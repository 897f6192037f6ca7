//! What becomes of tasks, of those who do them and of what they are for.

use vstd::prelude::*;
use vstd::string::*;

use crate::arch_laws::lemma_sorted_has;
use crate::claim_laws::{could_start, lemma_first, lemma_first_index, lemma_met, lemma_row};
use crate::edge_laws::{lemma_parts, lemma_texts};
use crate::goal::{assignees, progress_of_tasks};
use crate::json::JsonV;
use crate::lease::{lemma_finish_each_keeps, lemma_resolve_keeps};
use crate::lookup_laws::lemma_filtered;
use crate::model::{AgentV, GoalState, GoalV, LeaseState, RequestState, TaskState};
use crate::order::{rank, sorted};
use crate::protocol::wants_task;
use crate::store::{
    first_where, law_first_where, task_ids_differ, LeaseRowV, LinkV, RequestRowV, StoreV, TaskRow, TaskRowV,
    Tick,
};
use crate::work::{in_state, linked_all, TaskViewV};

verus! {

broadcast use vstd::string::group_string_axioms;

// ------------------------------------------------------------------------------ readiness

/// A task is ready when it is pending and everything that it depends on is done.
pub proof fn law_ready_means(s: StoreV, i: int)
    requires
        task_ids_differ(s.tasks),
        0 <= i < s.tasks.len(),
    ensures
        s.task(s.tasks[i].id) matches Some(v) && (v.ready <==> could_start(s, i)),
{
    let row = s.tasks[i];
    let v = s.view_of(row);
    lemma_row(s, i);
    let open = |d: Seq<char>| s.unmet(d);
    let deps = s.deps_of(row.id);
    if could_start(s, i) && v.blocked_by.len() > 0 {
        let d = v.blocked_by[0];
        assert(v.blocked_by.contains(d));
        lemma_filtered(deps, open, d);
        lemma_met(s, i, d);
    }
    if v.ready {
        assert forall|k: int, j: int|
            #![trigger s.task_deps[k], s.tasks[j]]
            0 <= k < s.task_deps.len() && 0 <= j < s.tasks.len() && s.task_deps[k].left == row.id && s.tasks[j].id
                == s.task_deps[k].right implies s.tasks[j].state is Done by {
            let l = s.task_deps[k];
            let p = |x: LinkV| x.left == row.id;
            let mine = s.task_deps.filter(p);
            assert(s.task_deps.contains(l));
            lemma_filtered(s.task_deps, p, l);
            let n = choose|n: int| 0 <= n < mine.len() && mine[n] == l;
            assert(deps[n] == l.right);
            assert(deps.contains(l.right));
            lemma_filtered(deps, open, l.right);
            lemma_row(s, j);
            if s.unmet(l.right) {
                assert(v.blocked_by.contains(l.right));
            }
        }
    }
}

pub(crate) proof fn lemma_linked(links: Seq<LinkV>, left: Seq<char>, rights: Seq<Seq<char>>)
    ensures
        forall|k: int|
            0 <= k < rights.len() ==> linked_all(links, left, rights).contains(
                LinkV { left, right: #[trigger] rights[k] },
            ),
        forall|l: LinkV| links.contains(l) ==> #[trigger] linked_all(links, left, rights).contains(l),
        forall|l: LinkV|
            #[trigger] linked_all(links, left, rights).contains(l) ==> links.contains(l) || l.left == left
                && rights.contains(l.right),
    decreases rights.len(),
{
    if rights.len() > 0 {
        let init = rights.drop_last();
        let last = LinkV { left, right: rights.last() };
        lemma_linked(links, left, init);
        let a = linked_all(links, left, init);
        let all = linked_all(links, left, rights);
        assert forall|l: LinkV| #[trigger] all.contains(l) <==> a.contains(l) || l == last by {
            if !a.contains(last) {
                lemma_parts(a, seq![last], l);
                assert(a.push(last) =~= a + seq![last]);
                if l == last {
                    assert(seq![last][0] == l);
                }
            }
        }
        assert forall|k: int| 0 <= k < rights.len() implies all.contains(
            LinkV { left, right: #[trigger] rights[k] },
        ) by {
            if k < init.len() {
                assert(init[k] == rights[k]);
                assert(a.contains(LinkV { left, right: init[k] }));
            }
        }
        assert forall|l: LinkV| #[trigger] all.contains(l) implies links.contains(l) || l.left == left
            && rights.contains(l.right) by {
            if l == last {
                assert(rights[rights.len() - 1] == l.right);
            } else {
                assert(a.contains(l));
                if !links.contains(l) {
                    let k = choose|k: int| 0 <= k < init.len() && init[k] == l.right;
                    assert(rights[k] == l.right);
                }
            }
        }
    }
}

/// A new task is pending, nobody's, with the title and priority that were asked for, under
/// an id that no other task has, and it depends on what was named. Nothing else changes.
pub proof fn law_new_task(s: StoreV, title: Seq<char>, priority: i64, deps: Seq<Seq<char>>, now: i64, l: LinkV)
    requires
        s.add_task(title, priority, deps, now).1 is Ok,
    ensures
        ({
            let r = s.add_task(title, priority, deps, now).0;
            let x = s.add_task(title, priority, deps, now).1->Ok_0;
            let n = s.tasks.len() as int;
            &&& r.tasks.len() == n + 1
            &&& forall|i: int| 0 <= i < n ==> #[trigger] r.tasks[i] == s.tasks[i] && s.tasks[i].id != x.id
            &&& r.tasks[n].id == x.id && r.tasks[n].title == title && r.tasks[n].priority == priority
            &&& r.tasks[n].state is Pending && r.tasks[n].assignee is None && r.tasks[n].required_capability is None
            &&& r.task_deps.contains(l) <==> s.task_deps.contains(l) || l.left == x.id && deps.contains(l.right)
            &&& x.title == title && x.priority == priority && x.state is Pending
            &&& r.leases == s.leases && r.symbols == s.symbols && r.agents == s.agents
            &&& r.events.len() == s.events.len() + 1 && r.events.last().kind == "task.created"@
            &&& r.events.last().task == Some(x.id)
        }),
{
    let r = s.add_task(title, priority, deps, now).0;
    let x = s.add_task(title, priority, deps, now).1->Ok_0;
    lemma_linked(s.task_deps, x.id, deps);
    let p = |t: TaskRowV| t.id == x.id;
    law_first_where(s.tasks, p);
    assert(s.task_row(x.id) is None);
    assert forall|i: int| 0 <= i < s.tasks.len() implies #[trigger] r.tasks[i] == s.tasks[i] && s.tasks[i].id
        != x.id by {
        assert(!p(s.tasks[i]));
    }
    if l.left == x.id && deps.contains(l.right) {
        let k = choose|k: int| 0 <= k < deps.len() && deps[k] == l.right;
        assert(l == LinkV { left: x.id, right: deps[k] });
    }
}

// ------------------------------------------------------------------------------- states

/// What is told of a task that comes into a state.
pub open spec fn told_as(state: TaskState) -> Seq<char> {
    match state {
        TaskState::Pending => "task.pending"@,
        TaskState::Running => "task.running"@,
        TaskState::Blocked => "task.blocked"@,
        TaskState::Review => "task.review"@,
        TaskState::Done => "task.done"@,
        TaskState::Failed => "task.failed"@,
    }
}

proof fn lemma_told_as(state: TaskState)
    ensures
        "task."@ + state.word() == told_as(state),
{
    reveal_strlit("task.");
    reveal_strlit("pending");
    reveal_strlit("running");
    reveal_strlit("blocked");
    reveal_strlit("review");
    reveal_strlit("done");
    reveal_strlit("failed");
    reveal_strlit("task.pending");
    reveal_strlit("task.running");
    reveal_strlit("task.blocked");
    reveal_strlit("task.review");
    reveal_strlit("task.done");
    reveal_strlit("task.failed");
    assert("task."@ + "pending"@ =~= "task.pending"@);
    assert("task."@ + "running"@ =~= "task.running"@);
    assert("task."@ + "blocked"@ =~= "task.blocked"@);
    assert("task."@ + "review"@ =~= "task.review"@);
    assert("task."@ + "done"@ =~= "task.done"@);
    assert("task."@ + "failed"@ =~= "task.failed"@);
}

/// Is a task in another state, and no other task changed?
pub open spec fn moves_to(s: StoreV, r: StoreV, i: int, state: TaskState) -> bool {
    &&& r.tasks.len() == s.tasks.len()
    &&& r.tasks[i].state == state
    &&& r.tasks[i].id == s.tasks[i].id && r.tasks[i].title == s.tasks[i].title
    &&& r.tasks[i].priority == s.tasks[i].priority && r.tasks[i].assignee == s.tasks[i].assignee
    &&& r.tasks[i].required_capability == s.tasks[i].required_capability
    &&& forall|j: int| 0 <= j < s.tasks.len() && j != i ==> #[trigger] r.tasks[j] == s.tasks[j]
}

proof fn lemma_moves(s: StoreV, r: StoreV, i: int, state: TaskState, now: i64)
    requires
        task_ids_differ(s.tasks),
        0 <= i < s.tasks.len(),
        r.tasks == s.with_task(s.tasks[i].id, |x: TaskRowV| in_state(x, state, now)).tasks,
    ensures
        moves_to(s, r, i, state),
{
    assert forall|j: int| 0 <= j < s.tasks.len() && j != i implies #[trigger] r.tasks[j] == s.tasks[j] by {
        assert(s.tasks[j].id != s.tasks[i].id);
    }
}

/// Whoever is not told otherwise may set a task's state: where it is somebody's, only they
/// may, unless it is forced. It is then in that state, and this is told.
pub proof fn law_setting_a_state(
    s: StoreV,
    i: int,
    state: TaskState,
    agent: Option<Seq<char>>,
    reason: Option<Seq<char>>,
    force: bool,
    now: i64,
)
    requires
        task_ids_differ(s.tasks),
        0 <= i < s.tasks.len(),
    ensures
        ({
            let (r, x) = s.set_task_state(s.tasks[i].id, state, agent, reason, force, now);
            let can = force || s.tasks[i].assignee is None || agent is None || agent == s.tasks[i].assignee;
            &&& x is Ok <==> can
            &&& !can ==> r == s
            &&& can ==> moves_to(s, r, i, state) && x->Ok_0.task.state == state && x->Ok_0.task.id == s.tasks[i].id
                && r.events.last().kind == told_as(state) && r.events.last().task == Some(s.tasks[i].id)
                && r.events.last().agent == agent
        }),
{
    let id = s.tasks[i].id;
    lemma_row(s, i);
    lemma_told_as(state);
    let a = s.with_task(id, |x: TaskRowV| in_state(x, state, now));
    let p = |l: LeaseRowV| l.task == Some(id) && l.state is Active;
    lemma_finish_each_keeps(a, a.leases.filter(p), LeaseState::Released, "task finished"@, now);
    let b = a.release_task_leases(id, now);
    lemma_resolve_keeps(
        b,
        b.requests.filter(|r: RequestRowV| wants_task(r, id)),
        RequestState::Fulfilled,
        false,
        JsonV::Obj(
            seq![
                ("reason"@, JsonV::Str(state.word())),
                ("task"@, JsonV::Str(id)),
            ],
        ),
        now,
    );
    let (r, x) = s.set_task_state(id, state, agent, reason, force, now);
    if x is Ok {
        lemma_moves(s, r, i, state, now);
    }
}

/// Only whoever does a task can submit it, and it is then in review.
pub proof fn law_submitting(s: StoreV, i: int, agent: Seq<char>, now: i64)
    requires
        task_ids_differ(s.tasks),
        0 <= i < s.tasks.len(),
    ensures
        ({
            let (r, x) = s.submit_for_review(s.tasks[i].id, agent, now);
            let can = s.tasks[i].assignee == Some(agent);
            &&& x is Ok <==> can
            &&& !can ==> r == s
            &&& can ==> moves_to(s, r, i, TaskState::Review) && r.events.last().kind == "review.submitted"@
                && r.events.last().agent == Some(agent) && r.events.last().task == Some(s.tasks[i].id)
        }),
{
    lemma_row(s, i);
    let (r, x) = s.submit_for_review(s.tasks[i].id, agent, now);
    if x is Ok {
        lemma_moves(s, r, i, TaskState::Review, now);
    }
}

/// Work in review can be approved by anybody but whoever did it, or by them where it is
/// forced; it is then done.
pub proof fn law_approving(s: StoreV, i: int, agent: Seq<char>, force: bool, now: i64)
    requires
        task_ids_differ(s.tasks),
        0 <= i < s.tasks.len(),
    ensures
        ({
            let (r, x) = s.approve_review(s.tasks[i].id, agent, force, now);
            let can = s.tasks[i].state is Review && (force || s.tasks[i].assignee != Some(agent));
            &&& x is Ok <==> can
            &&& !can ==> r == s
            &&& can ==> moves_to(s, r, i, TaskState::Done) && r.events.last().kind == "task.done"@
                && r.events.last().agent == Some(agent)
        }),
{
    lemma_row(s, i);
    law_setting_a_state(s, i, TaskState::Done, Some(agent), None, true, now);
}

/// Work in review can be sent back: it runs again, and whoever does it finds a request
/// from whoever sent it back, unless no id can be had for one.
pub proof fn law_rejecting(s: StoreV, i: int, agent: Seq<char>, reason: Option<Seq<char>>, t: Tick)
    requires
        task_ids_differ(s.tasks),
        0 <= i < s.tasks.len(),
    ensures
        ({
            let (r, x) = s.reject_review(s.tasks[i].id, agent, reason, t);
            let n = s.requests.len() as int;
            &&& x is Ok <==> s.tasks[i].state is Review
            &&& x is Err ==> r == s
            &&& x is Ok ==> moves_to(s, r, i, TaskState::Running)
            &&& x is Ok ==> r.events.len() > s.events.len() && r.events[s.events.len() as int].kind
                == "review.rejected"@ && r.events[s.events.len() as int].agent == Some(agent)
                && r.events[s.events.len() as int].task == Some(s.tasks[i].id)
            &&& x is Ok && s.tasks[i].assignee is Some && s.tasks[i].assignee != Some(agent) && s.request_row(
                s.fresh("req"@, t),
            ) is None ==> {
                &&& r.requests.len() == n + 1
                &&& r.requests[n].kind == "review"@ && r.requests[n].from == agent
                &&& r.requests[n].to == s.tasks[i].assignee && r.requests[n].task == Some(s.tasks[i].id)
                &&& r.requests[n].state is Open
            }
        }),
{
    lemma_row(s, i);
    let (r, x) = s.reject_review(s.tasks[i].id, agent, reason, t);
    if x is Ok {
        lemma_moves(s, r, i, TaskState::Running, t.now);
    }
}

// ------------------------------------------------------------------------------- agents

/// An agent that joins is known, idle and free to work; one that joins again is seen to be
/// alive and is otherwise as it was. Nobody else is affected, and it is told.
pub proof fn law_joining(s: StoreV, name: Seq<char>, kind: Seq<char>, now: i64)
    ensures
        ({
            let r = s.register_agent(name, kind, now);
            &&& r.agent(name) matches Some(b) && b.name == name && b.kind == kind && b.heartbeat_at == now && (
            match s.agent(name) {
                None => b.joined_at == now && b.status == "idle"@ && !b.paused && b.capability is None,
                Some(a) => b.joined_at == a.joined_at && b.status == a.status && b.paused == a.paused && b.capability
                    == a.capability,
            })
            &&& forall|i: int|
                0 <= i < s.agents.len() && (#[trigger] s.agents[i]).name != name ==> r.agents[i] == s.agents[i]
            &&& r.events.len() == s.events.len() + 1 && r.events.last().kind == "agent.joined"@
            &&& r.events.last().agent == Some(name)
        }),
{
    let r = s.register_agent(name, kind, now);
    let p = |a: AgentV| a.name == name;
    law_first_where(s.agents, p);
    if s.agent(name) is Some {
        lemma_first_index(s.agents, p);
        let k = choose|k: int|
            0 <= k < s.agents.len() && first_where(s.agents, p) == Some(s.agents[k]) && p(s.agents[k]) && forall|j: int|
                0 <= j < k ==> !p(#[trigger] s.agents[j]);
        assert forall|j: int| 0 <= j < k implies !p(#[trigger] r.agents[j]) by {
            assert(!p(s.agents[j]));
            assert(r.agents[j] == s.agents[j]);
        }
        lemma_first(r.agents, p, k);
    } else {
        let n = s.agents.len() as int;
        assert forall|j: int| 0 <= j < n implies !p(#[trigger] r.agents[j]) by {
            assert(r.agents[j] == s.agents[j]);
            assert(!p(s.agents[j]));
        }
        lemma_first(r.agents, p, n);
    }
}

// -------------------------------------------------------------------------------- goals

/// A new goal is open, as it was asked for, and it is told.
pub proof fn law_new_goal(
    s: StoreV,
    title: Seq<char>,
    priority: i64,
    description: Option<Seq<char>>,
    created_by: Option<Seq<char>>,
    now: i64,
)
    requires
        s.add_goal(title, priority, description, created_by, now).1 is Ok,
    ensures
        ({
            let (r, x) = s.add_goal(title, priority, description, created_by, now);
            let g = x->Ok_0;
            &&& r.goal(g.id) == Some(g) && s.goal(g.id) is None
            &&& g.title == title && g.description == description && g.priority == priority && g.state is Open
            &&& g.created_by == created_by && g.created_at == now
            &&& r.events.last().kind == "goal.created"@ && r.tasks == s.tasks
            &&& forall|i: int| 0 <= i < s.goals.len() ==> #[trigger] r.goals[i] == s.goals[i]
        }),
{
    let (r, x) = s.add_goal(title, priority, description, created_by, now);
    let id = x->Ok_0.id;
    let p = |g: GoalV| g.id == id;
    let n = s.goals.len() as int;
    law_first_where(s.goals, p);
    assert forall|j: int| 0 <= j < n implies !p(#[trigger] r.goals[j]) by {
        assert(r.goals[j] == s.goals[j]);
        assert(!p(s.goals[j]));
    }
    lemma_first(r.goals, p, n);
}

/// A goal that is known can be brought into any state; nothing else of it changes.
pub proof fn law_goal_states(s: StoreV, id: Seq<char>, state: GoalState, now: i64)
    ensures
        ({
            let (r, x) = s.set_goal_state(id, state, now);
            &&& x is Ok <==> s.goal(id) is Some
            &&& x is Err ==> r == s
            &&& x matches Ok(g) ==> g == (GoalV { state, updated_at: now, ..s.goal(id)->0 }) && r.goals.len()
                == s.goals.len() && r.tasks == s.tasks && r.events.last().kind == "goal.state_changed"@
            &&& x is Ok ==> forall|i: int|
                0 <= i < s.goals.len() ==> if s.goals[i].id == id {
                    (#[trigger] r.goals[i]).state == state && r.goals[i].title == s.goals[i].title
                } else {
                    r.goals[i] == s.goals[i]
                }
        }),
{
}

/// The tasks of a goal are those that serve it; whoever does one of them contributes.
pub proof fn law_tasks_of_a_goal(s: StoreV, goal: Seq<char>, i: int, a: Seq<char>)
    requires
        0 <= i < s.tasks.len(),
    ensures
        s.goal_tasks(goal).contains(s.view_of(s.tasks[i])) <==> s.task_goals.contains(
            LinkV { left: s.tasks[i].id, right: goal },
        ),
        progress_of_tasks(s.goal_tasks(goal)).contributing_agents.contains(a) <==> exists|k: int|
            0 <= k < s.goal_tasks(goal).len() && (#[trigger] s.goal_tasks(goal)[k]).task.assignee == Some(a),
{
    let p = |t: TaskViewV| s.task_goals.contains(LinkV { left: t.task.id, right: goal });
    let r = rank::<TaskRow>();
    let o = sorted(s.tasks, r);
    let listed = s.tasks_listed();
    let v = s.view_of(s.tasks[i]);
    lemma_filtered(listed, p, v);
    lemma_sorted_has(s.tasks, r, s.tasks[i]);
    assert(s.tasks.contains(s.tasks[i]));
    let n = choose|n: int| 0 <= n < o.len() && o[n] == s.tasks[i];
    assert(listed[n] == v);
    lemma_assignees(s.goal_tasks(goal), a);
    lemma_texts(assignees(s.goal_tasks(goal)), a);
}

proof fn lemma_assignees(ts: Seq<TaskViewV>, a: Seq<char>)
    ensures
        assignees(ts).contains(a) <==> exists|k: int|
            0 <= k < ts.len() && (#[trigger] ts[k]).task.assignee == Some(a),
    decreases ts.len(),
{
    if ts.len() > 0 {
        let init = ts.drop_last();
        let last = ts.len() - 1;
        lemma_assignees(init, a);
        let mine = match ts.last().task.assignee {
            Some(x) => seq![x],
            None => Seq::empty(),
        };
        assert(assignees(ts) =~= assignees(init) + mine);
        lemma_parts(assignees(init), mine, a);
        if mine.contains(a) {
            assert(ts[last].task.assignee == Some(a));
        }
        if assignees(init).contains(a) {
            let k = choose|k: int| 0 <= k < init.len() && (#[trigger] init[k]).task.assignee == Some(a);
            assert(ts[k] == init[k]);
        }
        if exists|k: int| 0 <= k < ts.len() && (#[trigger] ts[k]).task.assignee == Some(a) {
            let k = choose|k: int| 0 <= k < ts.len() && (#[trigger] ts[k]).task.assignee == Some(a);
            if k < last {
                assert(init[k] == ts[k]);
            } else {
                assert(mine[0] == a);
            }
        }
    }
}

} // verus!
