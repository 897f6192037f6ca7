//! Agents and tasks.

use vstd::prelude::*;
use vstd::string::*;

use crate::json::{opt_text, Json, JsonV};
use crate::lease::{lemma_finish_each_keeps, lemma_resolve_keeps};
use crate::model::{Agent, AgentV, Capability, LeaseState, RequestState, Task, TaskState, TaskV};
use crate::order::{rank, sorted, stable_sort, Ranked};
use crate::protocol::wants_task;
use crate::rows::{change, each, find_row, keep, law_filter_has};
use crate::store::{
    append, fail, fail_about, failure, first_where, law_first_where, sane_time, seen, task_ids_differ, ErrorKind, LeaseRowV,
    Link, LinkV, RequestRowV, Store, StoreError, StoreErrorV, StoreV, TaskRow, TaskRowV,
};
use crate::text::{cat, cat3, decimal, decimal_of, same};

verus! {

broadcast use vstd::string::group_string_axioms;

/// A task, and whether it can start.
#[derive(Debug)]
pub struct TaskView {
    pub task: Task,
    /// Pending, with every dependency done.
    pub ready: bool,
    /// The dependencies that are not done.
    pub blocked_by: Vec<String>,
}

/// The contents of a [`TaskView`].
pub struct TaskViewV {
    pub task: TaskV,
    pub ready: bool,
    pub blocked_by: Seq<Seq<char>>,
}

impl DeepView for TaskView {
    type V = TaskViewV;

    open spec fn deep_view(&self) -> TaskViewV {
        TaskViewV {
            task: self.task.deep_view(),
            ready: self.ready,
            blocked_by: self.blocked_by.deep_view(),
        }
    }
}

impl Clone for TaskView {
    fn clone(&self) -> (r: Self)
        ensures
            r.deep_view() == self.deep_view(),
    {
        let r = TaskView {
            task: self.task.clone(),
            ready: self.ready,
            blocked_by: self.blocked_by.clone(),
        };
        assert(r.blocked_by.deep_view() =~= self.blocked_by.deep_view());
        r
    }
}

impl crate::rows::Row for TaskView {
    fn copy(&self) -> (r: Self) {
        self.clone()
    }
}

impl Ranked for TaskRow {
    /// Higher priority first.
    open spec fn before(a: TaskRowV, b: TaskRowV) -> bool {
        a.priority > b.priority
    }

    fn is_before(&self, other: &Self) -> (r: bool) {
        self.priority > other.priority
    }
}

/// Is the work over, one way or the other?
pub open spec fn over(state: TaskState) -> bool {
    state is Done || state is Failed
}

/// The links with one more, unless it is there.
pub open spec fn linked(links: Seq<LinkV>, l: LinkV) -> Seq<LinkV> {
    if links.contains(l) {
        links
    } else {
        links.push(l)
    }
}

/// The links with one more for each of some ends.
pub open spec fn linked_all(links: Seq<LinkV>, left: Seq<char>, rights: Seq<Seq<char>>) -> Seq<LinkV>
    decreases rights.len(),
{
    if rights.len() == 0 {
        links
    } else {
        linked(
            linked_all(links, left, rights.drop_last()),
            LinkV { left, right: rights.last() },
        )
    }
}

/// The row in another state.
pub open spec fn in_state(r: TaskRowV, state: TaskState, now: i64) -> TaskRowV {
    TaskRowV { state, updated_at: now, ..r }
}

impl StoreV {
    /// The row of a task.
    pub open spec fn task_row(self, id: Seq<char>) -> Option<TaskRowV> {
        first_where(self.tasks, |t: TaskRowV| t.id == id)
    }

    /// What a task depends on.
    pub open spec fn deps_of(self, id: Seq<char>) -> Seq<Seq<char>> {
        self.task_deps.filter(|l: LinkV| l.left == id).map_values(|l: LinkV| l.right)
    }

    /// Does a dependency still hold a task up? One on a task that does not exist
    /// does not.
    pub open spec fn unmet(self, dep: Seq<char>) -> bool {
        self.task_row(dep) matches Some(t) && !(t.state is Done)
    }

    /// The task that a row shows as.
    pub open spec fn task_of(self, r: TaskRowV) -> TaskV {
        TaskV {
            id: r.id,
            title: r.title,
            state: r.state,
            priority: r.priority,
            assignee: r.assignee,
            deps: self.deps_of(r.id),
            created_at: r.created_at,
            updated_at: r.updated_at,
            required_capability: r.required_capability,
        }
    }

    /// The task that a row shows as, with its readiness.
    pub open spec fn view_of(self, r: TaskRowV) -> TaskViewV {
        let blocked_by = self.deps_of(r.id).filter(|d: Seq<char>| self.unmet(d));
        TaskViewV {
            task: self.task_of(r),
            ready: r.state is Pending && blocked_by.len() == 0,
            blocked_by,
        }
    }

    /// The task with this id.
    pub open spec fn task(self, id: Seq<char>) -> Option<TaskViewV> {
        match self.task_row(id) {
            Some(r) => Some(self.view_of(r)),
            None => None,
        }
    }

    /// Every task, higher priority first.
    pub open spec fn tasks_listed(self) -> Seq<TaskViewV> {
        sorted(self.tasks, rank::<TaskRow>()).map_values(|r: TaskRowV| self.view_of(r))
    }

    /// The state with every row of one task changed.
    pub open spec fn with_task(self, id: Seq<char>, f: spec_fn(TaskRowV) -> TaskRowV) -> StoreV {
        StoreV {
            tasks: self.tasks.map_values(
                |r: TaskRowV|
                    if r.id == id {
                        f(r)
                    } else {
                        r
                    },
            ),
            ..self
        }
    }

    /// The state with every row of one agent changed.
    pub open spec fn with_agent(self, name: Seq<char>, f: spec_fn(AgentV) -> AgentV) -> StoreV {
        StoreV {
            agents: self.agents.map_values(
                |a: AgentV|
                    if a.name == name {
                        f(a)
                    } else {
                        a
                    },
            ),
            ..self
        }
    }

    /// Joining the workspace, or coming back to it.
    pub open spec fn register_agent(self, name: Seq<char>, kind: Seq<char>, now: i64) -> StoreV {
        let s = if self.agent(name) is Some {
            self.with_agent(name, |a: AgentV| AgentV { kind, heartbeat_at: now, ..a })
        } else {
            StoreV {
                agents: self.agents.push(
                    AgentV {
                        name,
                        kind,
                        joined_at: now,
                        heartbeat_at: now,
                        status: "idle"@,
                        paused: false,
                        capability: None,
                    },
                ),
                ..self
            }
        };
        s.emit(
            now,
            "agent.joined"@,
            Some(name),
            None,
            None,
            JsonV::Obj(seq![("kind"@, JsonV::Str(kind))]),
        )
    }

    /// Changing what an agent is.
    pub open spec fn change_agent(self, name: Seq<char>, f: spec_fn(AgentV) -> AgentV) -> (
        StoreV,
        Result<AgentV, StoreErrorV>,
    ) {
        match self.agent(name) {
            None => (self, Err(failure(ErrorKind::NoSuchAgent, "no such agent: "@ + name))),
            Some(a) => (self.with_agent(name, f), Ok(f(a))),
        }
    }

    /// Is there no such task?
    pub open spec fn no_task(self) -> spec_fn(Seq<char>) -> bool {
        |id: Seq<char>| self.task_row(id) is None
    }

    /// Writing a task down. Tasks are numbered as they come, and wait only for tasks
    /// that are there.
    pub open spec fn add_task(self, title: Seq<char>, priority: i64, deps: Seq<Seq<char>>, now: i64) -> (
        StoreV,
        Result<TaskV, StoreErrorV>,
    ) {
        let id = "T"@ + decimal((self.tasks.len() + 1) as nat);
        let row = TaskRowV {
            id,
            title,
            state: TaskState::Pending,
            priority,
            assignee: None,
            created_at: now,
            updated_at: now,
            claimed_at: None,
            required_capability: None,
        };
        if first_where(deps, self.no_task()) is Some {
            let missing = first_where(deps, self.no_task())->Some_0;
            (self, Err(failure(ErrorKind::NoSuchTask, "no such task: "@ + missing)))
        } else if self.task_row(id) is Some {
            (self, Err(failure(ErrorKind::Duplicate, "id is taken: "@ + id)))
        } else {
            let s = StoreV {
                tasks: self.tasks.push(row),
                task_deps: linked_all(self.task_deps, id, deps),
                ..self
            };
            (
                s.emit(
                    now,
                    "task.created"@,
                    None,
                    None,
                    Some(id),
                    JsonV::Obj(
                        seq![
                            ("title"@, JsonV::Str(title)),
                            ("priority"@, JsonV::Int(priority as int)),
                        ],
                    ),
                ),
                Ok(s.task_of(row)),
            )
        }
    }

    /// Moving a task to a state. Only its assignee may, unless that is overridden.
    /// Work that is over gives its symbols back and answers whoever waited for it.
    pub open spec fn set_task_state(
        self,
        id: Seq<char>,
        state: TaskState,
        agent: Option<Seq<char>>,
        reason: Option<Seq<char>>,
        force: bool,
        now: i64,
    ) -> (StoreV, Result<TaskViewV, StoreErrorV>) {
        match self.task_row(id) {
            None => (self, Err(failure(ErrorKind::NoSuchTask, "no such task: "@ + id))),
            Some(row) => if !force && row.assignee is Some && agent is Some && agent != row.assignee {
                (
                    self,
                    Err(
                        failure(
                            ErrorKind::NotAssignee,
                            "task "@ + id + " is assigned to "@ + row.assignee->0,
                        ),
                    ),
                )
            } else {
                let s = self.with_task(id, |r: TaskRowV| in_state(r, state, now));
                let s = if over(state) {
                    s.release_task_leases(id, now).resolve_task_requests(id, state.word(), now)
                } else {
                    s
                };
                let s = s.emit(
                    now,
                    "task."@ + state.word(),
                    agent,
                    None,
                    Some(id),
                    JsonV::Obj(seq![("reason"@, opt_text(reason))]),
                );
                (s, Ok(s.view_of(in_state(row, state, now))))
            },
        }
    }

    /// Declaring work ready: its leases are kept.
    pub open spec fn submit_for_review(self, id: Seq<char>, agent: Seq<char>, now: i64) -> (
        StoreV,
        Result<TaskViewV, StoreErrorV>,
    ) {
        match self.task_row(id) {
            None => (self, Err(failure(ErrorKind::NoSuchTask, "no such task: "@ + id))),
            Some(row) => if row.assignee != Some(agent) {
                (
                    self,
                    Err(
                        failure(
                            ErrorKind::NotAssignee,
                            "task "@ + id + " is not assigned to "@ + agent,
                        ),
                    ),
                )
            } else {
                let s = self.with_task(id, |r: TaskRowV| in_state(r, TaskState::Review, now)).emit(
                    now,
                    "review.submitted"@,
                    Some(agent),
                    None,
                    Some(id),
                    JsonV::Obj(Seq::empty()),
                );
                (s, Ok(s.view_of(in_state(row, TaskState::Review, now))))
            },
        }
    }
}

/// Is the link there?
pub(crate) fn has_link(links: &Vec<Link>, left: &str, right: &str) -> (r: bool)
    ensures
        r == links.deep_view().contains(LinkV { left: left@, right: right@ }),
{
    let test = |l: &Link| -> (b: bool)
        ensures b == (l.deep_view() == (LinkV { left: left@, right: right@ }))
    {
        same(l.left.as_str(), left) && same(l.right.as_str(), right)
    };
    let ghost p = |l: LinkV| l == LinkV { left: left@, right: right@ };
    proof {
        law_first_where(links.deep_view(), p);
    }
    match find_row(links, test, Ghost(p)) {
        Some(i) => true,
        None => {
            proof {
                let x = LinkV { left: left@, right: right@ };
                if links.deep_view().contains(x) {
                    let k = choose|k: int|
                        0 <= k < links.deep_view().len() && links.deep_view()[k] == x;
                    assert(p(links.deep_view()[k]));
                }
            }
            false
        },
    }
}

/// Adds a link, unless it is there.
pub(crate) fn link(links: &mut Vec<Link>, left: &str, right: &str)
    ensures
        final(links).deep_view() == linked(
            old(links).deep_view(),
            LinkV { left: left@, right: right@ },
        ),
{
    if !has_link(links, left, right) {
        append(links, Link { left: left.to_owned(), right: right.to_owned() });
    }
}

/// Adds a link for each of some ends.
pub(crate) fn link_all(links: &mut Vec<Link>, left: &str, rights: &Vec<String>)
    ensures
        final(links).deep_view() == linked_all(old(links).deep_view(), left@, rights.deep_view()),
{
    let ghost before = links.deep_view();
    let ghost all = rights.deep_view();
    let mut i: usize = 0;
    while i < rights.len()
        invariant
            i <= rights@.len(),
            all == rights.deep_view(),
            links.deep_view() == linked_all(before, left@, all.take(i as int)),
        decreases rights@.len() - i,
    {
        proof {
            assert(all.take(i + 1).drop_last() =~= all.take(i as int));
            assert(all.take(i + 1).last() == rights@[i as int]@);
        }
        link(links, left, rights[i].as_str());
        i += 1;
    }
    assert(all.take(i as int) =~= all);
}

/// A row of an id, changed, is the first row of that id once all are changed.
pub(crate) proof fn lemma_first_task(
    rows: Seq<TaskRowV>,
    id: Seq<char>,
    f: spec_fn(TaskRowV) -> TaskRowV,
)
    requires
        forall|r: TaskRowV| (#[trigger] f(r)).id == r.id,
    ensures
        ({
            let g = |r: TaskRowV|
                if r.id == id {
                    f(r)
                } else {
                    r
                };
            let p = |r: TaskRowV| r.id == id;
            first_where(rows.map_values(g), p) == (match first_where(rows, p) {
                Some(r) => Some(f(r)),
                None => None,
            })
        }),
    decreases rows.len(),
{
    let g = |r: TaskRowV|
        if r.id == id {
            f(r)
        } else {
            r
        };
    if rows.len() > 0 {
        lemma_first_task(rows.drop_first(), id, f);
        assert(rows.map_values(g).drop_first() =~= rows.drop_first().map_values(g));
    }
}

proof fn lemma_first_agent(rows: Seq<AgentV>, name: Seq<char>, f: spec_fn(AgentV) -> AgentV)
    requires
        forall|a: AgentV| (#[trigger] f(a)).name == a.name,
    ensures
        ({
            let g = |a: AgentV|
                if a.name == name {
                    f(a)
                } else {
                    a
                };
            let p = |a: AgentV| a.name == name;
            first_where(rows.map_values(g), p) == (match first_where(rows, p) {
                Some(a) => Some(f(a)),
                None => None,
            })
        }),
    decreases rows.len(),
{
    let g = |a: AgentV|
        if a.name == name {
            f(a)
        } else {
            a
        };
    if rows.len() > 0 {
        lemma_first_agent(rows.drop_first(), name, f);
        assert(rows.map_values(g).drop_first() =~= rows.drop_first().map_values(g));
    }
}

impl Store {
    /// Where the task with this id stands.
    pub(crate) fn task_at(&self, id: &str) -> (r: Option<usize>)
        ensures
            match r {
                Some(i) => i < self.tasks@.len() && self@.task_row(id@) == Some(
                    self.tasks@[i as int].deep_view(),
                ) && self.tasks@[i as int].id@ == id@,
                None => self@.task_row(id@) is None,
            },
    {
        let test = |t: &TaskRow| -> (b: bool)
            ensures b == (t.deep_view().id == id@)
        {
            same(t.id.as_str(), id)
        };
        find_row(&self.tasks, test, Ghost(|t: TaskRowV| t.id == id@))
    }

    pub(crate) fn deps_of(&self, id: &str) -> (r: Vec<String>)
        ensures
            r.deep_view() == self@.deps_of(id@),
    {
        let test = |l: &Link| -> (b: bool)
            ensures b == (l.deep_view().left == id@)
        {
            same(l.left.as_str(), id)
        };
        let right = |l: &Link| -> (s: String)
            ensures s.deep_view() == l.deep_view().right
        {
            l.right.clone()
        };
        let links = keep(&self.task_deps, test, Ghost(|l: LinkV| l.left == id@));
        each(&links, right, Ghost(|l: LinkV| l.right))
    }

    pub(crate) fn task_of(&self, r: &TaskRow) -> (t: Task)
        ensures
            t.deep_view() == self@.task_of(r.deep_view()),
    {
        let deps = self.deps_of(r.id.as_str());
        let r = r.clone();
        Task {
            id: r.id,
            title: r.title,
            state: r.state,
            priority: r.priority,
            assignee: r.assignee,
            deps,
            created_at: r.created_at,
            updated_at: r.updated_at,
            required_capability: r.required_capability,
        }
    }

    pub(crate) fn view_of(&self, r: &TaskRow) -> (t: TaskView)
        ensures
            t.deep_view() == self@.view_of(r.deep_view()),
    {
        let task = self.task_of(r);
        let unmet = |d: &String| -> (b: bool)
            ensures b == self@.unmet(d@)
        {
            match self.task_at(d.as_str()) {
                Some(i) => self.tasks[i].state != TaskState::Done,
                None => false,
            }
        };
        let blocked_by = keep(&task.deps, unmet, Ghost(|d: Seq<char>| self@.unmet(d)));
        assert(blocked_by@.len() == blocked_by.deep_view().len());
        let ready = r.state == TaskState::Pending && blocked_by.len() == 0;
        TaskView { task, ready, blocked_by }
    }

    /// The task with this id.
    pub fn task(&self, id: &str) -> (r: Option<TaskView>)
        ensures
            r.deep_view() == self@.task(id@),
    {
        match self.task_at(id) {
            Some(i) => Some(self.view_of(&self.tasks[i])),
            None => None,
        }
    }

    /// Every task, higher priority first.
    pub fn tasks(&self) -> (r: Vec<TaskView>)
        ensures
            r.deep_view() == self@.tasks_listed(),
    {
        let copy = |t: &TaskRow| -> (c: TaskRow)
            ensures c.deep_view() == t.deep_view()
        {
            t.clone()
        };
        let rows = each(&self.tasks, copy, Ghost(|t: TaskRowV| t));
        assert(rows.deep_view() =~= self@.tasks);
        let rows = stable_sort(rows);
        let show = |t: &TaskRow| -> (v: TaskView)
            ensures v.deep_view() == self@.view_of(t.deep_view())
        {
            self.view_of(t)
        };
        each(&rows, show, Ghost(|t: TaskRowV| self@.view_of(t)))
    }

    /// Join the workspace, or come back to it.
    pub fn register_agent(&mut self, name: &str, kind: &str, now: i64) -> (r: Agent)
        ensures
            final(self)@ == old(self)@.register_agent(name@, kind@, now),
            final(self)@.agent(name@) == Some(r.deep_view()),
            r.kind@ == kind@,
            r.heartbeat_at == now,
    {
        let ghost s0 = self@;
        if self.agent(name).is_some() {
            let again = |a: &Agent| -> (b: Agent)
                ensures b.deep_view() == (if a.deep_view().name == name@ {
                    AgentV { kind: kind@, heartbeat_at: now, ..a.deep_view() }
                } else {
                    a.deep_view()
                })
            {
                let mut b = a.clone();
                if same(a.name.as_str(), name) {
                    b.kind = kind.to_owned();
                    b.heartbeat_at = now;
                }
                b
            };
            let ghost f = |a: AgentV| AgentV { kind: kind@, heartbeat_at: now, ..a };
            change(
                &mut self.agents,
                again,
                Ghost(
                    |a: AgentV|
                        if a.name == name@ {
                            f(a)
                        } else {
                            a
                        },
                ),
            );
            proof {
                lemma_first_agent(s0.agents, name@, f);
                assert(self@ == s0.with_agent(name@, f));
            }
        } else {
            let a = Agent {
                name: name.to_owned(),
                kind: kind.to_owned(),
                joined_at: now,
                heartbeat_at: now,
                status: "idle".to_owned(),
                paused: false,
                capability: None,
            };
            let ghost av = a.deep_view();
            append(&mut self.agents, a);
            proof {
                lemma_agent_pushed(s0.agents, av);
            }
        }
        let detail = Json::object().with("kind", Json::str(kind));
        assert(detail.deep_view()->Obj_0 =~= seq![("kind"@, JsonV::Str(kind@))]);
        self.emit(now, "agent.joined", Some(name.to_owned()), None, None, detail);
        match self.agent(name) {
            Some(a) => a,
            None => {
                assert(false);
                Agent {
                    name: name.to_owned(),
                    kind: kind.to_owned(),
                    joined_at: now,
                    heartbeat_at: now,
                    status: "idle".to_owned(),
                    paused: false,
                    capability: None,
                }
            },
        }
    }

    /// Stop giving an agent new work, or start again. It keeps what it has.
    pub fn set_agent_paused(&mut self, name: &str, paused: bool) -> (r: Result<Agent, StoreError>)
        ensures
            (final(self)@, seen(r)) == old(self)@.change_agent(
                name@,
                |a: AgentV| AgentV { paused, ..a },
            ),
    {
        let set = |a: &Agent| -> (b: Agent)
            ensures b.deep_view() == (AgentV { paused, ..a.deep_view() })
        {
            let mut b = a.clone();
            b.paused = paused;
            b
        };
        self.change_agent(name, set, Ghost(|a: AgentV| AgentV { paused, ..a }))
    }

    /// Say what an agent is good at, or that it is a generalist.
    pub fn set_agent_capability(&mut self, name: &str, capability: Option<Capability>) -> (r: Result<
        Agent,
        StoreError,
    >)
        ensures
            (final(self)@, seen(r)) == old(self)@.change_agent(
                name@,
                |a: AgentV| AgentV { capability, ..a },
            ),
    {
        let set = |a: &Agent| -> (b: Agent)
            ensures b.deep_view() == (AgentV { capability, ..a.deep_view() })
        {
            let mut b = a.clone();
            b.capability = capability;
            b
        };
        self.change_agent(name, set, Ghost(|a: AgentV| AgentV { capability, ..a }))
    }

    fn change_agent<F: Fn(&Agent) -> Agent>(
        &mut self,
        name: &str,
        set: F,
        Ghost(f): Ghost<spec_fn(AgentV) -> AgentV>,
    ) -> (r: Result<Agent, StoreError>)
        requires
            forall|a: &Agent| #[trigger] call_requires(set, (a,)),
            forall|a: &Agent, b: Agent| #[trigger]
                call_ensures(set, (a,), b) ==> b.deep_view() == f(a.deep_view()),
            forall|a: AgentV| (#[trigger] f(a)).name == a.name,
        ensures
            (final(self)@, seen(r)) == old(self)@.change_agent(name@, f),
    {
        let ghost s0 = self@;
        if self.agent(name).is_none() {
            return Err(fail_about(ErrorKind::NoSuchAgent, "no such agent: ", name));
        }
        let ghost g = |a: AgentV|
            if a.name == name@ {
                f(a)
            } else {
                a
            };
        let ghost before = self@.agents;
        let mut i: usize = 0;
        while i < self.agents.len()
            invariant
                i <= self.agents@.len(),
                forall|a: &Agent| #[trigger] call_requires(set, (a,)),
                forall|a: &Agent, b: Agent| #[trigger]
                    call_ensures(set, (a,), b) ==> b.deep_view() == f(a.deep_view()),
                self@ == (StoreV { agents: self@.agents, ..s0 }),
                self@.agents.len() == before.len(),
                g == (|a: AgentV|
                    if a.name == name@ {
                        f(a)
                    } else {
                        a
                    }),
                forall|k: int| 0 <= k < i ==> #[trigger] self@.agents[k] == g(before[k]),
                forall|k: int| i <= k < before.len() ==> #[trigger] self@.agents[k] == before[k],
            decreases self.agents@.len() - i,
        {
            assert(self@.agents[i as int] == self.agents@[i as int].deep_view());
            if same(self.agents[i].name.as_str(), name) {
                let b = set(&self.agents[i]);
                crate::store::put(&mut self.agents, i, b);
            }
            i += 1;
        }
        assert(self@.agents =~= before.map_values(g));
        proof {
            lemma_first_agent(before, name@, f);
        }
        match self.agent(name) {
            Some(a) => Ok(a),
            None => {
                assert(false);
                Err(fail_about(ErrorKind::NoSuchAgent, "no such agent: ", name))
            },
        }
    }

    /// Write a task down.
    pub fn add_task(&mut self, title: &str, priority: i64, deps: &Vec<String>, now: i64) -> (r: Result<
        Task,
        StoreError,
    >)
        requires
            old(self).tasks@.len() < u64::MAX,
        ensures
            (final(self)@, seen(r)) == old(self)@.add_task(title@, priority, deps.deep_view(), now),
            old(self)@.wf() ==> final(self)@.wf(),
    {
        let missing = |d: &String| -> (b: bool)
            ensures b == self@.no_task()(d.deep_view())
        {
            self.task_at(d.as_str()).is_none()
        };
        if let Some(i) = find_row(deps, missing, Ghost(self@.no_task())) {
            return Err(fail_about(ErrorKind::NoSuchTask, "no such task: ", deps[i].as_str()));
        }
        let n = self.tasks.len() as u64;
        let id = cat("T", decimal_of(n + 1).as_str());
        if self.task_at(id.as_str()).is_some() {
            return Err(fail_about(ErrorKind::Duplicate, "id is taken: ", id.as_str()));
        }
        let row = TaskRow {
            id: id.clone(),
            title: title.to_owned(),
            state: TaskState::Pending,
            priority,
            assignee: None,
            created_at: now,
            updated_at: now,
            claimed_at: None,
            required_capability: None,
        };
        let kept = row.clone();
        proof {
            let rv = row.deep_view();
            law_first_where(self@.tasks, |r: TaskRowV| r.id == rv.id);
            if task_ids_differ(self@.tasks) {
                assert(task_ids_differ(self@.tasks.push(rv)));
            }
        }
        append(&mut self.tasks, row);
        link_all(&mut self.task_deps, id.as_str(), deps);
        let task = self.task_of(&kept);
        let detail = Json::object().with("title", Json::str(title)).with(
            "priority",
            Json::Int(priority),
        );
        assert(detail.deep_view()->Obj_0 =~= seq![
            ("title"@, JsonV::Str(title@)),
            ("priority"@, JsonV::Int(priority as int)),
        ]);
        self.emit(now, "task.created", None, None, Some(id), detail);
        Ok(task)
    }

    /// Changes every row of one task.
    pub(crate) fn with_task<F: Fn(&TaskRow) -> TaskRow>(
        &mut self,
        id: &str,
        set: F,
        Ghost(f): Ghost<spec_fn(TaskRowV) -> TaskRowV>,
    )
        requires
            forall|a: &TaskRow| #[trigger] call_requires(set, (a,)),
            forall|a: &TaskRow, b: TaskRow| #[trigger]
                call_ensures(set, (a,), b) ==> b.deep_view() == f(a.deep_view()),
        ensures
            final(self)@ == old(self)@.with_task(id@, f),
    {
        let ghost s0 = self@;
        let ghost g = |r: TaskRowV|
            if r.id == id@ {
                f(r)
            } else {
                r
            };
        let ghost before = self@.tasks;
        let mut i: usize = 0;
        while i < self.tasks.len()
            invariant
                i <= self.tasks@.len(),
                forall|a: &TaskRow| #[trigger] call_requires(set, (a,)),
                forall|a: &TaskRow, b: TaskRow| #[trigger]
                    call_ensures(set, (a,), b) ==> b.deep_view() == f(a.deep_view()),
                self@ == (StoreV { tasks: self@.tasks, ..s0 }),
                self@.tasks.len() == before.len(),
                g == (|r: TaskRowV|
                    if r.id == id@ {
                        f(r)
                    } else {
                        r
                    }),
                forall|k: int| 0 <= k < i ==> #[trigger] self@.tasks[k] == g(before[k]),
                forall|k: int| i <= k < before.len() ==> #[trigger] self@.tasks[k] == before[k],
            decreases self.tasks@.len() - i,
        {
            assert(self@.tasks[i as int] == self.tasks@[i as int].deep_view());
            if same(self.tasks[i].id.as_str(), id) {
                let b = set(&self.tasks[i]);
                crate::store::put(&mut self.tasks, i, b);
            }
            i += 1;
        }
        assert(self@.tasks =~= before.map_values(g));
    }

    pub(crate) fn move_task(&mut self, id: &str, state: TaskState, now: i64)
        ensures
            final(self)@ == old(self)@.with_task(id@, |r: TaskRowV| in_state(r, state, now)),
    {
        let set = |r: &TaskRow| -> (b: TaskRow)
            ensures b.deep_view() == in_state(r.deep_view(), state, now)
        {
            let mut b = r.clone();
            b.state = state;
            b.updated_at = now;
            b
        };
        self.with_task(id, set, Ghost(|r: TaskRowV| in_state(r, state, now)));
    }

    /// Move a task to a state.
    pub fn set_task_state(
        &mut self,
        id: &str,
        state: TaskState,
        agent: &Option<String>,
        reason: &Option<String>,
        force: bool,
        now: i64,
    ) -> (r: Result<TaskView, StoreError>)
        requires
            old(self)@.wf(),
            sane_time(now),
        ensures
            (final(self)@, seen(r)) == old(self)@.set_task_state(
                id@,
                state,
                agent.deep_view(),
                reason.deep_view(),
                force,
                now,
            ),
            final(self)@.wf(),
    {
        let ghost s0 = self@;
        let row = match self.task_at(id) {
            Some(i) => self.tasks[i].clone(),
            None => {
                return Err(fail_about(ErrorKind::NoSuchTask, "no such task: ", id));
            },
        };
        if !force {
            if let (Some(a), Some(owner)) = (agent, &row.assignee) {
                if !same(a.as_str(), owner.as_str()) {
                    let head = cat3("task ", id, " is assigned to ");
                    return Err(fail(ErrorKind::NotAssignee, cat(head.as_str(), owner.as_str())));
                }
            }
        }
        self.move_task(id, state, now);
        let ghost s1 = self@;
        assert(s1.wf());
        if state == TaskState::Done || state == TaskState::Failed {
            self.release_task_leases(id, now);
            let ghost s2 = self@;
            proof {
                lemma_resolve_keeps(
                    s2,
                    s2.requests.filter(|r: RequestRowV| wants_task(r, id@)),
                    RequestState::Fulfilled,
                    false,
                    JsonV::Obj(
                        seq![("reason"@, JsonV::Str(state.word())), ("task"@, JsonV::Str(id@))],
                    ),
                    now,
                );
            }
            self.resolve_task_requests(id, state.as_str(), now);
        }
        let detail = Json::object().with("reason", Json::opt(reason));
        assert(detail.deep_view()->Obj_0 =~= seq![("reason"@, opt_text(reason.deep_view()))]);
        let kind = cat("task.", state.as_str());
        self.emit(now, kind.as_str(), agent.clone(), None, Some(id.to_owned()), detail);
        let mut moved = row;
        moved.state = state;
        moved.updated_at = now;
        Ok(self.view_of(&moved))
    }

    /// Declare work ready. Leases are kept: nothing is merged yet.
    pub fn submit_for_review(&mut self, id: &str, agent: &str, now: i64) -> (r: Result<
        TaskView,
        StoreError,
    >)
        ensures
            (final(self)@, seen(r)) == old(self)@.submit_for_review(id@, agent@, now),
            old(self)@.wf() ==> final(self)@.wf(),
    {
        let row = match self.task_at(id) {
            Some(i) => self.tasks[i].clone(),
            None => {
                return Err(fail_about(ErrorKind::NoSuchTask, "no such task: ", id));
            },
        };
        let mine = match &row.assignee {
            Some(a) => same(a.as_str(), agent),
            None => false,
        };
        if !mine {
            let head = cat3("task ", id, " is not assigned to ");
            return Err(fail(ErrorKind::NotAssignee, cat(head.as_str(), agent)));
        }
        self.move_task(id, TaskState::Review, now);
        self.emit(
            now,
            "review.submitted",
            Some(agent.to_owned()),
            None,
            Some(id.to_owned()),
            Json::object(),
        );
        let mut moved = row;
        moved.state = TaskState::Review;
        moved.updated_at = now;
        Ok(self.view_of(&moved))
    }
}

proof fn lemma_agent_pushed(rows: Seq<AgentV>, x: AgentV)
    requires
        first_where(rows, |a: AgentV| a.name == x.name) is None,
    ensures
        first_where(rows.push(x), |a: AgentV| a.name == x.name) == Some(x),
    decreases rows.len(),
{
    if rows.len() > 0 {
        lemma_agent_pushed(rows.drop_first(), x);
        assert(rows.push(x).drop_first() =~= rows.drop_first().push(x));
    }
}

// ----------------------------------------------------------------------- laws

/// Finishing a task gives its symbols back: no lease taken for it stays active.
pub proof fn law_finished_task_frees_its_scope(
    s: StoreV,
    id: Seq<char>,
    state: TaskState,
    agent: Option<Seq<char>>,
    reason: Option<Seq<char>>,
    force: bool,
    now: i64,
    i: int,
)
    requires
        over(state),
        s.set_task_state(id, state, agent, reason, force, now).1 is Ok,
        0 <= i < s.leases.len(),
        s.leases[i].task == Some(id),
    ensures
        !(s.set_task_state(id, state, agent, reason, force, now).0.leases[i].state is Active),
{
    let w = s.with_task(id, |r: TaskRowV| in_state(r, state, now));
    let p = |l: LeaseRowV| l.task == Some(id) && l.state is Active;
    let rows = w.leases.filter(p);
    lemma_finish_each_keeps(w, rows, LeaseState::Released, "task finished"@, now);
    let f = w.release_task_leases(id, now);
    lemma_resolve_keeps(
        f,
        f.requests.filter(|r: RequestRowV| wants_task(r, id)),
        RequestState::Fulfilled,
        false,
        JsonV::Obj(seq![("reason"@, JsonV::Str(state.word())), ("task"@, JsonV::Str(id))]),
        now,
    );
    if s.leases[i].state is Active {
        law_filter_has(w.leases, p, w.leases[i]);
        let k = choose|k: int| 0 <= k < rows.len() && rows[k] == w.leases[i];
        assert(rows[k].id == w.leases[i].id);
    }
}

/// Closing work that is assigned to somebody else is refused, and then nothing has
/// changed.
pub proof fn law_only_the_assignee_closes(
    s: StoreV,
    id: Seq<char>,
    state: TaskState,
    agent: Seq<char>,
    reason: Option<Seq<char>>,
    now: i64,
)
    requires
        s.task_row(id) matches Some(row) && row.assignee matches Some(owner) && owner != agent,
    ensures
        s.set_task_state(id, state, Some(agent), reason, false, now).1 is Err,
        s.set_task_state(id, state, Some(agent), reason, false, now).0 == s,
{
}

/// A new task waits only for tasks that are there; otherwise nothing is written down.
pub proof fn law_new_tasks_wait_for_known_ones(
    s: StoreV,
    title: Seq<char>,
    priority: i64,
    deps: Seq<Seq<char>>,
    now: i64,
    i: int,
)
    requires
        0 <= i < deps.len(),
    ensures
        s.add_task(title, priority, deps, now).1 is Ok ==> s.task_row(deps[i]) is Some,
        s.add_task(title, priority, deps, now).1 is Err ==> s.add_task(title, priority, deps, now).0
            == s,
{
    law_first_where(deps, s.no_task());
    if s.task_row(deps[i]) is None {
        assert(s.no_task()(deps[i]));
    }
}

/// Submitting for review keeps every lease.
pub proof fn law_review_keeps_leases(s: StoreV, id: Seq<char>, agent: Seq<char>, now: i64)
    ensures
        s.submit_for_review(id, agent, now).0.leases == s.leases,
{
}

} // verus!
