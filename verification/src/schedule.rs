//! The scheduler.
//!
//! What makes it more than a queue is that it can see the code. Tasks carry a
//! scope, the symbols they are expected to touch, and that one link turns the
//! graph and the lease table into scheduling inputs: dependencies are inferred from
//! edges, contended work is not handed out, and what a dead agent held comes back.

use vstd::prelude::*;
use vstd::string::*;

use crate::depends::{cycles_from, find_cycles, leads, leads_to};
use crate::graph::NeighborV;
use crate::json::{opt_text, Json, JsonV};
use crate::lease::{default_options, lemma_finish_each_keeps, AcquireOptions, AcquireOptionsV};
use crate::model::{
    AgentV, Capability, Conflict, ConflictV, EdgeKind, LeaseState, Symbol, SymbolV, TaskState,
};
use crate::order::{rank, sorted, stable_sort, Ranked};
use crate::rows::{each, find_row, keep};
use crate::sql::holds_text;
use crate::store::{
    append, fail, fail_about, failure, first_where, no_rows, sane_time, sane_ttl, seen, ErrorKind, LeaseRow,
    LeaseRowV, Link, LinkV, Store, StoreError, StoreErrorV, StoreV, TaskRow, TaskRowV, Tick,
};
use crate::text::{cat3, comes_before, decimal, decimal_of, same, same_opt, text_lt};
use crate::work::{has_link, link, linked, linked_all, link_all, TaskView, TaskViewV};

verus! {

broadcast use vstd::string::group_string_axioms;

/// No plan has more waves than this.
pub const MAX_WAVES: usize = 64;

/// A task, with everything the scheduler knows about whether it can run.
#[derive(Debug)]
pub struct ScheduledTask {
    pub task: TaskView,
    /// Symbols the task is expected to touch.
    pub scope: Vec<Symbol>,
    /// Someone else holds part of the scope: ready, but not safe to start.
    pub contended_by: Option<Conflict>,
}

/// The contents of a [`ScheduledTask`].
pub struct ScheduledTaskV {
    pub task: TaskViewV,
    pub scope: Seq<SymbolV>,
    pub contended_by: Option<ConflictV>,
}

impl DeepView for ScheduledTask {
    type V = ScheduledTaskV;

    open spec fn deep_view(&self) -> ScheduledTaskV {
        ScheduledTaskV {
            task: self.task.deep_view(),
            scope: self.scope.deep_view(),
            contended_by: self.contended_by.deep_view(),
        }
    }
}

impl Clone for ScheduledTask {
    fn clone(&self) -> (r: Self)
        ensures
            r.deep_view() == self.deep_view(),
    {
        let r = ScheduledTask {
            task: self.task.clone(),
            scope: self.scope.clone(),
            contended_by: self.contended_by.clone(),
        };
        assert(r.scope.deep_view() =~= self.scope.deep_view());
        r
    }
}

/// One layer of the dependency graph: everything in it can run at once.
#[derive(Debug)]
pub struct Wave {
    pub level: usize,
    pub tasks: Vec<ScheduledTask>,
}

/// The contents of a [`Wave`].
pub struct WaveV {
    pub level: usize,
    pub tasks: Seq<ScheduledTaskV>,
}

impl DeepView for Wave {
    type V = WaveV;

    open spec fn deep_view(&self) -> WaveV {
        WaveV {
            level: self.level,
            tasks: self.tasks.deep_view(),
        }
    }
}

impl Clone for Wave {
    fn clone(&self) -> (r: Self)
        ensures
            r.deep_view() == self.deep_view(),
    {
        let r = Wave {
            level: self.level,
            tasks: self.tasks.clone(),
        };
        assert(r.tasks.deep_view() =~= self.tasks.deep_view());
        r
    }
}

/// What runs now, what runs after, and what cannot run.
#[derive(Debug)]
pub struct Plan {
    pub waves: Vec<Wave>,
    pub running: Vec<ScheduledTask>,
    /// Submitted for review: still holding its leases, not running.
    pub in_review: Vec<ScheduledTask>,
    /// Tasks in one of these can never become ready.
    pub cycles: Vec<Vec<String>>,
    /// How many tasks could be started right now without colliding with a scope that
    /// somebody holds. Each is counted by itself, so two that share a free symbol
    /// count as two.
    pub startable_now: usize,
    /// The widest wave.
    pub max_parallel: usize,
    /// A longest chain of work that is not done, in the order it has to be done.
    pub critical_path: Vec<String>,
}

/// The contents of a [`Plan`].
pub struct PlanV {
    pub waves: Seq<WaveV>,
    pub running: Seq<ScheduledTaskV>,
    pub in_review: Seq<ScheduledTaskV>,
    pub cycles: Seq<Seq<Seq<char>>>,
    pub startable_now: usize,
    pub max_parallel: usize,
    pub critical_path: Seq<Seq<char>>,
}

impl DeepView for Plan {
    type V = PlanV;

    open spec fn deep_view(&self) -> PlanV {
        PlanV {
            waves: self.waves.deep_view(),
            running: self.running.deep_view(),
            in_review: self.in_review.deep_view(),
            cycles: self.cycles.deep_view(),
            startable_now: self.startable_now,
            max_parallel: self.max_parallel,
            critical_path: self.critical_path.deep_view(),
        }
    }
}

impl Clone for Plan {
    fn clone(&self) -> (r: Self)
        ensures
            r.deep_view() == self.deep_view(),
    {
        let r = Plan {
            waves: self.waves.clone(),
            running: self.running.clone(),
            in_review: self.in_review.clone(),
            cycles: self.cycles.clone(),
            startable_now: self.startable_now,
            max_parallel: self.max_parallel,
            critical_path: self.critical_path.clone(),
        };
        assert(r.waves.deep_view() =~= self.waves.deep_view());
        assert(r.running.deep_view() =~= self.running.deep_view());
        assert(r.in_review.deep_view() =~= self.in_review.deep_view());
        assert(r.cycles.deep_view() =~= self.cycles.deep_view());
        assert(r.critical_path.deep_view() =~= self.critical_path.deep_view());
        r
    }
}

/// A dependency worked out from the code graph.
#[derive(Debug)]
pub struct InferredDep {
    pub task: String,
    pub depends_on: String,
    /// The symbol in the scope of `task` that pointed at the other task.
    pub via: String,
    pub edge: EdgeKind,
}

/// The contents of a [`InferredDep`].
pub struct InferredDepV {
    pub task: Seq<char>,
    pub depends_on: Seq<char>,
    pub via: Seq<char>,
    pub edge: EdgeKind,
}

impl DeepView for InferredDep {
    type V = InferredDepV;

    open spec fn deep_view(&self) -> InferredDepV {
        InferredDepV {
            task: self.task@,
            depends_on: self.depends_on@,
            via: self.via@,
            edge: self.edge,
        }
    }
}

impl Clone for InferredDep {
    fn clone(&self) -> (r: Self)
        ensures
            r.deep_view() == self.deep_view(),
    {
        let r = InferredDep {
            task: self.task.clone(),
            depends_on: self.depends_on.clone(),
            via: self.via.clone(),
            edge: self.edge,
        };
        r
    }
}

impl ScheduledTaskV {
    /// Ready, and nothing in its scope is held.
    pub open spec fn startable(self) -> bool {
        self.task.ready && self.contended_by is None
    }
}

impl ScheduledTask {
    /// Ready, unblocked by dependencies, and nothing in its scope is held.
    pub fn startable(&self) -> (r: bool)
        ensures
            r == self.deep_view().startable(),
    {
        self.task.ready && self.contended_by.is_none()
    }
}

impl crate::rows::Row for ScheduledTask {
    fn copy(&self) -> (r: Self) {
        self.clone()
    }
}

impl crate::rows::Row for InferredDep {
    fn copy(&self) -> (r: Self) {
        self.clone()
    }
}

impl Ranked for ScheduledTask {
    /// Higher priority first.
    open spec fn before(a: ScheduledTaskV, b: ScheduledTaskV) -> bool {
        a.task.task.priority > b.task.task.priority
    }

    fn is_before(&self, other: &Self) -> (r: bool) {
        self.task.task.priority > other.task.task.priority
    }
}

impl Ranked for Symbol {
    /// By handle.
    open spec fn before(a: SymbolV, b: SymbolV) -> bool {
        text_lt(a.handle(), b.handle())
    }

    fn is_before(&self, other: &Self) -> (r: bool) {
        comes_before(self.handle().as_str(), other.handle().as_str())
    }
}

impl Ranked for InferredDep {
    /// By task, then by what it depends on.
    open spec fn before(a: InferredDepV, b: InferredDepV) -> bool {
        text_lt(a.task, b.task) || (a.task == b.task && text_lt(a.depends_on, b.depends_on))
    }

    fn is_before(&self, other: &Self) -> (r: bool) {
        comes_before(self.task.as_str(), other.task.as_str()) || (same(
            self.task.as_str(),
            other.task.as_str(),
        ) && comes_before(self.depends_on.as_str(), other.depends_on.as_str()))
    }
}

// ------------------------------------------------------------ what is inferred

/// Which edges make the user of something wait for it?
pub open spec fn binding(kind: EdgeKind) -> bool {
    kind is Calls || kind is Uses || kind is Imports || kind is Queries
}

/// A symbol in the scope of a task.
pub struct Claim {
    pub symbol: SymbolV,
    pub task: Seq<char>,
}

/// The last item that satisfies `p`.
pub open spec fn last_where<T>(s: Seq<T>, p: spec_fn(T) -> bool) -> Option<T>
    decreases s.len(),
{
    if s.len() == 0 {
        None
    } else if p(s.last()) {
        Some(s.last())
    } else {
        last_where(s.drop_last(), p)
    }
}

/// Is the pair named in two dependencies the same?
pub open spec fn same_pair(a: InferredDepV, b: InferredDepV) -> bool {
    a.task == b.task && a.depends_on == b.depends_on
}

/// The list without neighbours that name the same pair: the first stays.
pub open spec fn pairs_once(s: Seq<InferredDepV>) -> Seq<InferredDepV>
    decreases s.len(),
{
    if s.len() == 0 {
        Seq::empty()
    } else {
        let before = pairs_once(s.drop_last());
        if before.len() > 0 && same_pair(before.last(), s.last()) {
            before
        } else {
            before.push(s.last())
        }
    }
}

/// The row of a task that an agent has taken.
pub open spec fn claimed(r: TaskRowV, agent: Seq<char>, now: i64) -> TaskRowV {
    TaskRowV {
        state: TaskState::Running,
        assignee: Some(agent),
        claimed_at: Some(now),
        updated_at: now,
        ..r
    }
}

/// The row of a task that is back in the pool.
pub open spec fn returned(r: TaskRowV, now: i64) -> TaskRowV {
    TaskRowV { state: TaskState::Pending, assignee: None, claimed_at: None, updated_at: now, ..r }
}

/// The options that a scheduler leases a scope with.
pub open spec fn claim_options(task: Seq<char>, ttl_secs: i64) -> AcquireOptionsV {
    AcquireOptionsV {
        task: Some(task),
        ttl_secs,
        note: Some("leased by the scheduler with the task"@),
        ..default_options()
    }
}

/// The options that a reassignment leases a scope with.
pub open spec fn assign_options(task: Seq<char>, preempt: bool, priority: i64) -> AcquireOptionsV {
    AcquireOptionsV {
        task: Some(task),
        preempt,
        priority,
        note: Some("leased on reassignment"@),
        ..default_options()
    }
}

/// The ids of some tasks.
pub open spec fn ids_of(tasks: Seq<TaskViewV>) -> Seq<Seq<char>> {
    tasks.map_values(|t: TaskViewV| t.task.id)
}

impl StoreV {
    /// The ids of the symbols a task is scoped to.
    pub open spec fn scope_ids(self, task: Seq<char>) -> Seq<Seq<char>> {
        self.task_symbols.filter(|l: LinkV| l.left == task).map_values(|l: LinkV| l.right)
    }

    /// The symbols a task is scoped to, by handle.
    pub open spec fn task_scope(self, task: Seq<char>) -> Seq<SymbolV> {
        sorted(self.symbols_of(self.scope_ids(task)), rank::<Symbol>())
    }

    /// The symbols that some references name, or why one names none.
    pub open spec fn resolve_all(self, queries: Seq<Seq<char>>) -> Result<Seq<SymbolV>, StoreErrorV>
        decreases queries.len(),
    {
        if queries.len() == 0 {
            Ok(Seq::empty())
        } else {
            match self.resolve_all(queries.drop_last()) {
                Err(e) => Err(e),
                Ok(found) => match self.resolve(queries.last()) {
                    Err(e) => Err(e),
                    Ok(s) => Ok(found.push(s)),
                },
            }
        }
    }

    /// Declaring which symbols a task will touch.
    pub open spec fn set_task_scope(self, task: Seq<char>, queries: Seq<Seq<char>>, now: i64) -> (
        StoreV,
        Result<Seq<SymbolV>, StoreErrorV>,
    ) {
        match self.resolve_all(queries) {
            Err(e) => (self, Err(e)),
            Ok(found) => if self.task_row(task) is None {
                (self, Err(failure(ErrorKind::NoSuchTask, "no such task: "@ + task)))
            } else {
                (
                    StoreV {
                        task_symbols: linked_all(
                            self.task_symbols,
                            task,
                            found.map_values(|s: SymbolV| s.id),
                        ),
                        ..self
                    }.emit(
                        now,
                        "task.scoped"@,
                        None,
                        None,
                        Some(task),
                        JsonV::Obj(
                            seq![
                                (
                                    "symbols"@,
                                    JsonV::Arr(
                                        found.map_values(|s: SymbolV| JsonV::Str(s.handle())),
                                    ),
                                ),
                            ],
                        ),
                    ),
                    Ok(found),
                )
            },
        }
    }

    /// The tasks whose work is not over.
    pub open spec fn open_tasks(self) -> Seq<TaskViewV> {
        self.tasks_listed().filter(
            |t: TaskViewV| !(t.task.state is Done) && !(t.task.state is Failed),
        )
    }

    /// What some tasks are scoped to.
    pub open spec fn claims(self, tasks: Seq<TaskViewV>) -> Seq<Claim>
        decreases tasks.len(),
    {
        if tasks.len() == 0 {
            Seq::empty()
        } else {
            let id = tasks.last().task.id;
            self.claims(tasks.drop_last()) + self.task_scope(id).map_values(
                |s: SymbolV| Claim { symbol: s, task: id },
            )
        }
    }

    /// The task that a symbol belongs to: the last one scoped to it, or else the
    /// first one scoped to something around it.
    pub open spec fn owner(self, claims: Seq<Claim>, symbol: Seq<char>) -> Option<Seq<char>> {
        match last_where(claims, |c: Claim| c.symbol.id == symbol) {
            Some(c) => Some(c.task),
            None => match first_where(
                claims,
                |c: Claim| c.symbol.id != symbol && self.covers(c.symbol.id, symbol),
            ) {
                Some(c) => Some(c.task),
                None => None,
            },
        }
    }

    /// The dependencies that the edges out of one symbol ask for.
    pub open spec fn asked_by(self, claims: Seq<Claim>, c: Claim, out: Seq<NeighborV>) -> Seq<
        InferredDepV,
    >
        decreases out.len(),
    {
        if out.len() == 0 {
            Seq::empty()
        } else {
            let before = self.asked_by(claims, c, out.drop_last());
            let n = out.last();
            match self.owner(claims, n.symbol.id) {
                Some(other) => if binding(n.kind) && other != c.task {
                    before.push(
                        InferredDepV {
                            task: c.task,
                            depends_on: other,
                            via: c.symbol.handle(),
                            edge: n.kind,
                        },
                    )
                } else {
                    before
                },
                None => before,
            }
        }
    }

    /// The dependencies that the edges out of every scope ask for.
    pub open spec fn asked(self, claims: Seq<Claim>, some: Seq<Claim>) -> Seq<InferredDepV>
        decreases some.len(),
    {
        if some.len() == 0 {
            Seq::empty()
        } else {
            let c = some.last();
            self.asked(claims, some.drop_last()) + self.asked_by(
                claims,
                c,
                self.neighbors(c.symbol.id).callees,
            )
        }
    }

    /// The dependencies worth adding, in order, each pair once.
    pub open spec fn wanted(self) -> Seq<InferredDepV> {
        let claims = self.claims(self.open_tasks());
        pairs_once(sorted(self.asked(claims, claims), rank::<InferredDep>()))
    }

    /// Is this dependency there already?
    pub open spec fn knows(self, d: InferredDepV) -> bool {
        self.task_deps.contains(LinkV { left: d.task, right: d.depends_on })
    }

    /// Would this dependency close a loop?
    pub open spec fn would_cycle(self, d: InferredDepV) -> bool {
        leads(self.task_deps, d.depends_on, d.task)
    }

    /// Is this dependency one that is not to be created: there already, or closing a
    /// loop?
    pub open spec fn redundant(self, d: InferredDepV) -> bool {
        self.knows(d) || self.would_cycle(d)
    }

    /// The state with one more inferred dependency.
    pub open spec fn with_dep(self, d: InferredDepV, now: i64) -> StoreV {
        StoreV {
            task_deps: linked(self.task_deps, LinkV { left: d.task, right: d.depends_on }),
            ..self
        }.emit(
            now,
            "task.dependency_inferred"@,
            None,
            None,
            Some(d.task),
            JsonV::Obj(
                seq![
                    ("depends_on"@, JsonV::Str(d.depends_on)),
                    ("via"@, JsonV::Str(d.via)),
                    ("edge"@, JsonV::Str(d.edge.word())),
                ],
            ),
        )
    }

    /// Going through dependencies one at a time. What is there already is passed over;
    /// what would close a loop is reported but not created; everything else is
    /// created. Gives what was reported.
    pub open spec fn add_deps(self, ds: Seq<InferredDepV>, now: i64) -> (StoreV, Seq<InferredDepV>)
        decreases ds.len(),
    {
        if ds.len() == 0 {
            (self, Seq::empty())
        } else {
            let (s, found) = self.add_deps(ds.drop_last(), now);
            let d = ds.last();
            if s.knows(d) {
                (s, found)
            } else if s.would_cycle(d) {
                (s, found.push(d))
            } else {
                (s.with_dep(d, now), found.push(d))
            }
        }
    }

    /// The tasks that cycles are looked for from.
    pub open spec fn unfinished(self) -> Seq<Seq<char>> {
        ids_of(self.tasks_listed().filter(|t: TaskViewV| !(t.task.state is Done)))
    }

    /// The dependencies of work that is not done on work that is not done. What is
    /// done holds nothing up.
    pub open spec fn open_deps(self) -> Seq<LinkV> {
        self.task_deps.filter(|l: LinkV| self.unmet(l.left) && self.unmet(l.right))
    }

    /// The cycles among the tasks that are not done.
    pub open spec fn dependency_cycles(self) -> Seq<Seq<Seq<char>>> {
        cycles_from(self.open_deps(), self.unfinished())
    }

    // ------------------------------------------------------------------ the plan

    /// Is the task part of a cycle?
    pub open spec fn circular(self, id: Seq<char>) -> bool {
        exists|k: int|
            0 <= k < self.dependency_cycles().len() && (#[trigger] self.dependency_cycles()[k]).contains(
                id,
            )
    }

    /// The tasks that waves are made of.
    pub open spec fn waiting(self) -> Seq<TaskViewV> {
        self.tasks_listed().filter(
            |t: TaskViewV| (t.task.state is Pending || t.task.state is Blocked) && !self.circular(t.task.id),
        )
    }

    /// Is everything that a task depends on done, or in an earlier wave?
    pub open spec fn cleared(self, t: TaskViewV, placed: Seq<Seq<char>>) -> bool {
        forall|k: int|
            0 <= k < t.task.deps.len() ==> placed.contains(#[trigger] t.task.deps[k]) || !self.unmet(
                t.task.deps[k],
            )
    }

    /// The waves that the remaining tasks make, once some tasks are placed.
    pub open spec fn levels(
        self,
        remaining: Seq<TaskViewV>,
        placed: Seq<Seq<char>>,
        rounds: nat,
    ) -> Seq<Seq<TaskViewV>>
        decreases rounds,
    {
        let now = remaining.filter(|t: TaskViewV| self.cleared(t, placed));
        if rounds == 0 || now.len() == 0 {
            Seq::empty()
        } else {
            let placed = placed + ids_of(now);
            seq![now] + self.levels(
                remaining.filter(|t: TaskViewV| !placed.contains(t.task.id)),
                placed,
                (rounds - 1) as nat,
            )
        }
    }

    /// The waves, before anything is looked up about their tasks.
    pub open spec fn waves(self) -> Seq<Seq<TaskViewV>> {
        self.levels(self.waiting(), Seq::empty(), MAX_WAVES as nat)
    }

    /// The first conflict on a symbol of a scope.
    pub open spec fn contention(self, scope: Seq<SymbolV>, agent: Seq<char>, now: i64) -> Option<
        ConflictV,
    >
        decreases scope.len(),
    {
        if scope.len() == 0 {
            None
        } else {
            let cs = self.conflicts_for(scope[0].id, agent, now);
            if cs.len() > 0 {
                Some(cs[0])
            } else {
                self.contention(scope.drop_first(), agent, now)
            }
        }
    }

    /// A task with its scope and who is in its way.
    pub open spec fn decorate(self, t: TaskViewV, now: i64) -> ScheduledTaskV {
        let scope = self.task_scope(t.task.id);
        let agent = match t.task.assignee {
            Some(a) => a,
            None => ""@,
        };
        ScheduledTaskV { task: t, scope, contended_by: self.contention(scope, agent, now) }
    }

    /// Some tasks with their scopes.
    pub open spec fn decorated(self, ts: Seq<TaskViewV>, now: i64) -> Seq<ScheduledTaskV> {
        ts.map_values(|t: TaskViewV| self.decorate(t, now))
    }

    /// A chain of tasks, each depending on the one before it, that ends with a task
    /// of wave `level`.
    pub open spec fn chain_to(self, waves: Seq<Seq<TaskViewV>>, id: Seq<char>, level: nat) -> Seq<
        Seq<char>,
    >
        decreases level,
    {
        if level == 0 || level >= waves.len() {
            seq![id]
        } else {
            match first_where(
                self.deps_of(id),
                |d: Seq<char>| ids_of(waves[level - 1]).contains(d),
            ) {
                Some(d) => self.chain_to(waves, d, (level - 1) as nat).push(id),
                None => seq![id],
            }
        }
    }

    /// A longest chain of work that is not done.
    pub open spec fn critical_path(self, waves: Seq<Seq<TaskViewV>>) -> Seq<Seq<char>> {
        if waves.len() == 0 {
            Seq::empty()
        } else {
            self.chain_to(waves, waves.last()[0].task.id, (waves.len() - 1) as nat)
        }
    }

    /// The whole plan.
    pub open spec fn plan(self, now: i64) -> PlanV {
        let waves = self.waves();
        let shown = Seq::new(
            waves.len(),
            |k: int|
                WaveV {
                    level: k as usize,
                    tasks: sorted(self.decorated(waves[k], now), rank::<ScheduledTask>()),
                },
        );
        PlanV {
            waves: shown,
            running: self.decorated(
                self.tasks_listed().filter(|t: TaskViewV| t.task.state is Running),
                now,
            ),
            in_review: self.decorated(
                self.tasks_listed().filter(|t: TaskViewV| t.task.state is Review),
                now,
            ),
            cycles: self.dependency_cycles(),
            startable_now: if shown.len() == 0 {
                0
            } else {
                shown[0].tasks.filter(|t: ScheduledTaskV| t.startable()).len() as usize
            },
            max_parallel: widest(waves) as usize,
            critical_path: self.critical_path(waves),
        }
    }

    // --------------------------------------------------------------- handing out

    /// The goal that a task serves.
    pub open spec fn task_goal(self, task: Seq<char>) -> Option<Seq<char>> {
        match first_where(self.task_goals, |l: LinkV| l.left == task) {
            Some(l) => Some(l.right),
            None => None,
        }
    }

    /// Is this one of the tasks that an agent may have?
    pub open spec fn offered(
        self,
        t: ScheduledTaskV,
        capability: Option<Capability>,
        goal: Option<Seq<char>>,
    ) -> bool {
        &&& t.startable()
        &&& t.task.task.required_capability is None || t.task.task.required_capability == capability
        &&& goal is Some ==> self.task_goal(t.task.task.id) == goal
    }

    /// The tasks that an agent may be given now, best first.
    pub open spec fn offers(self, capability: Option<Capability>, goal: Option<Seq<char>>, now: i64) -> Seq<
        Seq<char>,
    > {
        let plan = self.plan(now);
        if plan.waves.len() == 0 {
            Seq::empty()
        } else {
            plan.waves[0].tasks.filter(
                |t: ScheduledTaskV| self.offered(t, capability, goal),
            ).map_values(|t: ScheduledTaskV| t.task.task.id)
        }
    }

    /// Claiming one task and its scope. No where it was taken or its scope is
    /// contended, and then nothing has changed.
    pub open spec fn claim_one(
        self,
        id: Seq<char>,
        agent: Seq<char>,
        ttl_secs: i64,
        t: Tick,
    ) -> (StoreV, Result<bool, StoreErrorV>) {
        let scope = self.task_scope(id).map_values(|s: SymbolV| s.id);
        match self.task_row(id) {
            None => (self, Err(failure(ErrorKind::NoSuchTask, "no such task: "@ + id))),
            Some(row) => if !(row.state is Pending) {
                (self, Ok(false))
            } else {
                match self.settle_scope(scope, agent, claim_options(id, ttl_secs), t) {
                    (_, Err(e)) => (self, Err(e)),
                    (s, Ok(cs)) => if cs.len() > 0 {
                        (self, Ok(false))
                    } else {
                        (s.start(id, agent, scope.len(), t.now), Ok(true))
                    },
                }
            },
        }
    }

    /// The state once an agent has started on a task.
    pub open spec fn start(self, id: Seq<char>, agent: Seq<char>, scope: nat, now: i64) -> StoreV {
        self.with_task(id, |r: TaskRowV| claimed(r, agent, now)).with_agent(
            agent,
            |a: AgentV| AgentV { status: "working"@, heartbeat_at: now, ..a },
        ).emit(
            now,
            "task.started"@,
            Some(agent),
            None,
            Some(id),
            JsonV::Obj(seq![("scope"@, JsonV::Int(scope as int))]),
        )
    }

    /// Claiming the first task of a list that can be had.
    pub open spec fn claim_first(
        self,
        ids: Seq<Seq<char>>,
        agent: Seq<char>,
        ttl_secs: i64,
        t: Tick,
    ) -> (StoreV, Result<Option<Seq<char>>, StoreErrorV>)
        decreases ids.len(),
    {
        if ids.len() == 0 {
            (self, Ok(None))
        } else {
            match self.claim_one(ids[0], agent, ttl_secs, t) {
                (_, Err(e)) => (self, Err(e)),
                (s, Ok(true)) => (s, Ok(Some(ids[0]))),
                (_, Ok(false)) => self.claim_first(ids.drop_first(), agent, ttl_secs, t),
            }
        }
    }

    /// Claiming the best task that an agent can safely start.
    pub open spec fn claim_next_in(
        self,
        agent: Seq<char>,
        ttl_secs: i64,
        goal: Option<Seq<char>>,
        t: Tick,
    ) -> (StoreV, Result<Option<ScheduledTaskV>, StoreErrorV>) {
        let caller = self.agent(agent);
        if caller matches Some(a) && a.paused {
            (self, Ok(None))
        } else {
            let capability = match caller {
                Some(a) => a.capability,
                None => None,
            };
            let ids = self.offers(capability, goal, t.now);
            match self.claim_first(ids, agent, ttl_secs, t) {
                (s, Err(e)) => (s, Err(e)),
                (s, Ok(None)) => (s, Ok(None)),
                (s, Ok(Some(id))) => (
                    s,
                    Ok(
                        match s.task(id) {
                            Some(v) => Some(s.decorate(v, t.now)),
                            None => None,
                        },
                    ),
                ),
            }
        }
    }

    /// The active leases taken for a task.
    pub open spec fn task_leases(self, task: Seq<char>) -> Seq<LeaseRowV> {
        self.leases.filter(|l: LeaseRowV| l.task == Some(task) && l.state is Active)
    }

    /// Handing every lease of a list to one agent.
    pub open spec fn hand_all(self, rows: Seq<LeaseRowV>, to: Seq<char>, now: i64) -> (
        StoreV,
        Option<StoreErrorV>,
    )
        decreases rows.len(),
    {
        if rows.len() == 0 {
            (self, None)
        } else {
            let (s, e) = self.hand_all(rows.drop_last(), to, now);
            let l = rows.last();
            if e is Some || l.agent == to {
                (s, e)
            } else {
                match s.transfer_lease(l.id, l.agent, to, now) {
                    (r, Ok(_)) => (r, None),
                    (_, Err(x)) => (s, Some(x)),
                }
            }
        }
    }

    /// Moving a task to an agent, with its leases and the rest of its scope. Where
    /// that cannot be had, nothing has changed.
    pub open spec fn assign_task_opts(
        self,
        id: Seq<char>,
        to: Seq<char>,
        actor: Option<Seq<char>>,
        preempt: bool,
        priority: i64,
        t: Tick,
    ) -> (StoreV, Result<TaskViewV, StoreErrorV>) {
        match self.task_row(id) {
            None => (self, Err(failure(ErrorKind::NoSuchTask, "no such task: "@ + id))),
            Some(row) => if self.agent(to) is None {
                (self, Err(failure(ErrorKind::NoSuchAgent, "no such agent: "@ + to)))
            } else if row.assignee == Some(to) {
                (self, Ok(self.view_of(row)))
            } else {
                let held = self.task_leases(id);
                let settled = held.map_values(|l: LeaseRowV| l.symbol_id);
                let rest = self.task_scope(id).map_values(|s: SymbolV| s.id).filter(
                    |x: Seq<char>| !settled.contains(x),
                );
                match self.hand_all(held, to, t.now) {
                    (_, Some(e)) => (self, Err(e)),
                    (s, None) => match s.settle_scope(
                        rest,
                        to,
                        assign_options(id, preempt, priority),
                        t,
                    ) {
                        (_, Err(e)) => (self, Err(e)),
                        (s, Ok(cs)) => if cs.len() > 0 {
                            (
                                self,
                                Err(
                                    failure(
                                        ErrorKind::ScopeHeld,
                                        "cannot assign "@ + id + " to "@ + to + ": "@ + decimal(
                                            cs.len(),
                                        ) + " of its symbols are held by someone else"@,
                                    ),
                                ),
                            )
                        } else {
                            let s = s.with_task(id, |r: TaskRowV| claimed(r, to, t.now)).emit(
                                t.now,
                                "task.reassigned"@,
                                actor,
                                None,
                                Some(id),
                                JsonV::Obj(
                                    seq![
                                        ("from"@, opt_text(row.assignee)),
                                        ("to"@, JsonV::Str(to)),
                                        ("leases_moved"@, JsonV::Int(held.len() as int)),
                                        ("leases_acquired"@, JsonV::Int(rest.len() as int)),
                                    ],
                                ),
                            );
                            (s, Ok(s.view_of(claimed(row, to, t.now))))
                        },
                    },
                }
            },
        }
    }

    /// Changing a task's priority.
    pub open spec fn set_task_priority(self, id: Seq<char>, priority: i64, now: i64) -> (
        StoreV,
        Result<TaskViewV, StoreErrorV>,
    ) {
        match self.task_row(id) {
            None => (self, Err(failure(ErrorKind::NoSuchTask, "no such task: "@ + id))),
            Some(row) => {
                let s = self.with_task(
                    id,
                    |r: TaskRowV| TaskRowV { priority, updated_at: now, ..r },
                ).emit(
                    now,
                    "task.reprioritised"@,
                    None,
                    None,
                    Some(id),
                    JsonV::Obj(seq![("priority"@, JsonV::Int(priority as int))]),
                );
                (s, Ok(s.view_of(TaskRowV { priority, updated_at: now, ..row })))
            },
        }
    }

    /// Changing the capability that a task requires.
    pub open spec fn set_task_required_capability(
        self,
        id: Seq<char>,
        capability: Option<Capability>,
        now: i64,
    ) -> (StoreV, Result<TaskViewV, StoreErrorV>) {
        match self.task_row(id) {
            None => (self, Err(failure(ErrorKind::NoSuchTask, "no such task: "@ + id))),
            Some(row) => {
                let s = self.with_task(
                    id,
                    |r: TaskRowV|
                        TaskRowV { required_capability: capability, updated_at: now, ..r },
                );
                (
                    s,
                    Ok(
                        s.view_of(
                            TaskRowV { required_capability: capability, updated_at: now, ..row },
                        ),
                    ),
                )
            },
        }
    }

    /// Is the task running for an agent that is gone, or was not seen since
    /// `cutoff`?
    pub open spec fn orphaned(self, r: TaskRowV, cutoff: int) -> bool {
        r.state is Running && (r.assignee matches Some(a) && (self.agent(a) matches Some(x)
            ==> x.heartbeat_at < cutoff))
    }

    /// The state once an orphan is back in the pool, with its scope.
    pub open spec fn give_back(self, r: TaskRowV, now: i64) -> StoreV {
        let s = self.with_task(r.id, |x: TaskRowV| returned(x, now));
        s.release_task_leases(r.id, now).emit(
            now,
            "task.reassigned"@,
            r.assignee,
            None,
            Some(r.id),
            JsonV::Obj(
                seq![
                    ("reason"@, JsonV::Str("assignee went offline"@)),
                    ("leases_released"@, JsonV::Int(s.task_leases(r.id).len() as int)),
                ],
            ),
        )
    }

    /// The state once every task of a list is back in the pool.
    pub open spec fn give_back_all(self, rows: Seq<TaskRowV>, now: i64) -> StoreV
        decreases rows.len(),
    {
        if rows.len() == 0 {
            self
        } else {
            self.give_back_all(rows.drop_last(), now).give_back(rows.last(), now)
        }
    }

    /// The work of agents that went silent.
    pub open spec fn orphans(self, cutoff: int) -> Seq<TaskRowV> {
        self.tasks.filter(|r: TaskRowV| self.orphaned(r, cutoff))
    }
}

/// The size of the widest wave.
pub open spec fn widest(waves: Seq<Seq<TaskViewV>>) -> nat
    decreases waves.len(),
{
    if waves.len() == 0 {
        0
    } else if waves.last().len() > widest(waves.drop_last()) {
        waves.last().len()
    } else {
        widest(waves.drop_last())
    }
}


// ---------------------------------------------------------------- the operations

/// A symbol in the scope of a task, as it is worked with.
struct ClaimRow {
    symbol: Symbol,
    task: String,
}

impl DeepView for ClaimRow {
    type V = Claim;

    closed spec fn deep_view(&self) -> Claim {
        Claim { symbol: self.symbol.deep_view(), task: self.task@ }
    }
}

fn ids_of_tasks(ts: &Vec<TaskView>) -> (r: Vec<String>)
    ensures
        r.deep_view() == ids_of(ts.deep_view()),
{
    let id = |t: &TaskView| -> (s: String)
        ensures s.deep_view() == t.deep_view().task.id
    {
        t.task.id.clone()
    };
    each(ts, id, Ghost(|t: TaskViewV| t.task.id))
}

fn symbol_ids(ss: &Vec<Symbol>) -> (r: Vec<String>)
    ensures
        r.deep_view() == ss.deep_view().map_values(|s: SymbolV| s.id),
{
    let id = |s: &Symbol| -> (x: String)
        ensures x.deep_view() == s.deep_view().id
    {
        s.id.clone()
    };
    each(ss, id, Ghost(|s: SymbolV| s.id))
}

impl Store {
    fn scope_ids(&self, task: &str) -> (r: Vec<String>)
        ensures
            r.deep_view() == self@.scope_ids(task@),
    {
        let test = |l: &Link| -> (b: bool)
            ensures b == (l.deep_view().left == task@)
        {
            same(l.left.as_str(), task)
        };
        let right = |l: &Link| -> (s: String)
            ensures s.deep_view() == l.deep_view().right
        {
            l.right.clone()
        };
        let links = keep(&self.task_symbols, test, Ghost(|l: LinkV| l.left == task@));
        each(&links, right, Ghost(|l: LinkV| l.right))
    }

    /// The symbols a task is scoped to.
    pub fn task_scope(&self, task_id: &str) -> (r: Vec<Symbol>)
        ensures
            r.deep_view() == self@.task_scope(task_id@),
    {
        stable_sort(self.symbols_of(&self.scope_ids(task_id)))
    }

    /// Every task scoped to a symbol, whatever its state.
    pub fn tasks_for_symbol(&self, symbol_id: &str) -> (r: Vec<String>)
        ensures
            r.deep_view() == self@.task_symbols.filter(
                |l: LinkV| l.right == symbol_id@,
            ).map_values(|l: LinkV| l.left),
    {
        let test = |l: &Link| -> (b: bool)
            ensures b == (l.deep_view().right == symbol_id@)
        {
            same(l.right.as_str(), symbol_id)
        };
        let left = |l: &Link| -> (s: String)
            ensures s.deep_view() == l.deep_view().left
        {
            l.left.clone()
        };
        let links = keep(&self.task_symbols, test, Ghost(|l: LinkV| l.right == symbol_id@));
        each(&links, left, Ghost(|l: LinkV| l.left))
    }

    fn resolve_all(&self, queries: &Vec<String>) -> (r: Result<Vec<Symbol>, StoreError>)
        ensures
            seen(r) == self@.resolve_all(queries.deep_view()),
    {
        let ghost all = queries.deep_view();
        let mut out: Vec<Symbol> = no_rows();
        let mut i: usize = 0;
        while i < queries.len()
            invariant
                all == queries.deep_view(),
                i <= queries@.len(),
                self@.resolve_all(all.take(i as int)) == Ok::<Seq<SymbolV>, StoreErrorV>(
                    out.deep_view(),
                ),
            decreases queries@.len() - i,
        {
            proof {
                assert(all.take(i + 1).drop_last() =~= all.take(i as int));
                assert(all.take(i + 1).last() == queries@[i as int]@);
            }
            match self.resolve(queries[i].as_str()) {
                Ok(s) => {
                    append(&mut out, s);
                },
                Err(e) => {
                    proof {
                        lemma_resolve_stops(self@, all, i as int);
                    }
                    return Err(e);
                },
            }
            i += 1;
        }
        assert(all.take(i as int) =~= all);
        Ok(out)
    }

    /// Declare which symbols a task will touch.
    pub fn set_task_scope(&mut self, task_id: &str, symbols: &Vec<String>, now: i64) -> (r: Result<
        Vec<Symbol>,
        StoreError,
    >)
        ensures
            (final(self)@, seen(r)) == old(self)@.set_task_scope(task_id@, symbols.deep_view(), now),
            old(self)@.wf() ==> final(self)@.wf(),
    {
        let found = match self.resolve_all(symbols) {
            Ok(found) => found,
            Err(e) => {
                return Err(e);
            },
        };
        if self.task_at(task_id).is_none() {
            return Err(fail_about(ErrorKind::NoSuchTask, "no such task: ", task_id));
        }
        let handle = |s: &Symbol| -> (x: String)
            ensures x.deep_view() == s.deep_view().handle()
        {
            s.handle()
        };
        let handles = each(&found, handle, Ghost(|s: SymbolV| s.handle()));
        let ids = symbol_ids(&found);
        link_all(&mut self.task_symbols, task_id, &ids);
        let detail = Json::object().with("symbols", Json::strings(&handles));
        assert(detail.deep_view()->Obj_0 =~= seq![
            (
                "symbols"@,
                JsonV::Arr(found.deep_view().map_values(|s: SymbolV| JsonV::Str(s.handle()))),
            ),
        ]) by {
            assert(handles.deep_view().map_values(|s: Seq<char>| JsonV::Str(s))
                =~= found.deep_view().map_values(|s: SymbolV| JsonV::Str(s.handle())));
        }
        self.emit(now, "task.scoped", None, None, Some(task_id.to_owned()), detail);
        Ok(found)
    }

    // ------------------------------------------------------- dependency graph

    fn open_tasks(&self) -> (r: Vec<TaskView>)
        ensures
            r.deep_view() == self@.open_tasks(),
    {
        let open = |t: &TaskView| -> (b: bool)
            ensures b == (!(t.deep_view().task.state is Done) && !(t.deep_view().task.state is Failed))
        {
            t.task.state != TaskState::Done && t.task.state != TaskState::Failed
        };
        keep(
            &self.tasks(),
            open,
            Ghost(|t: TaskViewV| !(t.task.state is Done) && !(t.task.state is Failed)),
        )
    }

    fn claims(&self, tasks: &Vec<TaskView>) -> (r: Vec<ClaimRow>)
        ensures
            r.deep_view() == self@.claims(tasks.deep_view()),
    {
        let ghost all = tasks.deep_view();
        let mut out: Vec<ClaimRow> = no_rows();
        let mut i: usize = 0;
        while i < tasks.len()
            invariant
                all == tasks.deep_view(),
                i <= tasks@.len(),
                out.deep_view() == self@.claims(all.take(i as int)),
            decreases tasks@.len() - i,
        {
            let t = &tasks[i];
            proof {
                assert(all.take(i + 1).drop_last() =~= all.take(i as int));
                assert(all.take(i + 1).last() == t.deep_view());
            }
            let scope = self.task_scope(t.task.id.as_str());
            let claim = |s: &Symbol| -> (c: ClaimRow)
                ensures c.deep_view() == (Claim { symbol: s.deep_view(), task: t.task.id@ })
            {
                ClaimRow { symbol: s.clone(), task: t.task.id.clone() }
            };
            let mut more = each(
                &scope,
                claim,
                Ghost(|s: SymbolV| Claim { symbol: s, task: t.task.id@ }),
            );
            let ghost ov = out.deep_view();
            let ghost mv = more.deep_view();
            out.append(&mut more);
            assert(out.deep_view() =~= ov + mv);
            i += 1;
        }
        assert(all.take(i as int) =~= all);
        out
    }

    fn owner(&self, claims: &Vec<ClaimRow>, symbol: &str) -> (r: Option<String>)
        ensures
            r.deep_view() == self@.owner(claims.deep_view(), symbol@),
    {
        let ghost all = claims.deep_view();
        let ghost p = |c: Claim| c.symbol.id == symbol@;
        let mut i: usize = claims.len();
        assert(all.take(i as int) =~= all);
        while i > 0
            invariant
                all == claims.deep_view(),
                i <= claims@.len(),
                p == (|c: Claim| c.symbol.id == symbol@),
                last_where(all, p) == last_where(all.take(i as int), p),
            decreases i,
        {
            i -= 1;
            assert(all.take(i + 1).drop_last() =~= all.take(i as int));
            assert(all.take(i + 1).last() == claims@[i as int].deep_view());
            if same(claims[i].symbol.id.as_str(), symbol) {
                return Some(claims[i].task.clone());
            }
        }
        let around = |c: &ClaimRow| -> (b: bool)
            ensures b == (c.deep_view().symbol.id != symbol@ && self@.covers(c.deep_view().symbol.id, symbol@))
        {
            !same(c.symbol.id.as_str(), symbol) && self.covers(c.symbol.id.as_str(), symbol)
        };
        match find_row(
            claims,
            around,
            Ghost(|c: Claim| c.symbol.id != symbol@ && self@.covers(c.symbol.id, symbol@)),
        ) {
            Some(k) => Some(claims[k].task.clone()),
            None => None,
        }
    }

    fn asked_by(&self, claims: &Vec<ClaimRow>, c: &ClaimRow) -> (r: Vec<InferredDep>)
        ensures
            r.deep_view() == self@.asked_by(
                claims.deep_view(),
                c.deep_view(),
                self@.neighbors(c.deep_view().symbol.id).callees,
            ),
    {
        let out = self.neighbors(c.symbol.id.as_str()).callees;
        let ghost all = out.deep_view();
        let mut found: Vec<InferredDep> = no_rows();
        let mut i: usize = 0;
        while i < out.len()
            invariant
                all == out.deep_view(),
                i <= out@.len(),
                found.deep_view() == self@.asked_by(
                    claims.deep_view(),
                    c.deep_view(),
                    all.take(i as int),
                ),
            decreases out@.len() - i,
        {
            let n = &out[i];
            proof {
                assert(all.take(i + 1).drop_last() =~= all.take(i as int));
                assert(all.take(i + 1).last() == n.deep_view());
            }
            let kind_ok = match n.kind {
                EdgeKind::Calls | EdgeKind::Uses | EdgeKind::Imports | EdgeKind::Queries => true,
                _ => false,
            };
            if let Some(other) = self.owner(claims, n.symbol.id.as_str()) {
                if kind_ok && !same(other.as_str(), c.task.as_str()) {
                    append(
                        &mut found,
                        InferredDep {
                            task: c.task.clone(),
                            depends_on: other,
                            via: c.symbol.handle(),
                            edge: n.kind,
                        },
                    );
                }
            }
            i += 1;
        }
        assert(all.take(i as int) =~= all);
        found
    }

    fn wanted(&self) -> (r: Vec<InferredDep>)
        ensures
            r.deep_view() == self@.wanted(),
    {
        let claims = self.claims(&self.open_tasks());
        let ghost all = claims.deep_view();
        let mut found: Vec<InferredDep> = no_rows();
        let mut i: usize = 0;
        while i < claims.len()
            invariant
                all == claims.deep_view(),
                i <= claims@.len(),
                found.deep_view() == self@.asked(all, all.take(i as int)),
            decreases claims@.len() - i,
        {
            proof {
                assert(all.take(i + 1).drop_last() =~= all.take(i as int));
                assert(all.take(i + 1).last() == claims@[i as int].deep_view());
            }
            let mut more = self.asked_by(&claims, &claims[i]);
            let ghost fv = found.deep_view();
            let ghost mv = more.deep_view();
            found.append(&mut more);
            assert(found.deep_view() =~= fv + mv);
            i += 1;
        }
        assert(all.take(i as int) =~= all);
        let found = stable_sort(found);
        let ghost fv = found.deep_view();
        let mut out: Vec<InferredDep> = no_rows();
        let mut k: usize = 0;
        while k < found.len()
            invariant
                fv == found.deep_view(),
                k <= found@.len(),
                out.deep_view() == pairs_once(fv.take(k as int)),
            decreases found@.len() - k,
        {
            let d = &found[k];
            let n = out.len();
            proof {
                assert(fv.take(k + 1).drop_last() =~= fv.take(k as int));
                assert(fv.take(k + 1).last() == d.deep_view());
                assert(n == out.deep_view().len());
                if n > 0 {
                    assert(out.deep_view().last() == out@[n - 1].deep_view());
                }
            }
            let again = n > 0 && same(out[n - 1].task.as_str(), d.task.as_str()) && same(
                out[n - 1].depends_on.as_str(),
                d.depends_on.as_str(),
            );
            if !again {
                append(&mut out, d.clone());
            }
            k += 1;
        }
        assert(fv.take(k as int) =~= fv);
        out
    }

    /// Work out dependencies between scoped tasks from the code graph: whoever
    /// touches a caller waits for whoever touches the callee. Work that is over is
    /// left aside. An edge that would close a loop is reported but not created.
    pub fn infer_dependencies(&mut self, now: i64) -> (r: Vec<InferredDep>)
        ensures
            (final(self)@, r.deep_view()) == old(self)@.add_deps(old(self)@.wanted(), now),
            old(self)@.wf() ==> final(self)@.wf(),
    {
        let ghost s0 = self@;
        let wanted = self.wanted();
        let ghost all = wanted.deep_view();
        let mut found: Vec<InferredDep> = no_rows();
        let mut i: usize = 0;
        while i < wanted.len()
            invariant
                all == wanted.deep_view(),
                i <= wanted@.len(),
                (self@, found.deep_view()) == s0.add_deps(all.take(i as int), now),
                self@.leases == s0.leases,
                self@.requests == s0.requests,
                self@.tasks == s0.tasks,
            decreases wanted@.len() - i,
        {
            let d = &wanted[i];
            proof {
                assert(all.take(i + 1).drop_last() =~= all.take(i as int));
                assert(all.take(i + 1).last() == d.deep_view());
            }
            let known = has_link(&self.task_deps, d.task.as_str(), d.depends_on.as_str());
            if !known && !leads_to(&self.task_deps, d.depends_on.as_str(), d.task.as_str()) {
                link(&mut self.task_deps, d.task.as_str(), d.depends_on.as_str());
                let detail = Json::object().with("depends_on", Json::str(d.depends_on.as_str())).with(
                    "via",
                    Json::str(d.via.as_str()),
                ).with("edge", Json::str(d.edge.as_str()));
                assert(detail.deep_view()->Obj_0 =~= seq![
                    ("depends_on"@, JsonV::Str(d.depends_on@)),
                    ("via"@, JsonV::Str(d.via@)),
                    ("edge"@, JsonV::Str(d.edge.word())),
                ]);
                self.emit(
                    now,
                    "task.dependency_inferred",
                    None,
                    None,
                    Some(d.task.clone()),
                    detail,
                );
            }
            if !known {
                append(&mut found, d.clone());
            }
            i += 1;
        }
        assert(all.take(i as int) =~= all);
        found
    }

    /// Dependency cycles among the tasks that are not done. A task in one of these can
    /// never become ready.
    pub fn dependency_cycles(&self) -> (r: Vec<Vec<String>>)
        ensures
            r.deep_view() == self@.dependency_cycles(),
    {
        let open = |t: &TaskView| -> (b: bool)
            ensures b == !(t.deep_view().task.state is Done)
        {
            t.task.state != TaskState::Done
        };
        let unfinished = keep(&self.tasks(), open, Ghost(|t: TaskViewV| !(t.task.state is Done)));
        let binding = |l: &Link| -> (b: bool)
            ensures b == (self@.unmet(l.deep_view().left) && self@.unmet(l.deep_view().right))
        {
            self.is_unmet(l.left.as_str()) && self.is_unmet(l.right.as_str())
        };
        let deps = keep(
            &self.task_deps,
            binding,
            Ghost(|l: LinkV| self@.unmet(l.left) && self@.unmet(l.right)),
        );
        find_cycles(&deps, &ids_of_tasks(&unfinished))
    }

    fn is_unmet(&self, id: &str) -> (r: bool)
        ensures
            r == self@.unmet(id@),
    {
        match self.task_at(id) {
            Some(i) => self.tasks[i].state != TaskState::Done,
            None => false,
        }
    }

    // ---------------------------------------------------------------- planning

    fn cleared(&self, t: &TaskView, placed: &Vec<String>) -> (r: bool)
        ensures
            r == self@.cleared(t.deep_view(), placed.deep_view()),
    {
        let mut i: usize = 0;
        while i < t.task.deps.len()
            invariant
                i <= t.task.deps@.len(),
                forall|k: int|
                    0 <= k < i ==> placed.deep_view().contains(#[trigger] t.deep_view().task.deps[k])
                        || !self@.unmet(t.deep_view().task.deps[k]),
            decreases t.task.deps@.len() - i,
        {
            let d = &t.task.deps[i];
            assert(t.deep_view().task.deps[i as int] == d@);
            if !holds_text(placed, d.as_str()) && self.is_unmet(d.as_str()) {
                return false;
            }
            i += 1;
        }
        true
    }

    fn is_circular(&self, cycles: &Vec<Vec<String>>, id: &str) -> (r: bool)
        requires
            cycles.deep_view() == self@.dependency_cycles(),
        ensures
            r == self@.circular(id@),
    {
        let ghost cv = cycles.deep_view();
        let mut i: usize = 0;
        while i < cycles.len()
            invariant
                cv == cycles.deep_view(),
                cv == self@.dependency_cycles(),
                i <= cycles@.len(),
                forall|k: int| 0 <= k < i ==> !(#[trigger] self@.dependency_cycles()[k]).contains(id@),
            decreases cycles@.len() - i,
        {
            assert(cv[i as int] == cycles@[i as int].deep_view());
            if holds_text(&cycles[i], id) {
                assert(self@.dependency_cycles()[i as int].contains(id@));
                return true;
            }
            i += 1;
        }
        assert(cv.len() == cycles@.len());
        false
    }

    fn waves(&self, cycles: &Vec<Vec<String>>) -> (r: Vec<Vec<TaskView>>)
        requires
            cycles.deep_view() == self@.dependency_cycles(),
        ensures
            r.deep_view() == self@.waves(),
    {
        let waits = |t: &TaskView| -> (b: bool)
            ensures b == ((t.deep_view().task.state is Pending || t.deep_view().task.state is Blocked) && !self@.circular(t.deep_view().task.id))
        {
            (t.task.state == TaskState::Pending || t.task.state == TaskState::Blocked)
                && !self.is_circular(cycles, t.task.id.as_str())
        };
        let mut remaining = keep(
            &self.tasks(),
            waits,
            Ghost(
                |t: TaskViewV|
                    (t.task.state is Pending || t.task.state is Blocked) && !self@.circular(t.task.id),
            ),
        );
        let mut placed: Vec<String> = no_rows();
        let mut out: Vec<Vec<TaskView>> = no_rows();
        let ghost whole = self@.waves();
        let mut round: usize = 0;
        assert(Seq::<Seq<TaskViewV>>::empty() + whole =~= whole);
        while round < MAX_WAVES
            invariant
                round <= MAX_WAVES,
                whole == self@.waves(),
                whole == out.deep_view() + self@.levels(
                    remaining.deep_view(),
                    placed.deep_view(),
                    (MAX_WAVES - round) as nat,
                ),
            decreases MAX_WAVES - round,
        {
            let clear = |t: &TaskView| -> (b: bool)
                ensures b == self@.cleared(t.deep_view(), placed.deep_view())
            {
                self.cleared(t, &placed)
            };
            let now = keep(
                &remaining,
                clear,
                Ghost(|t: TaskViewV| self@.cleared(t, placed.deep_view())),
            );
            assert(now@.len() == now.deep_view().len());
            if now.len() == 0 {
                assert(out.deep_view() + Seq::<Seq<TaskViewV>>::empty() =~= out.deep_view());
                return out;
            }
            let mut ids = ids_of_tasks(&now);
            let ghost pv = placed.deep_view();
            let ghost iv = ids.deep_view();
            placed.append(&mut ids);
            assert(placed.deep_view() =~= pv + iv);
            let left = |t: &TaskView| -> (b: bool)
                ensures b == !placed.deep_view().contains(t.deep_view().task.id)
            {
                !holds_text(&placed, t.task.id.as_str())
            };
            let rest = keep(
                &remaining,
                left,
                Ghost(|t: TaskViewV| !placed.deep_view().contains(t.task.id)),
            );
            let ghost ov = out.deep_view();
            let ghost nv = now.deep_view();
            let ghost more = self@.levels(
                rest.deep_view(),
                placed.deep_view(),
                (MAX_WAVES - round - 1) as nat,
            );
            assert(ov + (seq![nv] + more) =~= ov.push(nv) + more);
            append(&mut out, now);
            remaining = rest;
            round += 1;
        }
        assert(out.deep_view() + Seq::<Seq<TaskViewV>>::empty() =~= out.deep_view());
        out
    }

    /// Attaches scope and current contention to a task.
    pub(crate) fn decorate(&self, t: &TaskView, now: i64) -> (r: ScheduledTask)
        requires
            self@.wf(),
            sane_time(now),
        ensures
            r.deep_view() == self@.decorate(t.deep_view(), now),
    {
        let scope = self.task_scope(t.task.id.as_str());
        let agent = match &t.task.assignee {
            Some(a) => a.clone(),
            None => "".to_owned(),
        };
        let ghost all = scope.deep_view();
        let mut contended_by: Option<Conflict> = None;
        let mut i: usize = 0;
        assert(all.skip(0) =~= all);
        while i < scope.len() && contended_by.is_none()
            invariant
                self@.wf(),
                sane_time(now),
                all == scope.deep_view(),
                i <= scope@.len(),
                match contended_by {
                    Some(c) => self@.contention(all, agent@, now) == Some(c.deep_view()),
                    None => self@.contention(all, agent@, now) == self@.contention(
                        all.skip(i as int),
                        agent@,
                        now,
                    ),
                },
            decreases
                    scope@.len() - i + if contended_by is None {
                        1int
                    } else {
                        0int
                    },
        {
            let cs = self.conflicts_for(scope[i].id.as_str(), agent.as_str(), now);
            proof {
                assert(cs@.len() == cs.deep_view().len());
                assert(all.skip(i as int)[0] == scope@[i as int].deep_view());
                assert(all.skip(i as int).drop_first() =~= all.skip(i + 1));
            }
            if cs.len() > 0 {
                assert(cs.deep_view()[0] == cs@[0].deep_view());
                contended_by = Some(cs[0].clone());
            } else {
                i += 1;
            }
        }
        assert(all.skip(all.len() as int) =~= Seq::empty());
        ScheduledTask { task: t.clone(), scope, contended_by }
    }

    fn decorated(&self, ts: &Vec<TaskView>, now: i64) -> (r: Vec<ScheduledTask>)
        requires
            self@.wf(),
            sane_time(now),
        ensures
            r.deep_view() == self@.decorated(ts.deep_view(), now),
    {
        let show = |t: &TaskView| -> (s: ScheduledTask)
            requires self@.wf(), sane_time(now)
            ensures s.deep_view() == self@.decorate(t.deep_view(), now)
        {
            self.decorate(t, now)
        };
        each(ts, show, Ghost(|t: TaskViewV| self@.decorate(t, now)))
    }

    fn chain_to(&self, waves: &Vec<Vec<TaskView>>, id: &str, level: usize) -> (r: Vec<String>)
        ensures
            r.deep_view() == self@.chain_to(waves.deep_view(), id@, level as nat),
        decreases level,
    {
        let mut out: Vec<String> = no_rows();
        assert(waves@.len() == waves.deep_view().len());
        if level == 0 || level >= waves.len() {
            append(&mut out, id.to_owned());
            assert(out.deep_view() =~= seq![id@]);
            return out;
        }
        let ids = ids_of_tasks(&waves[level - 1]);
        assert(waves.deep_view()[level - 1] == waves@[level - 1].deep_view());
        let deps = self.deps_of(id);
        let there = |d: &String| -> (b: bool)
            ensures b == ids.deep_view().contains(d@)
        {
            holds_text(&ids, d.as_str())
        };
        match find_row(
            &deps,
            there,
            Ghost(|d: Seq<char>| ids_of(waves.deep_view()[level - 1]).contains(d)),
        ) {
            Some(k) => {
                let mut out = self.chain_to(waves, deps[k].as_str(), level - 1);
                append(&mut out, id.to_owned());
                out
            },
            None => {
                append(&mut out, id.to_owned());
                assert(out.deep_view() =~= seq![id@]);
                out
            },
        }
    }

    fn show_waves(&self, waves: &Vec<Vec<TaskView>>, now: i64) -> (r: Vec<Wave>)
        requires
            self@.wf(),
            sane_time(now),
        ensures
            r.deep_view() == Seq::new(
                waves.deep_view().len(),
                |k: int|
                    WaveV {
                        level: k as usize,
                        tasks: sorted(
                            self@.decorated(waves.deep_view()[k], now),
                            rank::<ScheduledTask>(),
                        ),
                    },
            ),
    {
        let mut out: Vec<Wave> = no_rows();
        let ghost wv = waves.deep_view();
        let ghost f = |k: int|
            WaveV {
                level: k as usize,
                tasks: sorted(self@.decorated(wv[k], now), rank::<ScheduledTask>()),
            };
        let mut i: usize = 0;
        while i < waves.len()
            invariant
                self@.wf(),
                sane_time(now),
                wv == waves.deep_view(),
                f == (|k: int|
                    WaveV {
                        level: k as usize,
                        tasks: sorted(self@.decorated(wv[k], now), rank::<ScheduledTask>()),
                    }),
                i <= waves@.len(),
                out.deep_view() =~= Seq::new(i as nat, f),
            decreases waves@.len() - i,
        {
            assert(wv[i as int] == waves@[i as int].deep_view());
            let tasks = stable_sort(self.decorated(&waves[i], now));
            append(&mut out, Wave { level: i, tasks });
            i += 1;
        }
        out
    }

    /// The schedule: tasks grouped into waves that can run concurrently.
    pub fn plan(&self, now: i64) -> (r: Plan)
        requires
            self@.wf(),
            sane_time(now),
        ensures
            r.deep_view() == self@.plan(now),
    {
        let cycles = self.dependency_cycles();
        let waves = self.waves(&cycles);
        let shown = self.show_waves(&waves, now);
        let all = self.tasks();
        let runs = |t: &TaskView| -> (b: bool)
            ensures b == (t.deep_view().task.state is Running)
        {
            t.task.state == TaskState::Running
        };
        let reviewed = |t: &TaskView| -> (b: bool)
            ensures b == (t.deep_view().task.state is Review)
        {
            t.task.state == TaskState::Review
        };
        let running = self.decorated(
            &keep(&all, runs, Ghost(|t: TaskViewV| t.task.state is Running)),
            now,
        );
        let in_review = self.decorated(
            &keep(&all, reviewed, Ghost(|t: TaskViewV| t.task.state is Review)),
            now,
        );
        assert(shown@.len() == shown.deep_view().len());
        let startable_now = if shown.len() == 0 {
            0
        } else {
            assert(shown.deep_view()[0] == shown@[0].deep_view());
            let can = |t: &ScheduledTask| -> (b: bool)
                ensures b == t.deep_view().startable()
            {
                t.startable()
            };
            let some = keep(&shown[0].tasks, can, Ghost(|t: ScheduledTaskV| t.startable()));
            assert(some@.len() == some.deep_view().len());
            some.len()
        };
        let ghost wv = waves.deep_view();
        let mut max_parallel: usize = 0;
        let mut i: usize = 0;
        while i < waves.len()
            invariant
                wv == waves.deep_view(),
                i <= waves@.len(),
                max_parallel == widest(wv.take(i as int)),
            decreases waves@.len() - i,
        {
            proof {
                assert(wv.take(i + 1).drop_last() =~= wv.take(i as int));
                assert(wv.take(i + 1).last() == waves@[i as int].deep_view());
                assert(waves@[i as int]@.len() == waves@[i as int].deep_view().len());
            }
            if waves[i].len() > max_parallel {
                max_parallel = waves[i].len();
            }
            i += 1;
        }
        assert(wv.take(i as int) =~= wv);
        let n = waves.len();
        let critical_path = if n == 0 {
            no_rows()
        } else {
            proof {
                lemma_levels_filled(
                    self@,
                    self@.waiting(),
                    Seq::empty(),
                    MAX_WAVES as nat,
                    n - 1,
                );
                assert(wv.last() == waves@[n - 1].deep_view());
                assert(waves@[n - 1]@.len() == waves@[n - 1].deep_view().len());
                assert(waves@[n - 1].deep_view()[0] == waves@[n - 1]@[0].deep_view());
            }
            self.chain_to(&waves, waves[n - 1][0].task.id.as_str(), n - 1)
        };
        Plan { waves: shown, running, in_review, cycles, startable_now, max_parallel, critical_path }
    }

    // ------------------------------------------------------------- handing out

    /// The goal that a task serves.
    pub fn task_goal(&self, task_id: &str) -> (r: Option<String>)
        ensures
            r.deep_view() == self@.task_goal(task_id@),
    {
        let test = |l: &Link| -> (b: bool)
            ensures b == (l.deep_view().left == task_id@)
        {
            same(l.left.as_str(), task_id)
        };
        match find_row(&self.task_goals, test, Ghost(|l: LinkV| l.left == task_id@)) {
            Some(i) => Some(self.task_goals[i].right.clone()),
            None => None,
        }
    }

    fn offers(&self, capability: Option<Capability>, goal: &Option<String>, now: i64) -> (r: Vec<String>)
        requires
            self@.wf(),
            sane_time(now),
        ensures
            r.deep_view() == self@.offers(capability, goal.deep_view(), now),
    {
        let plan = self.plan(now);
        assert(plan.waves@.len() == plan.waves.deep_view().len());
        if plan.waves.len() == 0 {
            return no_rows();
        }
        assert(plan.waves.deep_view()[0] == plan.waves@[0].deep_view());
        let fits = |t: &ScheduledTask| -> (b: bool)
            ensures b == self@.offered(t.deep_view(), capability, goal.deep_view())
        {
            let able = match (t.task.task.required_capability, capability) {
                (None, _) => true,
                (Some(a), Some(b)) => a == b,
                (Some(_), None) => false,
            };
            let in_goal = match goal {
                Some(g) => same_opt(&self.task_goal(t.task.task.id.as_str()), &Some(g.clone())),
                None => true,
            };
            t.startable() && able && in_goal
        };
        let id = |t: &ScheduledTask| -> (s: String)
            ensures s.deep_view() == t.deep_view().task.task.id
        {
            t.task.task.id.clone()
        };
        let some = keep(
            &plan.waves[0].tasks,
            fits,
            Ghost(|t: ScheduledTaskV| self@.offered(t, capability, goal.deep_view())),
        );
        each(&some, id, Ghost(|t: ScheduledTaskV| t.task.task.id))
    }

    fn start(&mut self, id: &str, agent: &str, scope: usize, now: i64)
        requires
            scope <= i64::MAX,
        ensures
            final(self)@ == old(self)@.start(id@, agent@, scope as nat, now),
    {
        let ghost s0 = self@;
        self.claim_row(id, agent, now);
        let work = |a: &crate::model::Agent| -> (b: crate::model::Agent)
            ensures b.deep_view() == (if a.deep_view().name == agent@ {
                AgentV { status: "working"@, heartbeat_at: now, ..a.deep_view() }
            } else {
                a.deep_view()
            })
        {
            let mut b = a.clone();
            if same(a.name.as_str(), agent) {
                b.status = "working".to_owned();
                b.heartbeat_at = now;
            }
            b
        };
        let ghost f = |a: AgentV| AgentV { status: "working"@, heartbeat_at: now, ..a };
        let ghost s1 = self@;
        crate::rows::change(
            &mut self.agents,
            work,
            Ghost(
                |a: AgentV|
                    if a.name == agent@ {
                        f(a)
                    } else {
                        a
                    },
            ),
        );
        assert(self@ == s1.with_agent(agent@, f));
        let detail = Json::object().with("scope", Json::Int(scope as i64));
        assert(detail.deep_view()->Obj_0 =~= seq![("scope"@, JsonV::Int(scope as int))]);
        self.emit(now, "task.started", Some(agent.to_owned()), None, Some(id.to_owned()), detail);
    }

    fn claim_row(&mut self, id: &str, agent: &str, now: i64)
        ensures
            final(self)@ == old(self)@.with_task(id@, |r: TaskRowV| claimed(r, agent@, now)),
    {
        let set = |r: &TaskRow| -> (b: TaskRow)
            ensures b.deep_view() == claimed(r.deep_view(), agent@, now)
        {
            let mut b = r.clone();
            b.state = TaskState::Running;
            b.assignee = Some(agent.to_owned());
            b.claimed_at = Some(now);
            b.updated_at = now;
            b
        };
        self.with_task(id, set, Ghost(|r: TaskRowV| claimed(r, agent@, now)));
    }

    /// Claims one task and leases its scope.
    fn claim_one(&mut self, id: &str, agent: &str, ttl_secs: i64, t: Tick) -> (r: Result<
        bool,
        StoreError,
    >)
        requires
            old(self)@.wf(),
            t.ok(),
            sane_ttl(ttl_secs),
            old(self).task_symbols@.len() <= i64::MAX,
        ensures
            match old(self)@.claim_one(id@, agent@, ttl_secs, t) {
                (s, Ok(b)) => r matches Ok(x) && x == b && (final(self)@ == if b {
                    s
                } else {
                    old(self)@
                }),
                (_, Err(e)) => r matches Err(x) && x.deep_view() == e && final(self)@ == old(self)@,
            },
            final(self)@.wf(),
    {
        let state = match self.task_at(id) {
            Some(i) => self.tasks[i].state,
            None => {
                return Err(fail_about(ErrorKind::NoSuchTask, "no such task: ", id));
            },
        };
        if state != TaskState::Pending {
            return Ok(false);
        }
        let scope = symbol_ids(&self.task_scope(id));
        proof {
            lemma_scope_small(self@, id@);
            assert(scope@.len() == scope.deep_view().len());
        }
        let mut opts = AcquireOptions::default();
        opts.task = Some(id.to_owned());
        opts.ttl_secs = ttl_secs;
        opts.note = Some("leased by the scheduler with the task".to_owned());
        assert(opts.deep_view() == claim_options(id@, ttl_secs));
        match self.settle_scope(&scope, agent, &opts, t) {
            Err(e) => Err(e),
            Ok(cs) => {
                assert(cs@.len() == cs.deep_view().len());
                if cs.len() > 0 {
                    Ok(false)
                } else {
                    self.start(id, agent, scope.len(), t.now);
                    Ok(true)
                }
            },
        }
    }

    /// Claim the best task an agent can safely start right now. A task whose scope
    /// is held by somebody else is skipped. A claimed task's scope is leased in the
    /// same step.
    pub fn claim_next(&mut self, agent: &str, ttl_secs: i64, t: Tick) -> (r: Result<
        Option<ScheduledTask>,
        StoreError,
    >)
        requires
            old(self)@.wf(),
            t.ok(),
            sane_ttl(ttl_secs),
            old(self).task_symbols@.len() <= i64::MAX,
        ensures
            (final(self)@, seen(r)) == old(self)@.claim_next_in(agent@, ttl_secs, None, t),
            final(self)@.wf(),
    {
        self.claim_next_in(agent, ttl_secs, &None, t)
    }

    fn claim_first(&mut self, ids: &Vec<String>, agent: &str, ttl_secs: i64, t: Tick) -> (r: Result<
        Option<String>,
        StoreError,
    >)
        requires
            old(self)@.wf(),
            t.ok(),
            sane_ttl(ttl_secs),
            old(self).task_symbols@.len() <= i64::MAX,
        ensures
            (final(self)@, seen(r)) == old(self)@.claim_first(ids.deep_view(), agent@, ttl_secs, t),
            final(self)@.wf(),
    {
        let ghost s0 = self@;
        let ghost all = ids.deep_view();
        let mut i: usize = 0;
        assert(all.skip(0) =~= all);
        while i < ids.len()
            invariant
                self@ == s0,
                s0 == old(self)@,
                s0.wf(),
                t.ok(),
                sane_ttl(ttl_secs),
                self.task_symbols@.len() <= i64::MAX,
                all == ids.deep_view(),
                i <= ids@.len(),
                s0.claim_first(all, agent@, ttl_secs, t) == s0.claim_first(
                    all.skip(i as int),
                    agent@,
                    ttl_secs,
                    t,
                ),
            decreases ids@.len() - i,
        {
            proof {
                assert(all.skip(i as int)[0] == ids@[i as int]@);
                assert(all.skip(i as int).drop_first() =~= all.skip(i + 1));
                assert(self.task_symbols@.len() == self@.task_symbols.len());
            }
            match self.claim_one(ids[i].as_str(), agent, ttl_secs, t) {
                Err(e) => {
                    return Err(e);
                },
                Ok(true) => {
                    return Ok(Some(ids[i].clone()));
                },
                Ok(false) => {},
            }
            assert(self.task_symbols@.len() == self@.task_symbols.len());
            i += 1;
        }
        assert(all.skip(i as int) =~= Seq::empty());
        Ok(None)
    }

    /// Claim the best task an agent can safely start, of one goal or of any.
    pub fn claim_next_in(&mut self, agent: &str, ttl_secs: i64, goal_id: &Option<String>, t: Tick) -> (r:
        Result<Option<ScheduledTask>, StoreError>)
        requires
            old(self)@.wf(),
            t.ok(),
            sane_ttl(ttl_secs),
            old(self).task_symbols@.len() <= i64::MAX,
        ensures
            (final(self)@, seen(r)) == old(self)@.claim_next_in(
                agent@,
                ttl_secs,
                goal_id.deep_view(),
                t,
            ),
            final(self)@.wf(),
    {
        let caller = self.agent(agent);
        let (paused, capability) = match &caller {
            Some(a) => (a.paused, a.capability),
            None => (false, None),
        };
        if paused {
            return Ok(None);
        }
        let ids = self.offers(capability, goal_id, t.now);
        match self.claim_first(&ids, agent, ttl_secs, t) {
            Err(e) => Err(e),
            Ok(None) => Ok(None),
            Ok(Some(id)) => Ok(
                match self.task(id.as_str()) {
                    Some(v) => Some(self.decorate(&v, t.now)),
                    None => None,
                },
            ),
        }
    }

    /// Move a task to a different agent, taking its scope with it.
    pub fn reassign_task(&mut self, task_id: &str, to: &str, actor: &Option<String>, t: Tick) -> (r:
        Result<TaskView, StoreError>)
        requires
            old(self)@.wf(),
            t.ok(),
            old(self).task_symbols@.len() <= i64::MAX,
            old(self).leases@.len() <= i64::MAX,
        ensures
            (final(self)@, seen(r)) == old(self)@.assign_task_opts(
                task_id@,
                to@,
                actor.deep_view(),
                false,
                0,
                t,
            ),
            final(self)@.wf(),
    {
        self.assign_task_opts(task_id, to, actor, false, 0, t)
    }

    fn task_leases(&self, task: &str) -> (r: Vec<LeaseRow>)
        ensures
            r.deep_view() == self@.task_leases(task@),
    {
        let test = |l: &LeaseRow| -> (b: bool)
            ensures b == (l.deep_view().task == Some(task@) && l.deep_view().state is Active)
        {
            let mine = match &l.task {
                Some(x) => same(x.as_str(), task),
                None => false,
            };
            mine && l.state == LeaseState::Active
        };
        keep(
            &self.leases,
            test,
            Ghost(|l: LeaseRowV| l.task == Some(task@) && l.state is Active),
        )
    }

    fn hand_all(&mut self, rows: &Vec<LeaseRow>, to: &str, now: i64) -> (r: Option<StoreError>)
        requires
            old(self)@.wf(),
            sane_time(now),
        ensures
            match old(self)@.hand_all(rows.deep_view(), to@, now) {
                (s, None) => r is None && final(self)@ == s && s.wf(),
                (_, Some(e)) => r matches Some(x) && x.deep_view() == e,
            },
    {
        let ghost s0 = self@;
        let ghost all = rows.deep_view();
        let mut i: usize = 0;
        while i < rows.len()
            invariant
                self@.wf(),
                sane_time(now),
                all == rows.deep_view(),
                s0 == old(self)@,
                i <= rows@.len(),
                (self@, None::<StoreErrorV>) == s0.hand_all(all.take(i as int), to@, now),
            decreases rows@.len() - i,
        {
            let l = &rows[i];
            proof {
                assert(all.take(i + 1).drop_last() =~= all.take(i as int));
                assert(all.take(i + 1).last() == l.deep_view());
            }
            if !same(l.agent.as_str(), to) {
                if let Err(e) = self.transfer_lease(l.id.as_str(), l.agent.as_str(), to, now) {
                    proof {
                        lemma_hand_stops(s0, all, to@, now, i as int);
                    }
                    return Some(e);
                }
            }
            i += 1;
        }
        assert(all.take(i as int) =~= all);
        None
    }

    /// Move a task to `to`, whether or not it was ever claimed. Leases that were
    /// taken for it are handed over; the rest of its scope is leased, all or
    /// nothing. Refused where part of that is held by somebody else.
    pub fn assign_task_opts(
        &mut self,
        task_id: &str,
        to: &str,
        actor: &Option<String>,
        preempt: bool,
        priority: i64,
        t: Tick,
    ) -> (r: Result<TaskView, StoreError>)
        requires
            old(self)@.wf(),
            t.ok(),
            old(self).task_symbols@.len() <= i64::MAX,
            old(self).leases@.len() <= i64::MAX,
        ensures
            (final(self)@, seen(r)) == old(self)@.assign_task_opts(
                task_id@,
                to@,
                actor.deep_view(),
                preempt,
                priority,
                t,
            ),
            final(self)@.wf(),
    {
        let row = match self.task_at(task_id) {
            Some(i) => self.tasks[i].clone(),
            None => {
                return Err(fail_about(ErrorKind::NoSuchTask, "no such task: ", task_id));
            },
        };
        if self.agent(to).is_none() {
            return Err(fail_about(ErrorKind::NoSuchAgent, "no such agent: ", to));
        }
        if same_opt(&row.assignee, &Some(to.to_owned())) {
            return Ok(self.view_of(&row));
        }
        let held = self.task_leases(task_id);
        let on = |l: &LeaseRow| -> (s: String)
            ensures s.deep_view() == l.deep_view().symbol_id
        {
            l.symbol_id.clone()
        };
        let settled = each(&held, on, Ghost(|l: LeaseRowV| l.symbol_id));
        let free = |x: &String| -> (b: bool)
            ensures b == !settled.deep_view().contains(x@)
        {
            !holds_text(&settled, x.as_str())
        };
        let scope = symbol_ids(&self.task_scope(task_id));
        let rest = keep(&scope, free, Ghost(|x: Seq<char>| !settled.deep_view().contains(x)));
        proof {
            lemma_scope_small(self@, task_id@);
            lemma_filter_short(scope.deep_view(), |x: Seq<char>| !settled.deep_view().contains(x));
            lemma_filter_short(
                self@.leases,
                |l: LeaseRowV| l.task == Some(task_id@) && l.state is Active,
            );
            assert(rest@.len() == rest.deep_view().len());
            assert(held@.len() == held.deep_view().len());
        }
        let before = self.clone();
        if let Some(e) = self.hand_all(&held, to, t.now) {
            *self = before;
            return Err(e);
        }
        let mut opts = AcquireOptions::default();
        opts.task = Some(task_id.to_owned());
        opts.preempt = preempt;
        opts.priority = priority;
        opts.note = Some("leased on reassignment".to_owned());
        assert(opts.deep_view() == assign_options(task_id@, preempt, priority));
        match self.settle_scope(&rest, to, &opts, t) {
            Err(e) => {
                *self = before;
                return Err(e);
            },
            Ok(cs) => {
                assert(cs@.len() == cs.deep_view().len());
                if cs.len() > 0 {
                    *self = before;
                    let a = cat3("cannot assign ", task_id, " to ");
                    let b = cat3(a.as_str(), to, ": ");
                    let n = decimal_of(cs.len() as u64);
                    return Err(
                        fail(
                            ErrorKind::ScopeHeld,
                            cat3(
                                b.as_str(),
                                n.as_str(),
                                " of its symbols are held by someone else",
                            ),
                        ),
                    );
                }
            },
        }
        self.claim_row(task_id, to, t.now);
        let detail = Json::object().with("from", Json::opt(&row.assignee)).with(
            "to",
            Json::str(to),
        ).with("leases_moved", Json::Int(held.len() as i64)).with(
            "leases_acquired",
            Json::Int(rest.len() as i64),
        );
        assert(detail.deep_view()->Obj_0 =~= seq![
            ("from"@, opt_text(row.deep_view().assignee)),
            ("to"@, JsonV::Str(to@)),
            ("leases_moved"@, JsonV::Int(held@.len() as int)),
            ("leases_acquired"@, JsonV::Int(rest@.len() as int)),
        ]);
        self.emit(
            t.now,
            "task.reassigned",
            actor.clone(),
            None,
            Some(task_id.to_owned()),
            detail,
        );
        let mut moved = row;
        moved.state = TaskState::Running;
        moved.assignee = Some(to.to_owned());
        moved.claimed_at = Some(t.now);
        moved.updated_at = t.now;
        Ok(self.view_of(&moved))
    }

    /// Change a task's priority.
    pub fn set_task_priority(&mut self, task_id: &str, priority: i64, now: i64) -> (r: Result<
        TaskView,
        StoreError,
    >)
        ensures
            (final(self)@, seen(r)) == old(self)@.set_task_priority(task_id@, priority, now),
            old(self)@.wf() ==> final(self)@.wf(),
    {
        let row = match self.task_at(task_id) {
            Some(i) => self.tasks[i].clone(),
            None => {
                return Err(fail_about(ErrorKind::NoSuchTask, "no such task: ", task_id));
            },
        };
        let set = |r: &TaskRow| -> (b: TaskRow)
            ensures b.deep_view() == (TaskRowV { priority, updated_at: now, ..r.deep_view() })
        {
            let mut b = r.clone();
            b.priority = priority;
            b.updated_at = now;
            b
        };
        self.with_task(
            task_id,
            set,
            Ghost(|r: TaskRowV| TaskRowV { priority, updated_at: now, ..r }),
        );
        let detail = Json::object().with("priority", Json::Int(priority));
        assert(detail.deep_view()->Obj_0 =~= seq![("priority"@, JsonV::Int(priority as int))]);
        self.emit(now, "task.reprioritised", None, None, Some(task_id.to_owned()), detail);
        let mut moved = row;
        moved.priority = priority;
        moved.updated_at = now;
        Ok(self.view_of(&moved))
    }

    /// Declare or clear the capability a task requires. Claiming enforces it;
    /// assigning does not.
    pub fn set_task_required_capability(
        &mut self,
        task_id: &str,
        capability: Option<Capability>,
        now: i64,
    ) -> (r: Result<TaskView, StoreError>)
        ensures
            (final(self)@, seen(r)) == old(self)@.set_task_required_capability(
                task_id@,
                capability,
                now,
            ),
            old(self)@.wf() ==> final(self)@.wf(),
    {
        let row = match self.task_at(task_id) {
            Some(i) => self.tasks[i].clone(),
            None => {
                return Err(fail_about(ErrorKind::NoSuchTask, "no such task: ", task_id));
            },
        };
        let set = |r: &TaskRow| -> (b: TaskRow)
            ensures b.deep_view() == (TaskRowV { required_capability: capability, updated_at: now, ..r.deep_view() })
        {
            let mut b = r.clone();
            b.required_capability = capability;
            b.updated_at = now;
            b
        };
        self.with_task(
            task_id,
            set,
            Ghost(
                |r: TaskRowV| TaskRowV { required_capability: capability, updated_at: now, ..r },
            ),
        );
        let mut moved = row;
        moved.required_capability = capability;
        moved.updated_at = now;
        Ok(self.view_of(&moved))
    }

    fn is_orphaned(&self, r: &TaskRow, cutoff: i64) -> (b: bool)
        ensures
            b == self@.orphaned(r.deep_view(), cutoff as int),
    {
        if r.state != TaskState::Running {
            return false;
        }
        match &r.assignee {
            Some(a) => match self.agent(a.as_str()) {
                Some(x) => x.heartbeat_at < cutoff,
                None => true,
            },
            None => false,
        }
    }

    fn give_back(&mut self, r: &TaskRow, now: i64)
        requires
            old(self)@.wf(),
            sane_time(now),
            old(self).leases@.len() <= i64::MAX,
        ensures
            final(self)@ == old(self)@.give_back(r.deep_view(), now),
            final(self)@.wf(),
            final(self)@.leases.len() == old(self)@.leases.len(),
    {
        let set = |x: &TaskRow| -> (b: TaskRow)
            ensures b.deep_view() == returned(x.deep_view(), now)
        {
            let mut b = x.clone();
            b.state = TaskState::Pending;
            b.assignee = None;
            b.claimed_at = None;
            b.updated_at = now;
            b
        };
        self.with_task(r.id.as_str(), set, Ghost(|x: TaskRowV| returned(x, now)));
        let ghost s1 = self@;
        proof {
            lemma_filter_short(
                s1.leases,
                |l: LeaseRowV| l.task == Some(r.id@) && l.state is Active,
            );
            lemma_finish_each_keeps(
                s1,
                s1.task_leases(r.id@),
                LeaseState::Released,
                "task finished"@,
                now,
            );
        }
        let freed = self.release_task_leases(r.id.as_str(), now);
        let detail = Json::object().with("reason", Json::str("assignee went offline")).with(
            "leases_released",
            Json::Int(freed as i64),
        );
        assert(detail.deep_view()->Obj_0 =~= seq![
            ("reason"@, JsonV::Str("assignee went offline"@)),
            ("leases_released"@, JsonV::Int(s1.task_leases(r.id@).len() as int)),
        ]);
        self.emit(
            now,
            "task.reassigned",
            r.assignee.clone(),
            None,
            Some(r.id.clone()),
            detail,
        );
    }

    /// Return work abandoned by agents that were not seen for `online_ms`
    /// milliseconds. Nothing has to notice the crash for the work to become
    /// available again.
    pub fn reassign_orphans(&mut self, now: i64, online_ms: i64) -> (r: Vec<String>)
        requires
            old(self)@.wf(),
            sane_time(now),
            sane_time(online_ms),
            old(self).leases@.len() <= i64::MAX,
        ensures
            final(self)@ == old(self)@.give_back_all(old(self)@.orphans(now - online_ms), now),
            final(self)@.wf(),
            r.deep_view() == old(self)@.orphans(now - online_ms).map_values(|x: TaskRowV| x.id),
    {
        let ghost s0 = self@;
        let cutoff = now - online_ms;
        let gone = |x: &TaskRow| -> (b: bool)
            ensures b == self@.orphaned(x.deep_view(), cutoff as int)
        {
            self.is_orphaned(x, cutoff)
        };
        let rows = keep(
            &self.tasks,
            gone,
            Ghost(|x: TaskRowV| self@.orphaned(x, cutoff as int)),
        );
        let id = |x: &TaskRow| -> (s: String)
            ensures s.deep_view() == x.deep_view().id
        {
            x.id.clone()
        };
        let ids = each(&rows, id, Ghost(|x: TaskRowV| x.id));
        let ghost all = rows.deep_view();
        assert(self.leases@.len() == self@.leases.len());
        let mut i: usize = 0;
        while i < rows.len()
            invariant
                self@.wf(),
                sane_time(now),
                self@.leases.len() <= i64::MAX,
                all == rows.deep_view(),
                i <= rows@.len(),
                self@ == s0.give_back_all(all.take(i as int), now),
            decreases rows@.len() - i,
        {
            proof {
                assert(all.take(i + 1).drop_last() =~= all.take(i as int));
                assert(all.take(i + 1).last() == rows@[i as int].deep_view());
                assert(self.leases@.len() == self@.leases.len());
            }
            self.give_back(&rows[i], now);
            i += 1;
        }
        assert(all.take(i as int) =~= all);
        ids
    }
}

// ------------------------------------------------------------------- small facts

proof fn lemma_resolve_stops(s: StoreV, queries: Seq<Seq<char>>, n: int)
    requires
        0 <= n < queries.len(),
        s.resolve_all(queries.take(n + 1)) is Err,
    ensures
        s.resolve_all(queries) == s.resolve_all(queries.take(n + 1)),
    decreases queries.len(),
{
    if queries.len() == n + 1 {
        assert(queries.take(n + 1) =~= queries);
    } else {
        assert(queries.drop_last().take(n + 1) =~= queries.take(n + 1));
        lemma_resolve_stops(s, queries.drop_last(), n);
    }
}

proof fn lemma_hand_stops(s: StoreV, rows: Seq<LeaseRowV>, to: Seq<char>, now: i64, n: int)
    requires
        0 <= n < rows.len(),
        s.hand_all(rows.take(n + 1), to, now).1 is Some,
    ensures
        s.hand_all(rows, to, now).1 == s.hand_all(rows.take(n + 1), to, now).1,
    decreases rows.len(),
{
    if rows.len() == n + 1 {
        assert(rows.take(n + 1) =~= rows);
    } else {
        assert(rows.drop_last().take(n + 1) =~= rows.take(n + 1));
        lemma_hand_stops(s, rows.drop_last(), to, now, n);
    }
}

pub(crate) proof fn lemma_filter_short<T>(s: Seq<T>, p: spec_fn(T) -> bool)
    ensures
        s.filter(p).len() <= s.len(),
    decreases s.len(),
{
    reveal(Seq::filter);
    if s.len() > 0 {
        lemma_filter_short(s.drop_last(), p);
    }
}

proof fn lemma_symbols_short(s: StoreV, ids: Seq<Seq<char>>)
    ensures
        s.symbols_of(ids).len() <= ids.len(),
    decreases ids.len(),
{
    if ids.len() > 0 {
        lemma_symbols_short(s, ids.drop_last());
    }
}

proof fn lemma_scope_small(s: StoreV, task: Seq<char>)
    ensures
        s.task_scope(task).len() <= s.task_symbols.len(),
{
    lemma_filter_short(s.task_symbols, |l: LinkV| l.left == task);
    lemma_symbols_short(s, s.scope_ids(task));
    crate::order::law_sorted_keeps(s.symbols_of(s.scope_ids(task)), rank::<Symbol>());
}

/// No wave is empty.
pub(crate) proof fn lemma_levels_filled(
    s: StoreV,
    remaining: Seq<TaskViewV>,
    placed: Seq<Seq<char>>,
    rounds: nat,
    k: int,
)
    requires
        0 <= k < s.levels(remaining, placed, rounds).len(),
    ensures
        s.levels(remaining, placed, rounds)[k].len() > 0,
    decreases rounds,
{
    let now = remaining.filter(|t: TaskViewV| s.cleared(t, placed));
    let more = placed + ids_of(now);
    if k > 0 {
        lemma_levels_filled(
            s,
            remaining.filter(|t: TaskViewV| !more.contains(t.task.id)),
            more,
            (rounds - 1) as nat,
            k - 1,
        );
    }
}

} // verus!
