//! The shared state of a workspace.
//!
//! A [`Store`] holds every table as a list of rows. Operations on it are given
//! twice: as spec functions from state to state, and as methods proved to follow
//! them. An operation that fails leaves the state as it was.

use vstd::prelude::*;
use vstd::string::*;

use crate::ids::{unique_id, unique_id_of};
use crate::json::{Json, JsonV};
use crate::model::{
    Agent, AgentV, Capability, Edge, EdgeV, Event, EventV, Goal, GoalV, LeaseState, Repo, RepoV,
    RequestState, Symbol, SymbolV, TaskState,
};
use crate::rows::each;
use crate::text::{cat, same};

verus! {

broadcast use vstd::string::group_string_axioms;

/// Times lie within this many milliseconds of the epoch.
pub const TIME_LIMIT: i64 = 1152921504606846976;

/// Lifetimes and deadlines are at most this many seconds.
pub const TTL_LIMIT: i64 = 1125899906842624;

/// Can the clock show this time?
pub open spec fn sane_time(t: i64) -> bool {
    -TIME_LIMIT <= t <= TIME_LIMIT
}

/// Can a point in time that was computed be this one?
pub open spec fn sane_end(t: i64) -> bool {
    -2 * TIME_LIMIT <= t <= 2 * TIME_LIMIT
}

/// Can a lifetime be this long?
pub open spec fn sane_ttl(t: i64) -> bool {
    -TTL_LIMIT <= t <= TTL_LIMIT
}

/// When and where an operation takes place: what its ids are made from.
#[derive(Debug, Clone, Copy)]
pub struct Tick {
    /// Milliseconds since the epoch.
    pub now: i64,
    /// The same clock in nanoseconds.
    pub nanos: u64,
    /// The number of the process.
    pub pid: u32,
}

impl Tick {
    pub open spec fn ok(self) -> bool {
        sane_time(self.now)
    }
}

/// A lease as it is kept. Its symbol is looked up when it is shown.
#[derive(Debug)]
pub struct LeaseRow {
    pub id: String,
    pub symbol_id: String,
    pub agent: String,
    pub task: Option<String>,
    pub priority: i64,
    pub ttl_secs: i64,
    pub acquired_at: i64,
    pub heartbeat_at: i64,
    pub expires_at: i64,
    pub state: LeaseState,
    pub note: Option<String>,
    pub released_at: Option<i64>,
}

/// The contents of a [`LeaseRow`].
pub struct LeaseRowV {
    pub id: Seq<char>,
    pub symbol_id: Seq<char>,
    pub agent: Seq<char>,
    pub task: Option<Seq<char>>,
    pub priority: i64,
    pub ttl_secs: i64,
    pub acquired_at: i64,
    pub heartbeat_at: i64,
    pub expires_at: i64,
    pub state: LeaseState,
    pub note: Option<Seq<char>>,
    pub released_at: Option<i64>,
}

impl DeepView for LeaseRow {
    type V = LeaseRowV;

    open spec fn deep_view(&self) -> LeaseRowV {
        LeaseRowV {
            id: self.id@,
            symbol_id: self.symbol_id@,
            agent: self.agent@,
            task: self.task.deep_view(),
            priority: self.priority,
            ttl_secs: self.ttl_secs,
            acquired_at: self.acquired_at,
            heartbeat_at: self.heartbeat_at,
            expires_at: self.expires_at,
            state: self.state,
            note: self.note.deep_view(),
            released_at: self.released_at,
        }
    }
}

impl Clone for LeaseRow {
    fn clone(&self) -> (r: Self)
        ensures
            r.deep_view() == self.deep_view(),
    {
        let r = LeaseRow {
            id: self.id.clone(),
            symbol_id: self.symbol_id.clone(),
            agent: self.agent.clone(),
            task: self.task.clone(),
            priority: self.priority,
            ttl_secs: self.ttl_secs,
            acquired_at: self.acquired_at,
            heartbeat_at: self.heartbeat_at,
            expires_at: self.expires_at,
            state: self.state,
            note: self.note.clone(),
            released_at: self.released_at,
        };
        r
    }
}

/// How a place in a wait queue stands.
#[derive(Debug, Clone, Copy, PartialEq, Eq, Structural)]
pub enum QueueState {
    Waiting,
    Granted,
    Cancelled,
    /// The waiter stopped polling.
    Abandoned,
}

/// A place in a wait queue as it is kept.
#[derive(Debug)]
pub struct QueueRow {
    pub id: String,
    /// Arrival order.
    pub seq: i64,
    pub symbol_id: String,
    pub agent: String,
    pub task: Option<String>,
    pub priority: i64,
    pub ttl_secs: i64,
    pub requested_at: i64,
    pub polled_at: i64,
    pub state: QueueState,
    pub note: Option<String>,
}

/// The contents of a [`QueueRow`].
pub struct QueueRowV {
    pub id: Seq<char>,
    pub seq: i64,
    pub symbol_id: Seq<char>,
    pub agent: Seq<char>,
    pub task: Option<Seq<char>>,
    pub priority: i64,
    pub ttl_secs: i64,
    pub requested_at: i64,
    pub polled_at: i64,
    pub state: QueueState,
    pub note: Option<Seq<char>>,
}

impl DeepView for QueueRow {
    type V = QueueRowV;

    open spec fn deep_view(&self) -> QueueRowV {
        QueueRowV {
            id: self.id@,
            seq: self.seq,
            symbol_id: self.symbol_id@,
            agent: self.agent@,
            task: self.task.deep_view(),
            priority: self.priority,
            ttl_secs: self.ttl_secs,
            requested_at: self.requested_at,
            polled_at: self.polled_at,
            state: self.state,
            note: self.note.deep_view(),
        }
    }
}

impl Clone for QueueRow {
    fn clone(&self) -> (r: Self)
        ensures
            r.deep_view() == self.deep_view(),
    {
        let r = QueueRow {
            id: self.id.clone(),
            seq: self.seq,
            symbol_id: self.symbol_id.clone(),
            agent: self.agent.clone(),
            task: self.task.clone(),
            priority: self.priority,
            ttl_secs: self.ttl_secs,
            requested_at: self.requested_at,
            polled_at: self.polled_at,
            state: self.state,
            note: self.note.clone(),
        };
        r
    }
}

/// A request as it is kept. Its symbol is looked up when it is shown.
#[derive(Debug)]
pub struct RequestRow {
    pub id: String,
    /// Arrival order.
    pub seq: i64,
    pub kind: String,
    pub from: String,
    pub to: Option<String>,
    pub subject: String,
    pub body: Json,
    pub resource_symbol: Option<String>,
    pub resource_task: Option<String>,
    pub task: Option<String>,
    pub priority: i64,
    pub state: RequestState,
    pub created_at: i64,
    pub deadline_at: Option<i64>,
    pub resolved_at: Option<i64>,
    pub resolver: Option<String>,
    pub response: Option<Json>,
}

/// The contents of a [`RequestRow`].
pub struct RequestRowV {
    pub id: Seq<char>,
    pub seq: i64,
    pub kind: Seq<char>,
    pub from: Seq<char>,
    pub to: Option<Seq<char>>,
    pub subject: Seq<char>,
    pub body: JsonV,
    pub resource_symbol: Option<Seq<char>>,
    pub resource_task: Option<Seq<char>>,
    pub task: Option<Seq<char>>,
    pub priority: i64,
    pub state: RequestState,
    pub created_at: i64,
    pub deadline_at: Option<i64>,
    pub resolved_at: Option<i64>,
    pub resolver: Option<Seq<char>>,
    pub response: Option<JsonV>,
}

impl DeepView for RequestRow {
    type V = RequestRowV;

    open spec fn deep_view(&self) -> RequestRowV {
        RequestRowV {
            id: self.id@,
            seq: self.seq,
            kind: self.kind@,
            from: self.from@,
            to: self.to.deep_view(),
            subject: self.subject@,
            body: self.body.deep_view(),
            resource_symbol: self.resource_symbol.deep_view(),
            resource_task: self.resource_task.deep_view(),
            task: self.task.deep_view(),
            priority: self.priority,
            state: self.state,
            created_at: self.created_at,
            deadline_at: self.deadline_at,
            resolved_at: self.resolved_at,
            resolver: self.resolver.deep_view(),
            response: self.response.deep_view(),
        }
    }
}

impl Clone for RequestRow {
    fn clone(&self) -> (r: Self)
        ensures
            r.deep_view() == self.deep_view(),
    {
        let r = RequestRow {
            id: self.id.clone(),
            seq: self.seq,
            kind: self.kind.clone(),
            from: self.from.clone(),
            to: self.to.clone(),
            subject: self.subject.clone(),
            body: self.body.clone(),
            resource_symbol: self.resource_symbol.clone(),
            resource_task: self.resource_task.clone(),
            task: self.task.clone(),
            priority: self.priority,
            state: self.state,
            created_at: self.created_at,
            deadline_at: self.deadline_at,
            resolved_at: self.resolved_at,
            resolver: self.resolver.clone(),
            response: self.response.clone(),
        };
        r
    }
}

/// A progress report as it is kept.
#[derive(Debug)]
pub struct ProgressRow {
    pub id: i64,
    pub agent: String,
    pub task: Option<String>,
    pub symbol_id: Option<String>,
    pub percent: Option<i64>,
    pub eta_secs: Option<i64>,
    pub note: Option<String>,
    pub ts: i64,
}

/// The contents of a [`ProgressRow`].
pub struct ProgressRowV {
    pub id: i64,
    pub agent: Seq<char>,
    pub task: Option<Seq<char>>,
    pub symbol_id: Option<Seq<char>>,
    pub percent: Option<i64>,
    pub eta_secs: Option<i64>,
    pub note: Option<Seq<char>>,
    pub ts: i64,
}

impl DeepView for ProgressRow {
    type V = ProgressRowV;

    open spec fn deep_view(&self) -> ProgressRowV {
        ProgressRowV {
            id: self.id,
            agent: self.agent@,
            task: self.task.deep_view(),
            symbol_id: self.symbol_id.deep_view(),
            percent: self.percent,
            eta_secs: self.eta_secs,
            note: self.note.deep_view(),
            ts: self.ts,
        }
    }
}

impl Clone for ProgressRow {
    fn clone(&self) -> (r: Self)
        ensures
            r.deep_view() == self.deep_view(),
    {
        let r = ProgressRow {
            id: self.id,
            agent: self.agent.clone(),
            task: self.task.clone(),
            symbol_id: self.symbol_id.clone(),
            percent: self.percent,
            eta_secs: self.eta_secs,
            note: self.note.clone(),
            ts: self.ts,
        };
        r
    }
}

/// A task as it is kept. Its dependencies stand in a table of their own.
#[derive(Debug)]
pub struct TaskRow {
    pub id: String,
    pub title: String,
    pub state: TaskState,
    pub priority: i64,
    pub assignee: Option<String>,
    pub created_at: i64,
    pub updated_at: i64,
    pub claimed_at: Option<i64>,
    pub required_capability: Option<Capability>,
}

/// The contents of a [`TaskRow`].
pub struct TaskRowV {
    pub id: Seq<char>,
    pub title: Seq<char>,
    pub state: TaskState,
    pub priority: i64,
    pub assignee: Option<Seq<char>>,
    pub created_at: i64,
    pub updated_at: i64,
    pub claimed_at: Option<i64>,
    pub required_capability: Option<Capability>,
}

impl DeepView for TaskRow {
    type V = TaskRowV;

    open spec fn deep_view(&self) -> TaskRowV {
        TaskRowV {
            id: self.id@,
            title: self.title@,
            state: self.state,
            priority: self.priority,
            assignee: self.assignee.deep_view(),
            created_at: self.created_at,
            updated_at: self.updated_at,
            claimed_at: self.claimed_at,
            required_capability: self.required_capability,
        }
    }
}

impl Clone for TaskRow {
    fn clone(&self) -> (r: Self)
        ensures
            r.deep_view() == self.deep_view(),
    {
        let r = TaskRow {
            id: self.id.clone(),
            title: self.title.clone(),
            state: self.state,
            priority: self.priority,
            assignee: self.assignee.clone(),
            created_at: self.created_at,
            updated_at: self.updated_at,
            claimed_at: self.claimed_at,
            required_capability: self.required_capability,
        };
        r
    }
}

/// A pair of ids: task and dependency, task and symbol, task and goal.
#[derive(Debug)]
pub struct Link {
    pub left: String,
    pub right: String,
}

/// The contents of a [`Link`].
pub struct LinkV {
    pub left: Seq<char>,
    pub right: Seq<char>,
}

impl DeepView for Link {
    type V = LinkV;

    open spec fn deep_view(&self) -> LinkV {
        LinkV {
            left: self.left@,
            right: self.right@,
        }
    }
}

impl Clone for Link {
    fn clone(&self) -> (r: Self)
        ensures
            r.deep_view() == self.deep_view(),
    {
        let r = Link {
            left: self.left.clone(),
            right: self.right.clone(),
        };
        r
    }
}

/// The shared state of a workspace: one list of rows for each table, and the
/// number of ids made so far.
#[derive(Debug)]
pub struct Store {
    pub symbols: Vec<Symbol>,
    pub edges: Vec<Edge>,
    pub agents: Vec<Agent>,
    pub leases: Vec<LeaseRow>,
    pub queue: Vec<QueueRow>,
    pub requests: Vec<RequestRow>,
    pub progress: Vec<ProgressRow>,
    pub tasks: Vec<TaskRow>,
    pub task_deps: Vec<Link>,
    pub task_symbols: Vec<Link>,
    pub goals: Vec<Goal>,
    pub task_goals: Vec<Link>,
    pub repos: Vec<Repo>,
    pub events: Vec<Event>,
    pub counter: u64,
}

/// The contents of a [`Store`].
pub struct StoreV {
    pub symbols: Seq<SymbolV>,
    pub edges: Seq<EdgeV>,
    pub agents: Seq<AgentV>,
    pub leases: Seq<LeaseRowV>,
    pub queue: Seq<QueueRowV>,
    pub requests: Seq<RequestRowV>,
    pub progress: Seq<ProgressRowV>,
    pub tasks: Seq<TaskRowV>,
    pub task_deps: Seq<LinkV>,
    pub task_symbols: Seq<LinkV>,
    pub goals: Seq<GoalV>,
    pub task_goals: Seq<LinkV>,
    pub repos: Seq<RepoV>,
    pub events: Seq<EventV>,
    pub counter: u64,
}

impl View for Store {
    type V = StoreV;

    open spec fn view(&self) -> StoreV {
        StoreV {
            symbols: self.symbols.deep_view(),
            edges: self.edges.deep_view(),
            agents: self.agents.deep_view(),
            leases: self.leases.deep_view(),
            queue: self.queue.deep_view(),
            requests: self.requests.deep_view(),
            progress: self.progress.deep_view(),
            tasks: self.tasks.deep_view(),
            task_deps: self.task_deps.deep_view(),
            task_symbols: self.task_symbols.deep_view(),
            goals: self.goals.deep_view(),
            task_goals: self.task_goals.deep_view(),
            repos: self.repos.deep_view(),
            events: self.events.deep_view(),
            counter: self.counter,
        }
    }
}

impl Clone for Store {
    fn clone(&self) -> (r: Self)
        ensures
            r@ == self@,
    {
        let r = Store {
            symbols: self.symbols.clone(),
            edges: self.edges.clone(),
            agents: self.agents.clone(),
            leases: self.leases.clone(),
            queue: self.queue.clone(),
            requests: self.requests.clone(),
            progress: self.progress.clone(),
            tasks: self.tasks.clone(),
            task_deps: self.task_deps.clone(),
            task_symbols: self.task_symbols.clone(),
            goals: self.goals.clone(),
            task_goals: self.task_goals.clone(),
            repos: self.repos.clone(),
            events: self.events.clone(),
            counter: self.counter,
        };
        assert(r.symbols.deep_view() =~= self.symbols.deep_view());
        assert(r.edges.deep_view() =~= self.edges.deep_view());
        assert(r.agents.deep_view() =~= self.agents.deep_view());
        assert(r.leases.deep_view() =~= self.leases.deep_view());
        assert(r.queue.deep_view() =~= self.queue.deep_view());
        assert(r.requests.deep_view() =~= self.requests.deep_view());
        assert(r.progress.deep_view() =~= self.progress.deep_view());
        assert(r.tasks.deep_view() =~= self.tasks.deep_view());
        assert(r.task_deps.deep_view() =~= self.task_deps.deep_view());
        assert(r.task_symbols.deep_view() =~= self.task_symbols.deep_view());
        assert(r.goals.deep_view() =~= self.goals.deep_view());
        assert(r.task_goals.deep_view() =~= self.task_goals.deep_view());
        assert(r.repos.deep_view() =~= self.repos.deep_view());
        assert(r.events.deep_view() =~= self.events.deep_view());
        r
    }
}

// ------------------------------------------------------------------- failures

/// What kind of thing went wrong.
#[derive(Debug, Clone, Copy, PartialEq, Eq, Structural)]
pub enum ErrorKind {
    UnknownSymbol,
    AmbiguousSymbol,
    NoSuchLease,
    WrongOwner,
    LeaseOver,
    AlreadyHolds,
    NobodyHolds,
    NoSuchRequest,
    AlreadyAnswered,
    NotAddressee,
    OwnRequest,
    NotSender,
    ToSelf,
    NoSymbolNamed,
    NoLongerHolds,
    NoSuchTask,
    NoSuchAgent,
    NotAssignee,
    ScopeHeld,
    NoSuchGoal,
    AbsoluteRoot,
    NoSuchNode,
    NothingStartable,
    UnknownWord,
    NothingNamed,
    NoAgent,
    NotInReview,
    OwnWork,
    /// An id that was just made is taken.
    Duplicate,
}

/// Why an operation failed.
#[derive(Debug)]
pub struct StoreError {
    pub kind: ErrorKind,
    /// The reason in words.
    pub text: String,
}

/// The contents of a [`StoreError`].
pub struct StoreErrorV {
    pub kind: ErrorKind,
    pub text: Seq<char>,
}

impl DeepView for StoreError {
    type V = StoreErrorV;

    open spec fn deep_view(&self) -> StoreErrorV {
        StoreErrorV { kind: self.kind, text: self.text@ }
    }
}

/// The failure of a kind, with its reason.
pub open spec fn failure(kind: ErrorKind, text: Seq<char>) -> StoreErrorV {
    StoreErrorV { kind, text }
}

/// The same outcome, by its contents.
pub open spec fn seen<T: DeepView>(r: Result<T, StoreError>) -> Result<T::V, StoreErrorV> {
    match r {
        Ok(x) => Ok(x.deep_view()),
        Err(e) => Err(e.deep_view()),
    }
}

pub(crate) fn fail(kind: ErrorKind, text: String) -> (r: StoreError)
    ensures
        r.deep_view() == failure(kind, text@),
{
    StoreError { kind, text }
}

/// A failure about one thing: some words and its id.
pub(crate) fn fail_about(kind: ErrorKind, words: &str, id: &str) -> (r: StoreError)
    ensures
        r.deep_view() == failure(kind, words@ + id@),
{
    fail(kind, cat(words, id))
}

// ------------------------------------------------------------- lists of rows

/// The first item that satisfies `p`.
pub open spec fn first_where<T>(s: Seq<T>, p: spec_fn(T) -> bool) -> Option<T>
    decreases s.len(),
{
    if s.len() == 0 {
        None
    } else if p(s[0]) {
        Some(s[0])
    } else {
        first_where(s.drop_first(), p)
    }
}

/// What `first_where` finds is in the list and satisfies the condition; where it
/// finds nothing, nothing does.
pub proof fn law_first_where<T>(s: Seq<T>, p: spec_fn(T) -> bool)
    ensures
        match first_where(s, p) {
            Some(x) => p(x) && s.contains(x),
            None => forall|i: int| 0 <= i < s.len() ==> !p(#[trigger] s[i]),
        },
    decreases s.len(),
{
    if s.len() > 0 {
        law_first_where(s.drop_first(), p);
        if p(s[0]) {
            assert(s.contains(s[0]));
        } else {
            match first_where(s.drop_first(), p) {
                Some(x) => {
                    let k = choose|k: int| 0 <= k < s.drop_first().len() && s.drop_first()[k] == x;
                    assert(s[k + 1] == x);
                },
                None => {
                    assert forall|i: int| 0 <= i < s.len() implies !p(#[trigger] s[i]) by {
                        if i > 0 {
                            assert(s.drop_first()[i - 1] == s[i]);
                        }
                    }
                },
            }
        }
    }
}

/// Appends a row.
pub(crate) fn append<T: DeepView>(v: &mut Vec<T>, x: T)
    ensures
        final(v).deep_view() == old(v).deep_view().push(x.deep_view()),
{
    let ghost v0 = v.deep_view();
    let ghost xv = x.deep_view();
    v.push(x);
    assert(v.deep_view() =~= v0.push(xv));
}

/// Replaces a row.
pub(crate) fn put<T: DeepView>(v: &mut Vec<T>, i: usize, x: T)
    requires
        i < old(v)@.len(),
    ensures
        final(v).deep_view() == old(v).deep_view().update(i as int, x.deep_view()),
        final(v)@.len() == old(v)@.len(),
{
    let ghost v0 = v.deep_view();
    let ghost xv = x.deep_view();
    v.set(i, x);
    assert(v.deep_view() =~= v0.update(i as int, xv));
}

/// A list without rows.
pub(crate) fn no_rows<T: DeepView>() -> (r: Vec<T>)
    ensures
        r@.len() == 0,
        r.deep_view() == Seq::<T::V>::empty(),
{
    let r: Vec<T> = Vec::new();
    assert(r.deep_view() =~= Seq::empty());
    r
}

/// A list with one row more matches a filter with one row more.
pub proof fn law_filter_step<T>(s: Seq<T>, p: spec_fn(T) -> bool, i: int)
    requires
        0 <= i < s.len(),
    ensures
        s.take(i + 1).filter(p) == (if p(s[i]) {
            s.take(i).filter(p).push(s[i])
        } else {
            s.take(i).filter(p)
        }),
{
    assert(s.take(i + 1) =~= s.take(i).push(s[i]));
    s.take(i).lemma_filter_push(s[i], p);
}

// --------------------------------------------------------------------- basics

/// The number of the next event.
pub open spec fn next_event_id(events: Seq<EventV>) -> i64 {
    if events.len() == 0 {
        1
    } else if events.last().id < i64::MAX {
        (events.last().id + 1) as i64
    } else {
        i64::MAX
    }
}

/// Is the row within the limits of the clock?
pub open spec fn lease_ok(l: LeaseRowV) -> bool {
    sane_ttl(l.ttl_secs) && sane_time(l.acquired_at) && sane_end(l.expires_at)
}

/// Has every row an id of its own?
pub open spec fn distinct_ids(rows: Seq<LeaseRowV>) -> bool {
    forall|i: int, j: int|
        0 <= i < rows.len() && 0 <= j < rows.len() && i != j ==> (#[trigger] rows[i]).id != (
        #[trigger] rows[j]).id
}

/// Has every request an id of its own?
pub open spec fn request_ids_differ(rows: Seq<RequestRowV>) -> bool {
    forall|i: int, j: int|
        0 <= i < rows.len() && 0 <= j < rows.len() && i != j ==> (#[trigger] rows[i]).id != (
        #[trigger] rows[j]).id
}

/// Has every task an id of its own?
pub open spec fn task_ids_differ(rows: Seq<TaskRowV>) -> bool {
    forall|i: int, j: int|
        0 <= i < rows.len() && 0 <= j < rows.len() && i != j ==> (#[trigger] rows[i]).id != (
        #[trigger] rows[j]).id
}

/// Rows that keep their ids keep them apart.
pub(crate) proof fn lemma_ids_kept(a: Seq<LeaseRowV>, b: Seq<LeaseRowV>)
    requires
        distinct_ids(a),
        b.len() == a.len(),
        forall|i: int| 0 <= i < a.len() ==> (#[trigger] b[i]).id == a[i].id,
    ensures
        distinct_ids(b),
{
    assert forall|i: int, j: int| 0 <= i < b.len() && 0 <= j < b.len() && i != j implies (
    #[trigger] b[i]).id != (#[trigger] b[j]).id by {
        assert(a[i].id != a[j].id);
    }
}

/// Requests that keep their ids keep them apart.
pub(crate) proof fn lemma_request_ids_kept(a: Seq<RequestRowV>, b: Seq<RequestRowV>)
    requires
        request_ids_differ(a),
        b.len() == a.len(),
        forall|i: int| 0 <= i < a.len() ==> (#[trigger] b[i]).id == a[i].id,
    ensures
        request_ids_differ(b),
{
    assert forall|i: int, j: int| 0 <= i < b.len() && 0 <= j < b.len() && i != j implies (
    #[trigger] b[i]).id != (#[trigger] b[j]).id by {
        assert(a[i].id != a[j].id);
    }
}

impl StoreV {
    /// Are all times within limits, and have leases, requests and tasks ids of their
    /// own?
    pub open spec fn wf(self) -> bool {
        self.times_ok() && self.ids_differ() && request_ids_differ(self.requests) && task_ids_differ(
            self.tasks,
        )
    }

    /// Are all times within limits?
    pub open spec fn times_ok(self) -> bool {
        forall|i: int| 0 <= i < self.leases.len() ==> lease_ok(#[trigger] self.leases[i])
    }

    /// Has every lease an id of its own?
    pub open spec fn ids_differ(self) -> bool {
        distinct_ids(self.leases)
    }

    /// The state with one more event.
    pub open spec fn emit(
        self,
        now: i64,
        kind: Seq<char>,
        agent: Option<Seq<char>>,
        handle: Option<Seq<char>>,
        task: Option<Seq<char>>,
        detail: JsonV,
    ) -> StoreV {
        StoreV {
            events: self.events.push(
                EventV {
                    id: next_event_id(self.events),
                    ts: now,
                    kind,
                    agent,
                    symbol_handle: handle,
                    task,
                    detail,
                },
            ),
            ..self
        }
    }

    /// The id that is made next.
    pub open spec fn fresh(self, prefix: Seq<char>, t: Tick) -> Seq<char> {
        unique_id_of(prefix, t.nanos, self.counter, t.pid)
    }

    /// The state once an id was made.
    pub open spec fn counted(self) -> StoreV {
        StoreV { counter: self.counter.wrapping_add(1), ..self }
    }

    /// The symbol with this id.
    pub open spec fn symbol(self, id: Seq<char>) -> Option<SymbolV> {
        first_where(self.symbols, |s: SymbolV| s.id == id)
    }

    /// The agent with this name.
    pub open spec fn agent(self, name: Seq<char>) -> Option<AgentV> {
        first_where(self.agents, |a: AgentV| a.name == name)
    }

    /// The symbol and what contains it, inside out. No chain is longer than the
    /// table.
    pub open spec fn chain(self, id: Seq<char>) -> Seq<Seq<char>> {
        chain_in(self.symbols, id, self.symbols.len())
    }

    /// Does `outer` contain `inner`, or are they the same?
    pub open spec fn covers(self, outer: Seq<char>, inner: Seq<char>) -> bool {
        self.chain(inner).contains(outer)
    }

    /// Is one of the two inside the other, or are they the same?
    pub open spec fn related(self, a: Seq<char>, b: Seq<char>) -> bool {
        self.covers(a, b) || self.covers(b, a)
    }

    /// The ids of the symbols strictly inside a symbol.
    pub open spec fn inside(self, id: Seq<char>) -> Seq<Seq<char>> {
        self.symbols.filter(|s: SymbolV| s.id != id && self.covers(id, s.id)).map_values(
            |s: SymbolV| s.id,
        )
    }
}

/// The symbol `id` and what contains it, at most `fuel` of them.
pub open spec fn chain_in(symbols: Seq<SymbolV>, id: Seq<char>, fuel: nat) -> Seq<Seq<char>>
    decreases fuel,
{
    if fuel == 0 {
        Seq::empty()
    } else {
        match first_where(symbols, |s: SymbolV| s.id == id) {
            None => Seq::empty(),
            Some(s) => seq![id] + (match s.parent_id {
                Some(p) => chain_in(symbols, p, (fuel - 1) as nat),
                None => Seq::empty(),
            }),
        }
    }
}

/// Is no text there twice?
fn all_differ(texts: &Vec<String>) -> (r: bool)
    ensures
        r == texts.deep_view().no_duplicates(),
{
    let ghost all = texts.deep_view();
    let mut i: usize = 0;
    while i < texts.len()
        invariant
            all == texts.deep_view(),
            i <= texts@.len(),
            forall|j: int, k: int| 0 <= j < k < i ==> all[j] != all[k],
        decreases texts@.len() - i,
    {
        let mut k: usize = 0;
        while k < i
            invariant
                all == texts.deep_view(),
                k <= i < texts@.len(),
                forall|j: int| 0 <= j < k ==> all[j] != all[i as int],
            decreases i - k,
        {
            assert(all[k as int] == texts@[k as int]@ && all[i as int] == texts@[i as int]@);
            if same(texts[k].as_str(), texts[i].as_str()) {
                return false;
            }
            k += 1;
        }
        i += 1;
    }
    true
}

impl Store {
    /// A workspace without any rows.
    pub fn new() -> (r: Store)
        ensures
            r@.wf(),
            r@ == empty_store(),
    {
        Store {
            symbols: no_rows(),
            edges: no_rows(),
            agents: no_rows(),
            leases: no_rows(),
            queue: no_rows(),
            requests: no_rows(),
            progress: no_rows(),
            tasks: no_rows(),
            task_deps: no_rows(),
            task_symbols: no_rows(),
            goals: no_rows(),
            task_goals: no_rows(),
            repos: no_rows(),
            events: no_rows(),
            counter: 0,
        }
    }

    fn ids_apart(&self) -> (r: bool)
        ensures
            r == (self@.ids_differ() && request_ids_differ(self@.requests) && task_ids_differ(
                self@.tasks,
            )),
    {
        let of_lease = |l: &LeaseRow| -> (id: String)
            ensures id.deep_view() == l.deep_view().id
        {
            l.id.clone()
        };
        let of_request = |r: &RequestRow| -> (id: String)
            ensures id.deep_view() == r.deep_view().id
        {
            r.id.clone()
        };
        let of_task = |t: &TaskRow| -> (id: String)
            ensures id.deep_view() == t.deep_view().id
        {
            t.id.clone()
        };
        let leases = each(&self.leases, of_lease, Ghost(|l: LeaseRowV| l.id));
        let requests = each(&self.requests, of_request, Ghost(|r: RequestRowV| r.id));
        let tasks = each(&self.tasks, of_task, Ghost(|t: TaskRowV| t.id));
        proof {
            let a = leases.deep_view();
            let b = requests.deep_view();
            let c = tasks.deep_view();
            assert(a.no_duplicates() ==> self@.ids_differ()) by {
                assert forall|i: int, j: int|
                    0 <= i < a.len() && 0 <= j < a.len() && i != j && a.no_duplicates() implies (
                #[trigger] self@.leases[i]).id != (#[trigger] self@.leases[j]).id by {
                    assert(a[i] != a[j]);
                }
            }
            assert(b.no_duplicates() ==> request_ids_differ(self@.requests)) by {
                assert forall|i: int, j: int|
                    0 <= i < b.len() && 0 <= j < b.len() && i != j && b.no_duplicates() implies (
                #[trigger] self@.requests[i]).id != (#[trigger] self@.requests[j]).id by {
                    assert(b[i] != b[j]);
                }
            }
            assert(c.no_duplicates() ==> task_ids_differ(self@.tasks)) by {
                assert forall|i: int, j: int|
                    0 <= i < c.len() && 0 <= j < c.len() && i != j && c.no_duplicates() implies (
                #[trigger] self@.tasks[i]).id != (#[trigger] self@.tasks[j]).id by {
                    assert(c[i] != c[j]);
                }
            }
        }
        all_differ(&leases) && all_differ(&requests) && all_differ(&tasks)
    }

    /// Are all times within limits, and have leases, requests and tasks ids of their
    /// own?
    pub fn check(&self) -> (r: bool)
        ensures
            r == self@.wf(),
    {
        let mut i: usize = 0;
        while i < self.leases.len()
            invariant
                i <= self.leases@.len(),
                forall|k: int| 0 <= k < i ==> lease_ok(#[trigger] self@.leases[k]),
            decreases self.leases@.len() - i,
        {
            let l = &self.leases[i];
            assert(self@.leases[i as int] == l.deep_view());
            if !(-TTL_LIMIT <= l.ttl_secs && l.ttl_secs <= TTL_LIMIT && -TIME_LIMIT <= l.acquired_at
                && l.acquired_at <= TIME_LIMIT && -2 * TIME_LIMIT <= l.expires_at && l.expires_at
                <= 2 * TIME_LIMIT) {
                return false;
            }
            i += 1;
        }
        self.ids_apart()
    }

    /// Writes an event.
    pub(crate) fn emit(
        &mut self,
        now: i64,
        kind: &str,
        agent: Option<String>,
        handle: Option<String>,
        task: Option<String>,
        detail: Json,
    )
        ensures
            final(self)@ == old(self)@.emit(
                now,
                kind@,
                agent.deep_view(),
                handle.deep_view(),
                task.deep_view(),
                detail.deep_view(),
            ),
    {
        let n = self.events.len();
        let id: i64 = if n == 0 {
            1
        } else if self.events[n - 1].id < i64::MAX {
            self.events[n - 1].id + 1
        } else {
            i64::MAX
        };
        assert(n > 0 ==> self@.events.last() == self.events@[n - 1].deep_view());
        let e = Event {
            id,
            ts: now,
            kind: kind.to_owned(),
            agent,
            symbol_handle: handle,
            task,
            detail,
        };
        append(&mut self.events, e);
    }

    /// Makes an id.
    pub(crate) fn make_id(&mut self, prefix: &str, t: Tick) -> (r: String)
        ensures
            r@ == old(self)@.fresh(prefix@, t),
            final(self)@ == old(self)@.counted(),
    {
        let r = unique_id(prefix, t.nanos, self.counter, t.pid);
        self.counter = self.counter.wrapping_add(1);
        r
    }

    /// Where the symbol with this id stands.
    pub(crate) fn symbol_at(&self, id: &str) -> (r: Option<usize>)
        ensures
            match r {
                Some(i) => i < self.symbols@.len() && self@.symbol(id@) == Some(
                    self.symbols@[i as int].deep_view(),
                ),
                None => self@.symbol(id@) is None,
            },
    {
        let ghost all = self@.symbols;
        let ghost p = |s: SymbolV| s.id == id@;
        let mut i: usize = 0;
        assert(all.skip(0) =~= all);
        while i < self.symbols.len()
            invariant
                all == self@.symbols,
                i <= self.symbols@.len(),
                p == (|s: SymbolV| s.id == id@),
                first_where(all, p) == first_where(all.skip(i as int), p),
            decreases self.symbols@.len() - i,
        {
            assert(all.skip(i as int)[0] == self.symbols@[i as int].deep_view());
            assert(all.skip(i as int).drop_first() =~= all.skip(i + 1));
            if same(self.symbols[i].id.as_str(), id) {
                return Some(i);
            }
            i += 1;
        }
        None
    }

    /// The symbol with this id.
    pub fn symbol(&self, id: &str) -> (r: Option<Symbol>)
        ensures
            r.deep_view() == self@.symbol(id@),
    {
        match self.symbol_at(id) {
            Some(i) => Some(self.symbols[i].clone()),
            None => None,
        }
    }

    /// The agent with this name.
    pub fn agent(&self, name: &str) -> (r: Option<Agent>)
        ensures
            r.deep_view() == self@.agent(name@),
    {
        let ghost all = self@.agents;
        let ghost p = |a: AgentV| a.name == name@;
        let mut i: usize = 0;
        assert(all.skip(0) =~= all);
        while i < self.agents.len()
            invariant
                all == self@.agents,
                i <= self.agents@.len(),
                p == (|a: AgentV| a.name == name@),
                first_where(all, p) == first_where(all.skip(i as int), p),
            decreases self.agents@.len() - i,
        {
            assert(all.skip(i as int)[0] == self.agents@[i as int].deep_view());
            assert(all.skip(i as int).drop_first() =~= all.skip(i + 1));
            if same(self.agents[i].name.as_str(), name) {
                return Some(self.agents[i].clone());
            }
            i += 1;
        }
        None
    }

    /// The symbol and what contains it, inside out.
    pub(crate) fn chain(&self, id: &str) -> (r: Vec<String>)
        ensures
            r.deep_view() == self@.chain(id@),
    {
        let mut out: Vec<String> = no_rows();
        let mut cur = id.to_owned();
        let mut fuel: usize = self.symbols.len();
        assert(out.deep_view() + chain_in(self@.symbols, cur@, fuel as nat) =~= self@.chain(id@));
        while fuel > 0
            invariant
                out.deep_view() + chain_in(self@.symbols, cur@, fuel as nat) == self@.chain(id@),
            decreases fuel,
        {
            let ghost o0 = out.deep_view();
            let ghost c0 = cur@;
            match self.symbol_at(cur.as_str()) {
                None => {
                    assert(out.deep_view() =~= self@.chain(id@));
                    return out;
                },
                Some(i) => {
                    append(&mut out, cur);
                    match &self.symbols[i].parent_id {
                        Some(p) => {
                            cur = p.clone();
                            fuel -= 1;
                            assert(out.deep_view() + chain_in(self@.symbols, cur@, fuel as nat)
                                =~= o0 + (seq![c0] + chain_in(self@.symbols, cur@, fuel as nat)));
                        },
                        None => {
                            assert(out.deep_view() =~= o0 + (seq![c0] + Seq::<Seq<char>>::empty()));
                            return out;
                        },
                    }
                },
            }
        }
        assert(out.deep_view() =~= self@.chain(id@));
        out
    }

    /// Does `outer` contain `inner`, or are they the same?
    pub fn covers(&self, outer: &str, inner: &str) -> (r: bool)
        ensures
            r == self@.covers(outer@, inner@),
    {
        let c = self.chain(inner);
        crate::sql::holds_text(&c, outer)
    }

    /// The ids of the symbols strictly inside a symbol.
    pub(crate) fn inside(&self, id: &str) -> (r: Vec<String>)
        ensures
            r.deep_view() == self@.inside(id@),
    {
        let ghost all = self@.symbols;
        let ghost me = self@;
        let ghost p = |s: SymbolV| s.id != id@ && me.covers(id@, s.id);
        let ghost f = |s: SymbolV| s.id;
        let mut out: Vec<String> = no_rows();
        let mut i: usize = 0;
        assert(out.deep_view() =~= all.take(0).filter(p).map_values(f));
        while i < self.symbols.len()
            invariant
                all == self@.symbols,
                me == self@,
                i <= self.symbols@.len(),
                p == (|s: SymbolV| s.id != id@ && me.covers(id@, s.id)),
                f == (|s: SymbolV| s.id),
                out.deep_view() == all.take(i as int).filter(p).map_values(f),
            decreases self.symbols@.len() - i,
        {
            let s = &self.symbols[i];
            proof {
                assert(all[i as int] == s.deep_view());
                law_filter_step(all, p, i as int);
            }
            let ghost before = all.take(i as int).filter(p);
            if !same(s.id.as_str(), id) && self.covers(id, s.id.as_str()) {
                append(&mut out, s.id.clone());
                assert(before.push(all[i as int]).map_values(f) =~= before.map_values(f).push(
                    s.id@,
                ));
            }
            i += 1;
        }
        assert(all.take(i as int) =~= all);
        out
    }
}

/// A state without any rows.
pub open spec fn empty_store() -> StoreV {
    StoreV {
        symbols: Seq::empty(),
        edges: Seq::empty(),
        agents: Seq::empty(),
        leases: Seq::empty(),
        queue: Seq::empty(),
        requests: Seq::empty(),
        progress: Seq::empty(),
        tasks: Seq::empty(),
        task_deps: Seq::empty(),
        task_symbols: Seq::empty(),
        goals: Seq::empty(),
        task_goals: Seq::empty(),
        repos: Seq::empty(),
        events: Seq::empty(),
        counter: 0,
    }
}

// ----------------------------------------------------------------------- laws

/// A symbol that exists covers itself.
pub proof fn law_covers_itself(s: StoreV, id: Seq<char>)
    requires
        s.symbol(id) is Some,
    ensures
        s.covers(id, id),
{
    law_first_where(s.symbols, |x: SymbolV| x.id == id);
    assert(s.chain(id)[0] == id);
}

/// Only symbols that exist cover anything.
pub proof fn law_chain_exists(symbols: Seq<SymbolV>, id: Seq<char>, fuel: nat, i: int)
    requires
        0 <= i < chain_in(symbols, id, fuel).len(),
    ensures
        first_where(symbols, |x: SymbolV| x.id == chain_in(symbols, id, fuel)[i]) is Some,
    decreases fuel,
{
    if fuel > 0 {
        if let Some(x) = first_where(symbols, |x: SymbolV| x.id == id) {
            if i > 0 {
                if let Some(p) = x.parent_id {
                    law_chain_exists(symbols, p, (fuel - 1) as nat, i - 1);
                    assert(chain_in(symbols, id, fuel)[i] == chain_in(
                        symbols,
                        p,
                        (fuel - 1) as nat,
                    )[i - 1]);
                }
            }
        }
    }
}

} // verus!
