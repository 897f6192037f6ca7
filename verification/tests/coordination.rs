//! Leases, requests, repositories, goals and the scheduler, on a store that was
//! filled from a few small files.

use golab::command::{after_attempt, after_look, idle_reason, plan_line, Continued, Exit, InterfaceAsk, Scoped, Step, Taken};
use golab::index::Service;
use golab::json::Json;
use golab::lease::{AcquireOptions, QueueEntry};
use golab::model::{
    AcquireOutcome, Agent, Capability, Conflict, ConflictRelation, EdgeKind, Event, Goal, GoalProgress, GoalState,
    Lease, ProgressUpdate, Repo, Request, RequestState, Symbol, Task, TaskState, TaskSuggestion,
};
use golab::protocol::{Direction, NewRequest};
use golab::request_kind;
use golab::scan::{self, ScanInput, SourceFile};
use golab::schedule::{InferredDep, Plan, ScheduledTask};
use golab::store::{ErrorKind, Link, Store, StoreError, Tick};
use golab::work::TaskView;

/// For how long an agent counts as there after its last sign of life.
const ONLINE_MS: i64 = 90_000;

/// A store, and a clock that moves on a little with every operation.
struct Desk {
    store: Store,
    now: i64,
}

type Got<T> = Result<T, StoreError>;

fn owned(s: Option<&str>) -> Option<String> {
    s.map(|x| x.to_string())
}

impl Desk {
    fn init(files: &[(&str, &str)], services: Vec<Service>) -> Desk {
        let mut desk = Desk { store: Store::new(), now: 1_700_000_000_000 };
        desk.store.ensure_default_repo(desk.now);
        let sources = files
            .iter()
            .map(|(path, body)| SourceFile {
                path: path.to_string(),
                bytes: Some(body.as_bytes().to_vec()),
                tests: Vec::new(),
                endpoints: Vec::new(),
                test_file: false,
            })
            .collect();
        let input = ScanInput { services: Some(services), sql: Vec::new(), sources };
        scan::scan(&mut desk.store, golab::ids::DEFAULT_REPO_ID, &input, false, desk.now);
        desk
    }

    /// Lets some time pass.
    fn wait_ms(&mut self, ms: i64) {
        self.now += ms;
    }

    /// The moment of the next operation.
    fn tick(&mut self) -> Tick {
        assert!(self.store.check(), "every operation starts from a sound store");
        self.now += 1;
        Tick { now: self.now, nanos: (self.now as u64) * 1_000_000, pid: 4321 }
    }

    fn resolve(&self, query: &str) -> Got<Symbol> {
        self.store.resolve(query)
    }

    fn acquire(&mut self, symbol: &str, agent: &str, opts: &AcquireOptions) -> Got<AcquireOutcome> {
        let t = self.tick();
        self.store.acquire(symbol, agent, opts, t)
    }

    fn active_leases(&self, agent: Option<&str>) -> Got<Vec<Lease>> {
        Ok(self.store.active_leases(&owned(agent)))
    }

    fn release_all(&mut self, agent: &str) -> Got<Vec<Lease>> {
        let t = self.tick();
        Ok(self.store.release_all(agent, t.now))
    }

    fn release(&mut self, lease: &str, agent: &str) -> Got<Lease> {
        let t = self.tick();
        self.store.release(lease, agent, t.now)
    }

    fn heartbeat(&mut self, agent: &str, lease: Option<&str>) -> Got<Vec<Lease>> {
        let t = self.tick();
        Ok(self.store.heartbeat(agent, &owned(lease), t.now))
    }

    fn recent_events(&self, limit: usize) -> Got<Vec<Event>> {
        Ok(self.store.recent_events(limit))
    }

    fn queue_for(&self, symbol: &str) -> Got<Vec<QueueEntry>> {
        Ok(self.store.queue_for(symbol))
    }

    fn waiting_count(&self) -> Got<usize> {
        Ok(self.store.waiting_count())
    }

    fn conflicts_for(&self, symbol: &str, agent: &str) -> Got<Vec<Conflict>> {
        Ok(self.store.conflicts_for(symbol, agent, self.now))
    }

    fn lease(&self, id: &str) -> Got<Option<Lease>> {
        Ok(self.store.lease(id))
    }

    fn request_lease_transfer(
        &mut self,
        symbol: &str,
        from: &str,
        reason: Option<&str>,
        deadline: Option<i64>,
        priority: i64,
        task: Option<&str>,
    ) -> Got<Request> {
        let t = self.tick();
        self.store.request_lease_transfer(symbol, from, &owned(reason), deadline, priority, &owned(task), t)
    }

    fn open_request(&mut self, req: &NewRequest) -> Got<Request> {
        let t = self.tick();
        self.store.open_request(req, t)
    }

    fn accept_request(&mut self, id: &str, agent: &str, response: Option<Json>) -> Got<Request> {
        let t = self.tick();
        self.store.accept_request(id, agent, response, t.now)
    }

    fn decline_request(&mut self, id: &str, agent: &str, reason: Option<&str>) -> Got<Request> {
        let t = self.tick();
        self.store.decline_request(id, agent, &owned(reason), t.now)
    }

    fn fulfill_request(&mut self, id: &str, agent: &str, response: Option<Json>) -> Got<Request> {
        let t = self.tick();
        self.store.fulfill_request(id, agent, response, t.now)
    }

    fn request(&self, id: &str) -> Got<Option<Request>> {
        Ok(self.store.request(id))
    }

    fn requests(&self, agent: Option<&str>, direction: Direction, live: bool) -> Got<Vec<Request>> {
        Ok(self.store.requests(&owned(agent), direction, live))
    }

    fn expire_requests(&mut self) -> Got<usize> {
        let t = self.tick();
        Ok(self.store.expire_requests(t.now))
    }

    fn record_progress(
        &mut self,
        agent: &str,
        task: Option<&str>,
        symbol: Option<&str>,
        percent: Option<i64>,
        eta: Option<i64>,
        note: Option<&str>,
    ) -> Got<ProgressUpdate> {
        let t = self.tick();
        Ok(self.store.record_progress(agent, &owned(task), &owned(symbol), percent, eta, &owned(note), t.now))
    }

    fn latest_progress(&self) -> Got<Vec<ProgressUpdate>> {
        Ok(self.store.latest_progress())
    }

    fn register_agent(&mut self, name: &str, kind: &str) -> Got<Agent> {
        let t = self.tick();
        Ok(self.store.register_agent(name, kind, t.now))
    }

    fn set_agent_paused(&mut self, name: &str, paused: bool) -> Got<Agent> {
        self.store.set_agent_paused(name, paused)
    }

    fn set_agent_capability(&mut self, name: &str, capability: Option<Capability>) -> Got<Agent> {
        self.store.set_agent_capability(name, capability)
    }

    fn add_task(&mut self, title: &str, priority: i64, deps: &[String]) -> Got<Task> {
        let t = self.tick();
        self.store.add_task(title, priority, &deps.to_vec(), t.now)
    }

    fn set_task_state(
        &mut self,
        id: &str,
        state: TaskState,
        agent: Option<&str>,
        reason: Option<&str>,
        force: bool,
    ) -> Got<TaskView> {
        let t = self.tick();
        self.store.set_task_state(id, state, &owned(agent), &owned(reason), force, t.now)
    }

    fn set_task_scope(&mut self, id: &str, symbols: &[String]) -> Got<Vec<Symbol>> {
        let t = self.tick();
        self.store.set_task_scope(id, &symbols.to_vec(), t.now)
    }

    fn set_task_priority(&mut self, id: &str, priority: i64) -> Got<TaskView> {
        let t = self.tick();
        self.store.set_task_priority(id, priority, t.now)
    }

    fn set_task_required_capability(&mut self, id: &str, capability: Option<Capability>) -> Got<TaskView> {
        let t = self.tick();
        self.store.set_task_required_capability(id, capability, t.now)
    }

    fn submit_for_review(&mut self, id: &str, agent: &str) -> Got<TaskView> {
        let t = self.tick();
        self.store.submit_for_review(id, agent, t.now)
    }

    fn task(&self, id: &str) -> Got<Option<TaskView>> {
        Ok(self.store.task(id))
    }

    fn task_goal(&self, id: &str) -> Got<Option<String>> {
        Ok(self.store.task_goal(id))
    }

    fn infer_dependencies(&mut self) -> Got<Vec<InferredDep>> {
        let t = self.tick();
        Ok(self.store.infer_dependencies(t.now))
    }

    fn dependency_cycles(&self) -> Got<Vec<Vec<String>>> {
        Ok(self.store.dependency_cycles())
    }

    fn plan(&self) -> Got<Plan> {
        Ok(self.store.plan(self.now))
    }

    fn claim_next(&mut self, agent: &str, ttl: i64) -> Got<Option<ScheduledTask>> {
        let t = self.tick();
        self.store.claim_next(agent, ttl, t)
    }

    fn claim_next_in(&mut self, agent: &str, ttl: i64, goal: Option<&str>) -> Got<Option<ScheduledTask>> {
        let t = self.tick();
        self.store.claim_next_in(agent, ttl, &owned(goal), t)
    }

    fn reassign_task(&mut self, id: &str, to: &str, actor: Option<&str>) -> Got<TaskView> {
        let t = self.tick();
        self.store.reassign_task(id, to, &owned(actor), t)
    }

    fn assign_task_opts(
        &mut self,
        id: &str,
        to: &str,
        actor: Option<&str>,
        preempt: bool,
        priority: i64,
    ) -> Got<TaskView> {
        let t = self.tick();
        self.store.assign_task_opts(id, to, &owned(actor), preempt, priority, t)
    }

    fn reassign_orphans(&mut self) -> Got<Vec<String>> {
        let t = self.tick();
        Ok(self.store.reassign_orphans(t.now, ONLINE_MS))
    }

    /// Makes it look as if an agent had never shown a sign of life.
    fn silence(&mut self, name: &str) {
        for a in self.store.agents.iter_mut() {
            if a.name == name {
                a.heartbeat_at = 0;
            }
        }
    }

    fn add_goal(&mut self, title: &str, priority: i64, description: Option<&str>, by: Option<&str>) -> Got<Goal> {
        let t = self.tick();
        self.store.add_goal(title, priority, &owned(description), &owned(by), t.now)
    }

    fn set_goal_state(&mut self, id: &str, state: GoalState) -> Got<Goal> {
        let t = self.tick();
        self.store.set_goal_state(id, state, t.now)
    }

    fn goal_decompose(
        &mut self,
        goal: &str,
        title: &str,
        priority: i64,
        deps: &[String],
        symbols: &[String],
    ) -> Got<Task> {
        let t = self.tick();
        self.store.goal_decompose(goal, title, priority, &deps.to_vec(), &symbols.to_vec(), t.now)
    }

    fn goal_tasks(&self, id: &str) -> Got<Vec<TaskView>> {
        Ok(self.store.goal_tasks(id))
    }

    fn goal_progress(&self, id: &str) -> Got<GoalProgress> {
        self.store.goal_progress(id)
    }

    fn suggest_decomposition(&self, near: &str, depth: usize) -> Got<Vec<TaskSuggestion>> {
        self.store.suggest_decomposition(near, depth)
    }

    fn plan_goal(&self, id: &str, depth: usize) -> Got<Vec<TaskSuggestion>> {
        self.store.plan_goal(id, depth)
    }

    fn repos(&self) -> Got<Vec<Repo>> {
        Ok(self.store.repos())
    }

    fn add_repo(&mut self, root: &str, name: Option<&str>) -> Got<Repo> {
        let t = self.tick();
        self.store.add_repo(root, &owned(name), t.now)
    }

    fn resolve_repo_id(&self, name: &str) -> Got<Option<String>> {
        Ok(self.store.resolve_repo_id(name))
    }

    fn repo_for_path(&self, path: &str) -> Got<Option<Repo>> {
        Ok(self.store.repo_for_path(path))
    }

    fn join(&mut self, name: &str) {
        let t = self.tick();
        self.store.join(name, "cursor", &None, t.now).unwrap();
    }

    fn acquire_ref(&mut self, query: &str, agent: &str, opts: &AcquireOptions) -> Got<Taken> {
        let t = self.tick();
        self.store.acquire_ref(query, agent, opts, t)
    }

    /// Takes a lease that nothing stands in the way of.
    fn take(&mut self, query: &str, agent: &str, priority: i64) {
        let taken = self.acquire_ref(query, agent, &AcquireOptions { priority, ..opts(60) }).unwrap();
        assert!(taken.outcome.is_granted());
    }

    fn add(&mut self, title: &str, priority: i64, deps: &[&str], symbols: &[&str]) -> Got<Scoped> {
        let t = self.tick();
        self.store.add_scoped_task(title, priority, &list(deps), &list(symbols), &None, t.now)
    }

    fn decompose(&mut self, goal: &str, title: &str, priority: i64, symbols: &[&str]) -> Got<Task> {
        let t = self.tick();
        self.store.decompose(goal, title, priority, &Vec::new(), &list(symbols), &None, t.now)
    }

    fn apply(&mut self, goal: &str, some: &Vec<TaskSuggestion>) -> Got<Vec<Task>> {
        let t = self.tick();
        self.store.apply_suggestions(goal, some, t.now)
    }

    fn assign(&mut self, id: &str, to: &str, preempt: bool, priority: i64) -> Got<TaskView> {
        let t = self.tick();
        self.store.assign(id, to, &None, preempt, priority, t)
    }

    fn go_on(&mut self, agent: &str, goal: Option<&str>) -> Got<Continued> {
        let t = self.tick();
        self.store.go_on(agent, 300, &owned(goal), t)
    }

    fn ask_for(
        &mut self,
        query: &str,
        agent: &str,
        reason: Option<&str>,
        deadline: i64,
        priority: i64,
    ) -> Got<Request> {
        let t = self.tick();
        self.store.ask_for_lease(query, agent, &owned(reason), deadline, priority, &None, t)
    }
}

fn service(name: &str, dir: &str) -> Service {
    Service {
        name: name.to_string(),
        manifest: format!("{dir}/package.json"),
        ecosystem: "npm".to_string(),
        dir: dir.to_string(),
    }
}

fn list(items: &[&str]) -> Vec<String> {
    items.iter().map(|s| s.to_string()).collect()
}

fn texts(items: &[&str]) -> Json {
    Json::strings(&list(items))
}

fn opts(ttl: i64) -> AcquireOptions {
    AcquireOptions {
        ttl_secs: ttl,
        ..Default::default()
    }
}

/// A class, its methods, and a free function.
fn payments() -> Desk {
    Desk::init(
        &[(
            "src/pay.ts",
            "export class PaymentService {\n\
             \x20 processPayment(id: string) { return 1; }\n\
             \x20 refund(id: string) { return 2; }\n\
             }\n\
             export function audit() { return 3; }\n",
        )],
        Vec::new(),
    )
}

/// The same, with two agents.
fn negotiators() -> Desk {
    let mut desk = payments();
    desk.register_agent("agent-a", "aider").unwrap();
    desk.register_agent("agent-b", "cursor").unwrap();
    desk
}

/// Two services, one of which calls into the other.
fn services() -> Desk {
    Desk::init(
        &[
            ("lib/src/ledger.ts", "export function record(x: number) { return x; }\n"),
            (
                "api/src/routes.ts",
                "import { record } from '../../lib/src/ledger';\n\
                 export function createPayment(x: number) { return record(x); }\n\
                 export function refund(x: number) { return -x; }\n",
            ),
        ],
        vec![service("payments-api", "api"), service("ledger-lib", "lib")],
    )
}

/// `createPayment` calls `record`, so the scheduler has a real edge to reason
/// about.
fn ledger() -> Desk {
    let mut desk = Desk::init(
        &[
            ("src/ledger.ts", "export function record(x: number) { return x; }\n"),
            (
                "src/pay.ts",
                "import { record } from './ledger';\n\
                 export function createPayment(x: number) { return record(x); }\n\
                 export function refund(x: number) { return -x; }\n",
            ),
        ],
        Vec::new(),
    );
    desk.register_agent("agent-1", "aider").unwrap();
    desk.register_agent("agent-2", "cursor").unwrap();
    desk
}

fn empty() -> Desk {
    Desk::init(&[], Vec::new())
}

// ---------------------------------------------------------------------- leases

#[test]
fn two_agents_cannot_hold_the_same_symbol() {
    let mut store = payments();
    let sym = store.resolve("PaymentService.processPayment").unwrap();

    let first = store.acquire(&sym.id, "agent-1", &opts(300)).unwrap();
    assert!(first.is_granted());

    let second = store.acquire(&sym.id, "agent-2", &opts(300)).unwrap();
    match second {
        AcquireOutcome::Denied { conflicts } => {
            assert_eq!(conflicts.len(), 1);
            assert_eq!(conflicts[0].holder, "agent-1");
            assert_eq!(conflicts[0].relation, ConflictRelation::Same);
            assert!(conflicts[0].seconds_until_free > 0);
        }
        other => panic!("expected denial, got {other:?}"),
    }
    assert_eq!(store.active_leases(None).unwrap().len(), 1);
}

#[test]
fn re_acquiring_your_own_lease_extends_it() {
    let mut store = payments();
    let sym = store.resolve("audit").unwrap();
    let a = store.acquire(&sym.id, "agent-1", &opts(60)).unwrap();
    let b = store.acquire(&sym.id, "agent-1", &opts(600)).unwrap();
    assert!(matches!(b, AcquireOutcome::Extended { .. }));
    assert!(b.lease().unwrap().expires_at > a.lease().unwrap().expires_at);
    assert_eq!(store.active_leases(None).unwrap().len(), 1);
}

#[test]
fn sibling_symbols_do_not_conflict() {
    let mut store = payments();
    let a = store.resolve("PaymentService.processPayment").unwrap();
    let b = store.resolve("PaymentService.refund").unwrap();
    assert!(store.acquire(&a.id, "agent-1", &opts(300)).unwrap().is_granted());
    assert!(store.acquire(&b.id, "agent-2", &opts(300)).unwrap().is_granted());
}

#[test]
fn holding_a_class_blocks_its_methods_and_the_reverse() {
    let mut store = payments();
    let class = store.resolve("PaymentService").unwrap();
    let method = store.resolve("PaymentService.refund").unwrap();

    assert!(store.acquire(&class.id, "agent-1", &opts(300)).unwrap().is_granted());
    let denied = store.acquire(&method.id, "agent-2", &opts(300)).unwrap();
    match denied {
        AcquireOutcome::Denied { conflicts } => {
            assert_eq!(conflicts[0].relation, ConflictRelation::Ancestor);
        }
        other => panic!("expected denial, got {other:?}"),
    }

    store.release_all("agent-1").unwrap();
    assert!(store.acquire(&method.id, "agent-2", &opts(300)).unwrap().is_granted());
    let denied = store.acquire(&class.id, "agent-3", &opts(300)).unwrap();
    match denied {
        AcquireOutcome::Denied { conflicts } => {
            assert_eq!(conflicts[0].relation, ConflictRelation::Descendant);
        }
        other => panic!("expected denial, got {other:?}"),
    }
}

#[test]
fn leasing_a_file_blocks_everything_in_it() {
    let mut store = payments();
    let file = store.resolve("src/pay.ts").unwrap();
    let method = store.resolve("PaymentService.refund").unwrap();
    assert!(store.acquire(&file.id, "agent-1", &opts(300)).unwrap().is_granted());
    assert!(!store.acquire(&method.id, "agent-2", &opts(300)).unwrap().is_granted());
}

#[test]
fn expired_leases_free_themselves() {
    let mut store = payments();
    let sym = store.resolve("audit").unwrap();
    // TTL of 0 means "expired the moment it was taken" — the crash case,
    // without having to sleep in a test.
    assert!(store.acquire(&sym.id, "crashed", &opts(0)).unwrap().is_granted());
    store.wait_ms(5);

    let taken = store.acquire(&sym.id, "agent-2", &opts(300)).unwrap();
    assert!(taken.is_granted(), "expected the dead agent's lease to expire");

    let kinds: Vec<String> = store
        .recent_events(20)
        .unwrap()
        .into_iter()
        .map(|e| e.kind)
        .collect();
    assert!(kinds.contains(&"lease.expired".to_string()), "{kinds:?}");
}

#[test]
fn heartbeat_pushes_expiry_out() {
    let mut store = payments();
    let sym = store.resolve("audit").unwrap();
    let lease = store
        .acquire(&sym.id, "agent-1", &opts(2))
        .unwrap()
        .lease()
        .unwrap()
        .clone();
    store.wait_ms(20);
    let renewed = store.heartbeat("agent-1", None).unwrap();
    assert_eq!(renewed.len(), 1);
    assert!(renewed[0].expires_at > lease.expires_at);
}

#[test]
fn only_the_owner_can_release() {
    let mut store = payments();
    let sym = store.resolve("audit").unwrap();
    let lease = store
        .acquire(&sym.id, "agent-1", &opts(300))
        .unwrap()
        .lease()
        .unwrap()
        .clone();
    assert!(store.release(&lease.id, "agent-2").is_err());
    assert!(store.release(&lease.id, "agent-1").is_ok());
    assert!(store.active_leases(None).unwrap().is_empty());
}

#[test]
fn higher_priority_can_preempt() {
    let mut store = payments();
    let sym = store.resolve("audit").unwrap();
    store
        .acquire(
            &sym.id,
            "background",
            &AcquireOptions {
                priority: 1,
                ..opts(300)
            },
        )
        .unwrap();

    let same_priority = store.acquire(
        &sym.id,
        "hotfix",
        &AcquireOptions {
            priority: 1,
            preempt: true,
            ..opts(300)
        },
    );
    assert!(!same_priority.unwrap().is_granted(), "equal priority must not preempt");

    let higher = store
        .acquire(
            &sym.id,
            "hotfix",
            &AcquireOptions {
                priority: 9,
                preempt: true,
                ..opts(300)
            },
        )
        .unwrap();
    assert!(higher.is_granted());
    let active = store.active_leases(None).unwrap();
    assert_eq!(active.len(), 1);
    assert_eq!(active[0].agent, "hotfix");
}

#[test]
fn queue_gives_the_first_waiter_the_lease() {
    let mut store = payments();
    let sym = store.resolve("audit").unwrap();
    store.acquire(&sym.id, "holder", &opts(300)).unwrap();

    // Two agents queue up, in order.
    assert!(!store.acquire(&sym.id, "waiter-1", &opts(300)).unwrap().is_granted());
    assert!(!store.acquire(&sym.id, "waiter-2", &opts(300)).unwrap().is_granted());
    let queue = store.queue_for(&sym.id).unwrap();
    assert_eq!(queue.len(), 2);
    assert_eq!(queue[0].agent, "waiter-1");

    store.release_all("holder").unwrap();
    // The second waiter must not jump the line.
    let jump = store.acquire(&sym.id, "waiter-2", &opts(300)).unwrap();
    match jump {
        AcquireOutcome::Denied { conflicts } => {
            assert_eq!(conflicts[0].relation, ConflictRelation::Queued);
            assert_eq!(conflicts[0].holder, "waiter-1");
        }
        other => panic!("expected queue denial, got {other:?}"),
    }
    assert!(store.acquire(&sym.id, "waiter-1", &opts(300)).unwrap().is_granted());
    assert!(store.queue_for(&sym.id).unwrap().iter().all(|q| q.agent != "waiter-1"));
}

#[test]
fn conflicts_can_be_previewed_without_side_effects() {
    let mut store = payments();
    let sym = store.resolve("audit").unwrap();
    store.acquire(&sym.id, "holder", &opts(300)).unwrap();
    let before = store.waiting_count().unwrap();
    let conflicts = store.conflicts_for(&sym.id, "curious").unwrap();
    assert_eq!(conflicts.len(), 1);
    assert_eq!(conflicts[0].holder, "holder");
    assert_eq!(store.waiting_count().unwrap(), before, "preview must not queue");
}

// -------------------------------------------------------------------- requests

#[test]
fn accepting_a_transfer_moves_the_lease_without_releasing_it() {
    let mut store = negotiators();
    let sym = store.resolve("PaymentService.processPayment").unwrap();
    let original = store
        .acquire(&sym.id, "agent-a", &AcquireOptions::default())
        .unwrap()
        .lease()
        .unwrap()
        .clone();

    let req = store
        .request_lease_transfer(&sym.id, "agent-b", Some("hotfix"), Some(300), 5, None)
        .unwrap();
    assert_eq!(req.to.as_deref(), Some("agent-a"), "routed to the holder");
    assert!(matches!(req.body.get("current_task"), Some(Json::Null)));

    let resolved = store.accept_request(&req.id, "agent-a", None).unwrap();
    assert_eq!(resolved.state, RequestState::Fulfilled);

    let active = store.active_leases(None).unwrap();
    assert_eq!(active.len(), 1, "the symbol is never unowned mid-handoff");
    assert_eq!(active[0].agent, "agent-b");
    assert_eq!(active[0].id, original.id, "same lease, new owner");

    let kinds: Vec<String> = store
        .recent_events(30)
        .unwrap()
        .into_iter()
        .map(|e| e.kind)
        .collect();
    assert!(kinds.contains(&"lease.transferred".to_string()), "{kinds:?}");
}

#[test]
fn declining_leaves_the_lease_where_it_was() {
    let mut store = negotiators();
    let sym = store.resolve("audit").unwrap();
    store
        .acquire(&sym.id, "agent-a", &AcquireOptions::default())
        .unwrap();
    let req = store
        .request_lease_transfer(&sym.id, "agent-b", None, Some(60), 0, None)
        .unwrap();

    let resolved = store
        .decline_request(&req.id, "agent-a", Some("mid-refactor, 90s"))
        .unwrap();
    assert_eq!(resolved.state, RequestState::Declined);
    assert_eq!(resolved.response.unwrap().text("reason").as_deref(), Some("mid-refactor, 90s"));
    assert_eq!(store.active_leases(None).unwrap()[0].agent, "agent-a");
}

#[test]
fn releasing_a_symbol_answers_whoever_asked_for_it() {
    let mut store = negotiators();
    let sym = store.resolve("audit").unwrap();
    store
        .acquire(&sym.id, "agent-a", &AcquireOptions::default())
        .unwrap();
    let req = store
        .request_lease_transfer(&sym.id, "agent-b", None, Some(300), 0, None)
        .unwrap();

    // agent-a just finishes and releases, never answering the request.
    store.release_all("agent-a").unwrap();

    let after = store.request(&req.id).unwrap().unwrap();
    assert_eq!(after.state, RequestState::Fulfilled);
    assert!(matches!(after.response.unwrap().get("symbol_free"), Some(Json::Bool(true))));
}

#[test]
fn a_dependency_clears_when_its_task_completes() {
    let mut store = negotiators();
    let task = store.add_task("payment provider interface", 5, &[]).unwrap();
    let req = store
        .open_request(&NewRequest {
            resource_task: Some(task.id.clone()),
            to: Some("agent-a".to_string()),
            body: Json::object().with("needs", texts(&["authorize", "capture"])),
            ..NewRequest::new(request_kind::DEPENDENCY, "agent-b", "blocked on provider")
        })
        .unwrap();

    assert_eq!(store.request(&req.id).unwrap().unwrap().state, RequestState::Open);
    store
        .set_task_state(&task.id, TaskState::Done, Some("agent-a"), None, false)
        .unwrap();

    let after = store.request(&req.id).unwrap().unwrap();
    assert_eq!(after.state, RequestState::Fulfilled);
    assert_eq!(after.response.unwrap().text("task"), Some(task.id));
}

#[test]
fn interface_requests_are_accepted_then_fulfilled() {
    let mut store = negotiators();
    let req = store
        .open_request(&NewRequest {
            to: Some("agent-a".to_string()),
            body: Json::object()
                .with("resource", Json::str("PaymentProvider"))
                .with("methods", texts(&["authorize", "capture"])),
            deadline_secs: Some(300),
            ..NewRequest::new(request_kind::INTERFACE, "agent-b", "need PaymentProvider")
        })
        .unwrap();

    let accepted = store.accept_request(&req.id, "agent-a", None).unwrap();
    assert_eq!(accepted.state, RequestState::Accepted);
    assert!(accepted.state.is_live(), "still waiting on delivery");

    let done = store
        .fulfill_request(
            &req.id,
            "agent-a",
            Some(
                Json::object()
                    .with("version", Json::Int(2))
                    .with("breaking_changes", Json::Bool(false)),
            ),
        )
        .unwrap();
    assert_eq!(done.state, RequestState::Fulfilled);
    assert!(matches!(done.response.unwrap().get("version"), Some(Json::Int(2))));
}

#[test]
fn only_the_addressee_may_answer() {
    let mut store = negotiators();
    let req = store
        .open_request(&NewRequest {
            to: Some("agent-a".to_string()),
            ..NewRequest::new(request_kind::QUESTION, "agent-b", "ping")
        })
        .unwrap();
    assert!(store.accept_request(&req.id, "agent-c", None).is_err());
    assert!(
        store.accept_request(&req.id, "agent-b", None).is_err(),
        "sender cannot self-answer"
    );
    assert!(store.accept_request(&req.id, "agent-a", None).is_ok());
    assert!(
        store.accept_request(&req.id, "agent-a", None).is_err(),
        "committing twice is a bug on the responder's side"
    );
    // Backing out after accepting is legal: agents hit walls.
    let bailed = store
        .decline_request(&req.id, "agent-a", Some("cannot do it after all"))
        .unwrap();
    assert_eq!(bailed.state, RequestState::Declined);
    assert!(store.fulfill_request(&req.id, "agent-a", None).is_err());
}

#[test]
fn broadcasts_can_be_answered_by_anyone_but_the_sender() {
    let mut store = negotiators();
    let req = store
        .open_request(&NewRequest {
            to: None,
            ..NewRequest::new(request_kind::QUESTION, "agent-b", "who owns the schema?")
        })
        .unwrap();
    let inbox = store.requests(Some("agent-a"), Direction::Inbox, true).unwrap();
    assert_eq!(inbox.len(), 1, "broadcasts land in everyone's inbox");
    assert!(store
        .requests(Some("agent-b"), Direction::Inbox, true)
        .unwrap()
        .is_empty());
    assert!(store.fulfill_request(&req.id, "agent-a", None).is_ok());
}

#[test]
fn unanswered_requests_expire_on_their_deadline() {
    let mut store = negotiators();
    let req = store
        .open_request(&NewRequest {
            to: Some("agent-a".to_string()),
            deadline_secs: Some(0),
            ..NewRequest::new(request_kind::QUESTION, "agent-b", "urgent")
        })
        .unwrap();
    store.wait_ms(5);
    assert_eq!(store.expire_requests().unwrap(), 1);

    let after = store.request(&req.id).unwrap().unwrap();
    assert_eq!(after.state, RequestState::Expired);
    assert!(!after.state.is_live(), "a waiting agent stops waiting");
    assert!(store.accept_request(&req.id, "agent-a", None).is_err());
}

#[test]
fn transfer_requires_still_holding_the_lease() {
    let mut store = negotiators();
    let sym = store.resolve("audit").unwrap();
    store
        .acquire(&sym.id, "agent-a", &AcquireOptions::default())
        .unwrap();
    let req = store
        .request_lease_transfer(&sym.id, "agent-b", None, Some(300), 0, None)
        .unwrap();

    // A third agent takes over first; agent-a can no longer hand it on.
    store
        .acquire(
            &sym.id,
            "agent-c",
            &AcquireOptions {
                priority: 9,
                preempt: true,
                ..Default::default()
            },
        )
        .unwrap();
    let err = store.accept_request(&req.id, "agent-a", None).unwrap_err();
    assert!(err.text.contains("no longer holds"), "{err:?}");
    assert_eq!(store.active_leases(None).unwrap()[0].agent, "agent-c");
}

#[test]
fn progress_updates_report_and_heartbeat() {
    let mut store = negotiators();
    let sym = store.resolve("audit").unwrap();
    let lease = store
        .acquire(
            &sym.id,
            "agent-a",
            &AcquireOptions {
                ttl_secs: 60,
                ..Default::default()
            },
        )
        .unwrap()
        .lease()
        .unwrap()
        .clone();
    store.wait_ms(20);

    let p = store
        .record_progress(
            "agent-a",
            Some("T1"),
            Some(&sym.id),
            Some(60),
            Some(120),
            Some("authorize() done"),
        )
        .unwrap();
    assert_eq!(p.percent, Some(60));
    assert_eq!(p.symbol_handle.as_deref(), Some("src/pay.ts:audit"));

    let fresh = store.lease(&lease.id).unwrap().unwrap();
    assert!(fresh.expires_at > lease.expires_at, "progress is a heartbeat");

    let latest = store.latest_progress().unwrap();
    assert_eq!(latest.len(), 1);
    assert_eq!(latest[0].note.as_deref(), Some("authorize() done"));
}

#[test]
fn percent_is_clamped_to_something_meaningful() {
    let mut store = negotiators();
    let p = store
        .record_progress("agent-a", None, None, Some(430), None, None)
        .unwrap();
    assert_eq!(p.percent, Some(100));
}

#[test]
fn asking_for_an_unheld_symbol_is_an_error_not_a_request() {
    let mut store = negotiators();
    let sym = store.resolve("audit").unwrap();
    let err = store
        .request_lease_transfer(&sym.id, "agent-b", None, None, 0, None)
        .unwrap_err();
    assert!(err.text.contains("just acquire it"), "{err:?}");
}

// ---------------------------------------------------------------- repositories

#[test]
fn init_registers_the_default_repo() {
    let store = empty();
    let repos = store.repos().unwrap();
    assert_eq!(repos.len(), 1);
    assert_eq!(repos[0].id, "R1");
    assert_eq!(repos[0].root_path, ".");
}

#[test]
fn init_is_idempotent_about_the_default_repo() {
    let mut store = empty();
    store.store.ensure_default_repo(store.now);
    assert_eq!(store.repos().unwrap().len(), 1, "must not register R1 twice");
}

#[test]
fn adding_a_repo_assigns_the_next_id_and_a_default_name() {
    let mut store = empty();
    let r2 = store.add_repo("../frontend", None).unwrap();
    assert_eq!(r2.id, "R2");
    assert_eq!(r2.name, "frontend");
    assert_eq!(store.repos().unwrap().len(), 2);
}

#[test]
fn an_absolute_root_path_is_rejected() {
    let mut store = empty();
    assert!(store.add_repo("/abs/path", None).is_err());
}

#[test]
fn resolve_repo_id_matches_by_id_or_name() {
    let mut store = empty();
    store.add_repo("frontend", Some("web")).unwrap();
    assert_eq!(store.resolve_repo_id("R2").unwrap().as_deref(), Some("R2"));
    assert_eq!(store.resolve_repo_id("web").unwrap().as_deref(), Some("R2"));
    assert_eq!(store.resolve_repo_id("nope").unwrap(), None);
}

#[test]
fn repo_for_path_picks_the_longest_matching_root() {
    let mut store = empty();
    store.add_repo("frontend", None).unwrap();
    store.add_repo("frontend/widgets", Some("widgets")).unwrap();

    assert_eq!(store.repo_for_path("frontend/src/app.tsx").unwrap().unwrap().id, "R2");
    assert_eq!(
        store.repo_for_path("frontend/widgets/button.tsx").unwrap().unwrap().id,
        "R3",
        "the more specific repo wins over its own parent"
    );
    assert_eq!(store.repo_for_path("backend/main.py").unwrap().unwrap().id, "R1");
}

#[test]
fn the_workspace_root_is_the_fallback_however_short_the_other_root() {
    let mut store = empty();
    store.add_repo("a", None).unwrap();
    store.add_repo("", Some("again")).unwrap();

    assert_eq!(store.repo_for_path("a/main.rs").unwrap().unwrap().id, "R2");
    assert_eq!(store.repo_for_path("b/main.rs").unwrap().unwrap().root_path, ".");
}

// ----------------------------------------------------------------------- goals

#[test]
fn goal_decompose_creates_scoped_tasks_linked_to_the_goal() {
    let mut store = services();
    let goal = store.add_goal("Implement refunds", 5, None, Some("alice")).unwrap();
    assert_eq!(goal.id, "G1");
    assert_eq!(goal.state, GoalState::Open);

    let t1 = store
        .goal_decompose(&goal.id, "wire the endpoint", 5, &[], &["createPayment".to_string()])
        .unwrap();
    let t2 = store
        .goal_decompose(&goal.id, "write the ledger", 3, &[], &["record".to_string()])
        .unwrap();

    assert_eq!(store.task_goal(&t1.id).unwrap().as_deref(), Some(goal.id.as_str()));
    let tasks = store.goal_tasks(&goal.id).unwrap();
    let ids: Vec<&str> = tasks.iter().map(|t| t.task.id.as_str()).collect();
    assert!(ids.contains(&t1.id.as_str()) && ids.contains(&t2.id.as_str()));

    // The task's scope is real: it leases like any other scoped task.
    store.register_agent("agent-1", "aider").unwrap();
    let claimed = store.claim_next("agent-1", 300).unwrap().unwrap();
    assert!(!claimed.scope.is_empty());
}

#[test]
fn goal_progress_aggregates_task_states() {
    let mut store = services();
    let goal = store.add_goal("Implement refunds", 5, None, None).unwrap();
    let t1 = store
        .goal_decompose(&goal.id, "a", 5, &[], &["createPayment".to_string()])
        .unwrap();
    store
        .goal_decompose(&goal.id, "b", 3, &[], &["record".to_string()])
        .unwrap();

    let progress = store.goal_progress(&goal.id).unwrap();
    assert_eq!(progress.total, 2);
    assert_eq!(progress.done, 0);
    assert_eq!(progress.pending, 2);

    store.register_agent("agent-1", "aider").unwrap();
    store
        .set_task_state(&t1.id, TaskState::Done, None, None, true)
        .unwrap();
    let progress = store.goal_progress(&goal.id).unwrap();
    assert_eq!(progress.done, 1);
    assert_eq!(progress.pending, 1);
    assert_eq!(progress.done as f64 / progress.total as f64 * 100.0, 50.0);
}

#[test]
fn an_unknown_goal_is_rejected() {
    let mut store = services();
    assert!(store.goal_decompose("G99", "x", 0, &[], &[]).is_err());
    assert!(store.goal_progress("G99").is_err());
    assert!(store.set_goal_state("G99", GoalState::Done).is_err());
}

#[test]
fn suggest_decomposition_groups_impact_by_service() {
    let store = services();
    let suggestions = store.suggest_decomposition("record", 3).unwrap();
    let titles: Vec<&str> = suggestions.iter().map(|s| s.title.as_str()).collect();
    assert!(titles.contains(&"Update ledger-lib"), "{titles:?}");
    assert!(titles.contains(&"Update payments-api"), "{titles:?}");

    let api_group = suggestions
        .iter()
        .find(|s| s.title == "Update payments-api")
        .unwrap();
    assert!(
        api_group.symbols.iter().any(|s| s.contains("createPayment")),
        "{:?}",
        api_group.symbols
    );
}

/// The motivating case for plural-stripping: the fixture's function is
/// named `refund` (singular); a goal titled "Implement refunds" must
/// still find it, even though "refund".contains("refunds") is false.
#[test]
fn plan_finds_symbols_by_keyword_even_when_the_title_is_plural() {
    let mut store = services();
    let goal = store.add_goal("Implement refunds", 9, None, None).unwrap();

    let suggestions = store.plan_goal(&goal.id, 2).unwrap();
    assert!(
        suggestions.iter().any(|s| s.symbols.iter().any(|h| h.contains("refund"))),
        "{suggestions:?}"
    );
}

#[test]
fn plan_with_no_keyword_matches_returns_empty_not_an_error() {
    let mut store = services();
    let goal = store.add_goal("Improve team morale", 9, None, None).unwrap();
    assert!(store.plan_goal(&goal.id, 2).unwrap().is_empty());
}

#[test]
fn plan_on_an_unknown_goal_is_rejected() {
    let store = services();
    assert!(store.plan_goal("G99", 2).is_err());
}

#[test]
fn plan_apply_creates_real_scoped_tasks() {
    let mut store = services();
    let goal = store.add_goal("Implement refunds", 9, None, None).unwrap();
    let suggestions = store.plan_goal(&goal.id, 2).unwrap();
    assert!(!suggestions.is_empty());

    for s in &suggestions {
        store.goal_decompose(&goal.id, &s.title, 0, &[], &s.symbols).unwrap();
    }
    assert!(!store.goal_tasks(&goal.id).unwrap().is_empty());
}

// --------------------------------------------------------------- the scheduler

#[test]
fn dependencies_are_inferred_from_call_edges() {
    let mut store = ledger();
    let api = store.add_task("wire up the endpoint", 5, &[]).unwrap();
    let lib = store.add_task("write the ledger", 1, &[]).unwrap();
    store
        .set_task_scope(&api.id, &["createPayment".to_string()])
        .unwrap();
    store.set_task_scope(&lib.id, &["record".to_string()]).unwrap();

    let inferred = store.infer_dependencies().unwrap();
    assert_eq!(inferred.len(), 1, "{inferred:?}");
    assert_eq!(inferred[0].task, api.id);
    assert_eq!(inferred[0].depends_on, lib.id);
    assert_eq!(inferred[0].edge, EdgeKind::Calls);

    // The caller now waits for the callee, despite outranking it.
    let plan = store.plan().unwrap();
    assert_eq!(plan.waves[0].tasks[0].task.task.id, lib.id);
    assert_eq!(plan.waves[1].tasks[0].task.task.id, api.id);
}

#[test]
fn inference_is_idempotent_and_skips_cycles() {
    let mut store = ledger();
    let a = store.add_task("a", 0, &[]).unwrap();
    let b = store.add_task("b", 0, &[]).unwrap();
    store.set_task_scope(&a.id, &["createPayment".to_string()]).unwrap();
    store.set_task_scope(&b.id, &["record".to_string()]).unwrap();

    assert_eq!(store.infer_dependencies().unwrap().len(), 1);
    assert!(
        store.infer_dependencies().unwrap().is_empty(),
        "running it twice must add nothing"
    );

    // b already depends on nothing; force the reverse edge by hand and the
    // inferred one must not be re-added on top of it.
    store
        .set_task_scope(&b.id, &["refund".to_string()])
        .unwrap();
    assert!(store.dependency_cycles().unwrap().is_empty());
}

#[test]
fn schedule_a_dependency_cycle_is_reported_rather_than_hidden() {
    let mut store = ledger();
    let a = store.add_task("a", 0, &[]).unwrap();
    let b = store.add_task("b", 0, std::slice::from_ref(&a.id)).unwrap();
    // Close the loop by hand: a depends on b, b depends on a.
    store.store.task_deps.push(Link { left: a.id.clone(), right: b.id.clone() });

    let cycles = store.dependency_cycles().unwrap();
    assert_eq!(cycles.len(), 1, "{cycles:?}");
    assert_eq!(cycles[0], vec![a.id.clone(), b.id.clone()]);

    // Neither task appears in any wave — they can never become ready.
    let plan = store.plan().unwrap();
    assert!(plan.waves.is_empty(), "{:?}", plan.waves);
    assert_eq!(plan.startable_now, 0);
}

#[test]
fn waves_show_what_can_run_in_parallel() {
    let mut store = ledger();
    let base = store.add_task("base", 1, &[]).unwrap();
    let a = store.add_task("a", 5, std::slice::from_ref(&base.id)).unwrap();
    let b = store.add_task("b", 5, std::slice::from_ref(&base.id)).unwrap();
    let _c = store.add_task("independent", 9, &[]).unwrap();

    let plan = store.plan().unwrap();
    assert_eq!(plan.waves[0].tasks.len(), 2, "base + independent");
    assert_eq!(plan.waves[1].tasks.len(), 2, "a and b unblock together");
    assert_eq!(plan.max_parallel, 2);
    assert_eq!(plan.startable_now, 2);

    let wave1: Vec<&str> = plan.waves[1]
        .tasks
        .iter()
        .map(|t| t.task.task.id.as_str())
        .collect();
    assert!(wave1.contains(&a.id.as_str()) && wave1.contains(&b.id.as_str()));
}

#[test]
fn claiming_a_scoped_task_leases_its_symbols() {
    let mut store = ledger();
    let t = store.add_task("do the thing", 5, &[]).unwrap();
    store
        .set_task_scope(&t.id, &["createPayment".to_string()])
        .unwrap();

    let claimed = store.claim_next("agent-1", 300).unwrap().unwrap();
    assert_eq!(claimed.task.task.id, t.id);
    assert_eq!(claimed.task.task.assignee.as_deref(), Some("agent-1"));

    let leases = store.active_leases(None).unwrap();
    assert_eq!(leases.len(), 1, "the scope was leased with the task");
    assert_eq!(leases[0].agent, "agent-1");
    assert_eq!(leases[0].task.as_deref(), Some(t.id.as_str()));
}

/// The scheduler must not hand out work that would collide with a lease
/// someone already holds — that is the whole point of it knowing.
#[test]
fn contended_tasks_are_skipped_not_handed_out() {
    let mut store = ledger();
    let blocked = store.add_task("touch createPayment", 9, &[]).unwrap();
    let free = store.add_task("touch refund", 1, &[]).unwrap();
    store
        .set_task_scope(&blocked.id, &["createPayment".to_string()])
        .unwrap();
    store.set_task_scope(&free.id, &["refund".to_string()]).unwrap();

    // Someone outside the scheduler grabs the high-priority task's scope.
    let sym = store.resolve("createPayment").unwrap();
    store
        .acquire(&sym.id, "outsider", &AcquireOptions::default())
        .unwrap();

    let plan = store.plan().unwrap();
    let hot = plan.waves[0]
        .tasks
        .iter()
        .find(|t| t.task.task.id == blocked.id)
        .unwrap();
    assert!(hot.task.ready, "its dependencies are satisfied");
    assert!(!hot.startable(), "but its scope is held");
    assert_eq!(hot.contended_by.as_ref().unwrap().holder, "outsider");

    // So the agent gets the lower-priority task it can actually do.
    let claimed = store.claim_next("agent-1", 300).unwrap().unwrap();
    assert_eq!(claimed.task.task.id, free.id);
}

#[test]
fn containment_counts_as_contention() {
    let mut store = ledger();
    let t = store.add_task("edit one function", 5, &[]).unwrap();
    store
        .set_task_scope(&t.id, &["createPayment".to_string()])
        .unwrap();

    // Holding the whole file must block a task scoped to a function in it.
    let file = store.resolve("src/pay.ts").unwrap();
    store
        .acquire(&file.id, "outsider", &AcquireOptions::default())
        .unwrap();

    assert!(store.claim_next("agent-1", 300).unwrap().is_none());
}

#[test]
fn two_agents_claim_different_tasks() {
    let mut store = ledger();
    for (title, scope) in [("a", "createPayment"), ("b", "refund"), ("c", "record")] {
        let t = store.add_task(title, 5, &[]).unwrap();
        store.set_task_scope(&t.id, &[scope.to_string()]).unwrap();
    }
    let first = store.claim_next("agent-1", 300).unwrap().unwrap();
    let second = store.claim_next("agent-2", 300).unwrap().unwrap();
    assert_ne!(first.task.task.id, second.task.task.id);
    assert_eq!(store.active_leases(None).unwrap().len(), 2);
}

/// Reassigning a task without returning its scope would put the task back
/// in the pool in a state where nobody can actually claim it.
#[test]
fn reassignment_returns_the_scope_too() {
    let mut store = ledger();
    let t = store.add_task("in flight", 5, &[]).unwrap();
    store
        .set_task_scope(&t.id, &["createPayment".to_string()])
        .unwrap();
    // A long TTL: the lease would far outlive the agent's heartbeat.
    store.claim_next("agent-1", 3600).unwrap().unwrap();
    assert_eq!(store.active_leases(None).unwrap().len(), 1);

    store.silence("agent-1");
    store.reassign_orphans().unwrap();

    assert!(
        store.active_leases(None).unwrap().is_empty(),
        "the dead agent's scope must be freed with its task"
    );
    let picked_up = store.claim_next("agent-2", 300).unwrap().unwrap();
    assert_eq!(picked_up.task.task.id, t.id, "another agent can take it now");
    assert_eq!(picked_up.task.task.assignee.as_deref(), Some("agent-2"));
}

#[test]
fn work_abandoned_by_a_dead_agent_goes_back_to_the_pool() {
    let mut store = ledger();
    let t = store.add_task("in flight", 5, &[]).unwrap();
    store.claim_next("agent-1", 300).unwrap().unwrap();
    assert_eq!(store.task(&t.id).unwrap().unwrap().task.state, TaskState::Running);

    // agent-1 stops heartbeating.
    store.silence("agent-1");

    let reassigned = store.reassign_orphans().unwrap();
    assert_eq!(reassigned, vec![t.id.clone()]);
    let after = store.task(&t.id).unwrap().unwrap();
    assert_eq!(after.task.state, TaskState::Pending);
    assert!(after.task.assignee.is_none());

    // And another agent can pick it straight up.
    assert_eq!(
        store.claim_next("agent-2", 300).unwrap().unwrap().task.task.id,
        t.id
    );
}

#[test]
fn finishing_a_task_releases_the_scope_it_was_given() {
    let mut store = ledger();
    let t = store.add_task("do it", 5, &[]).unwrap();
    store
        .set_task_scope(&t.id, &["createPayment".to_string()])
        .unwrap();
    store.claim_next("agent-1", 300).unwrap().unwrap();
    assert_eq!(store.active_leases(None).unwrap().len(), 1);

    store
        .set_task_state(&t.id, TaskState::Done, Some("agent-1"), None, false)
        .unwrap();
    assert!(
        store.active_leases(None).unwrap().is_empty(),
        "the next agent should not wait out a TTL on finished work"
    );
}

/// Closing someone else's task would drop the lease they are still using.
#[test]
fn an_agent_cannot_close_work_assigned_to_someone_else() {
    let mut store = ledger();
    let t = store.add_task("do it", 5, &[]).unwrap();
    store
        .set_task_scope(&t.id, &["createPayment".to_string()])
        .unwrap();
    store.claim_next("agent-1", 300).unwrap().unwrap();

    let err = store
        .set_task_state(&t.id, TaskState::Done, Some("agent-2"), None, false)
        .unwrap_err();
    assert!(err.text.contains("assigned to agent-1"), "{err:?}");
    assert_eq!(store.active_leases(None).unwrap().len(), 1, "lease untouched");

    // A human cleaning up after a crash can override.
    store
        .set_task_state(&t.id, TaskState::Done, Some("agent-2"), None, true)
        .unwrap();
    assert!(store.active_leases(None).unwrap().is_empty());
}

#[test]
fn a_paused_agent_is_given_no_new_work_but_keeps_what_it_has() {
    let mut store = ledger();
    let first = store.add_task("first", 9, &[]).unwrap();
    store.add_task("second", 5, &[]).unwrap();
    store
        .set_task_scope(&first.id, &["createPayment".to_string()])
        .unwrap();
    store.claim_next("agent-1", 300).unwrap().unwrap();

    let paused = store.set_agent_paused("agent-1", true).unwrap();
    assert!(paused.paused);
    assert!(
        store.claim_next("agent-1", 300).unwrap().is_none(),
        "a paused agent gets nothing new"
    );
    assert_eq!(
        store.active_leases(Some("agent-1")).unwrap().len(),
        1,
        "but it keeps the work it already had"
    );
    // Another agent is unaffected.
    assert!(store.claim_next("agent-2", 300).unwrap().is_some());

    // Resuming makes it eligible again. agent-2 took the only other task,
    // so add one more to show that pausing is what changed.
    store.set_agent_paused("agent-1", false).unwrap();
    store
        .set_task_state(&first.id, TaskState::Done, Some("agent-1"), None, false)
        .unwrap();
    store.add_task("third", 1, &[]).unwrap();
    let after = store.claim_next("agent-1", 300).unwrap();
    assert_eq!(
        after.map(|t| t.task.task.title),
        Some("third".to_string()),
        "a resumed agent is handed work again"
    );
}

#[test]
fn reassigning_a_task_moves_its_leases_with_it() {
    let mut store = ledger();
    let t = store.add_task("in flight", 5, &[]).unwrap();
    store
        .set_task_scope(&t.id, &["createPayment".to_string()])
        .unwrap();
    let claimed = store.claim_next("agent-1", 300).unwrap().unwrap();
    let lease_id = store.active_leases(None).unwrap()[0].id.clone();
    assert_eq!(claimed.task.task.assignee.as_deref(), Some("agent-1"));

    let moved = store
        .reassign_task(&t.id, "agent-2", Some("human"))
        .unwrap();
    assert_eq!(moved.task.assignee.as_deref(), Some("agent-2"));

    let leases = store.active_leases(None).unwrap();
    assert_eq!(leases.len(), 1, "the symbol is never briefly unowned");
    assert_eq!(leases[0].agent, "agent-2");
    assert_eq!(leases[0].id, lease_id, "same lease, new owner");

    assert!(store.reassign_task(&t.id, "nobody", None).is_err());
}

/// A scoped task that nobody ever claimed holds no leases to move along; its scope
/// has to be taken, or a third agent is free to take it first.
#[test]
fn assigning_a_never_claimed_task_leases_its_scope() {
    let mut store = ledger();
    let t = store.add_task("never claimed", 5, &[]).unwrap();
    store
        .set_task_scope(&t.id, &["createPayment".to_string()])
        .unwrap();
    assert!(store.active_leases(None).unwrap().is_empty());

    let assigned = store.reassign_task(&t.id, "agent-1", None).unwrap();
    assert_eq!(assigned.task.assignee.as_deref(), Some("agent-1"));

    let leases = store.active_leases(None).unwrap();
    assert_eq!(leases.len(), 1, "the scope should be leased, not left empty");
    assert_eq!(leases[0].agent, "agent-1");
    assert_eq!(leases[0].task.as_deref(), Some(t.id.as_str()));
}

/// Assigning must not silently take a symbol someone else already holds.
#[test]
fn assigning_into_a_conflict_is_refused_and_leaves_the_task_untouched() {
    let mut store = ledger();
    let t = store.add_task("contended", 5, &[]).unwrap();
    store
        .set_task_scope(&t.id, &["createPayment".to_string()])
        .unwrap();
    let sym = store.resolve("createPayment").unwrap();
    store
        .acquire(&sym.id, "outsider", &AcquireOptions::default())
        .unwrap();

    let err = store.reassign_task(&t.id, "agent-1", None).unwrap_err();
    assert!(err.text.contains("held by someone else"), "{err:?}");

    // The whole transaction rolled back: task state is untouched, and the
    // outsider's lease is exactly where it was.
    let after = store.task(&t.id).unwrap().unwrap();
    assert_eq!(after.task.state, TaskState::Pending);
    assert!(after.task.assignee.is_none());
    let leases = store.active_leases(None).unwrap();
    assert_eq!(leases.len(), 1);
    assert_eq!(leases[0].agent, "outsider");
}

/// `--preempt` lets an assign override a strictly lower-priority holder,
/// exactly like acquiring directly would.
#[test]
fn schedule_assigning_with_preempt_takes_a_lower_priority_holders_scope() {
    let mut store = ledger();
    let t = store.add_task("contended", 5, &[]).unwrap();
    store
        .set_task_scope(&t.id, &["createPayment".to_string()])
        .unwrap();
    let sym = store.resolve("createPayment").unwrap();
    store
        .acquire(
            &sym.id,
            "outsider",
            &AcquireOptions {
                priority: 1,
                ..Default::default()
            },
        )
        .unwrap();

    let assigned = store
        .assign_task_opts(&t.id, "agent-1", None, true, 9)
        .unwrap();
    assert_eq!(assigned.task.assignee.as_deref(), Some("agent-1"));
    let leases = store.active_leases(None).unwrap();
    assert_eq!(leases.len(), 1);
    assert_eq!(leases[0].agent, "agent-1");
}

/// A task with some leases already held and some scope never claimed
/// (e.g. one symbol was added to its scope after it started running)
/// settles the unheld part without disturbing the transferred part.
#[test]
fn assigning_a_partially_leased_task_settles_the_rest() {
    let mut store = ledger();
    let t = store.add_task("partial", 5, &[]).unwrap();
    store
        .set_task_scope(&t.id, &["createPayment".to_string()])
        .unwrap();
    store.claim_next("agent-1", 300).unwrap().unwrap();
    // Scope grows after the task is already running.
    store.set_task_scope(&t.id, &["refund".to_string()]).unwrap();

    let assigned = store.reassign_task(&t.id, "agent-2", None).unwrap();
    assert_eq!(assigned.task.assignee.as_deref(), Some("agent-2"));
    let mut leases = store.active_leases(None).unwrap();
    leases.sort_by(|a, b| a.symbol_handle.cmp(&b.symbol_handle));
    assert_eq!(leases.len(), 2, "{leases:?}");
    assert!(leases.iter().all(|l| l.agent == "agent-2"));
}

#[test]
fn critical_path_follows_the_longest_dependency_chain() {
    let mut store = ledger();
    let a = store.add_task("a", 5, &[]).unwrap();
    let b = store.add_task("b", 5, std::slice::from_ref(&a.id)).unwrap();
    let c = store.add_task("c", 5, std::slice::from_ref(&b.id)).unwrap();
    // A same-depth distractor: not on the real chain from c back to a.
    store.add_task("distractor", 9, &[]).unwrap();

    let plan = store.plan().unwrap();
    assert_eq!(plan.critical_path, vec![a.id.clone(), b.id.clone(), c.id.clone()]);
}

#[test]
fn critical_path_is_empty_when_nothing_is_pending() {
    let store = ledger();
    assert!(store.plan().unwrap().critical_path.is_empty());
}

#[test]
fn claim_next_in_restricts_to_one_goal() {
    let mut store = ledger();
    let goal = store.add_goal("refunds", 5, None, None).unwrap();
    store
        .goal_decompose(&goal.id, "in the goal", 9, &[], &["createPayment".to_string()])
        .unwrap();
    store.add_task("outside the goal", 5, &[]).unwrap();

    // The unfiltered claim would take the higher-priority task outside
    // the goal; --goal must restrict to the goal's own tasks.
    let claimed = store
        .claim_next_in("agent-1", 300, Some(&goal.id))
        .unwrap()
        .unwrap();
    assert_eq!(claimed.task.task.title, "in the goal");
}

#[test]
fn priority_changes_reorder_the_plan() {
    let mut store = ledger();
    let low = store.add_task("low", 1, &[]).unwrap();
    store.add_task("high", 9, &[]).unwrap();
    assert_eq!(store.plan().unwrap().waves[0].tasks[0].task.task.title, "high");

    store.set_task_priority(&low.id, 99).unwrap();
    assert_eq!(
        store.plan().unwrap().waves[0].tasks[0].task.task.title,
        "low",
        "dragging it to the top is a priority change"
    );
    assert!(store.set_task_priority("T99", 1).is_err());
}

/// A task in review is in no wave and not among the running ones, yet it has to
/// show up somewhere.
#[test]
fn review_state_tasks_are_visible_in_the_plan() {
    let mut store = ledger();
    let t = store.add_task("in review", 5, &[]).unwrap();
    store.reassign_task(&t.id, "agent-1", None).unwrap();
    store.submit_for_review(&t.id, "agent-1").unwrap();

    let plan = store.plan().unwrap();
    assert_eq!(plan.in_review.len(), 1, "{plan:?}");
    assert_eq!(plan.in_review[0].task.task.id, t.id);
    assert!(
        plan.running.iter().all(|s| s.task.task.state != TaskState::Review),
        "review-state tasks belong in in_review, not running"
    );
    assert!(
        plan.waves.iter().flat_map(|w| &w.tasks).all(|s| s.task.task.id != t.id),
        "a task in review must not also appear in a wave"
    );
}

#[test]
fn an_unscoped_task_still_schedules() {
    let mut store = ledger();
    let t = store.add_task("write the docs", 5, &[]).unwrap();
    let claimed = store.claim_next("agent-1", 300).unwrap().unwrap();
    assert_eq!(claimed.task.task.id, t.id);
    assert!(claimed.scope.is_empty());
    assert!(
        store.active_leases(None).unwrap().is_empty(),
        "nothing to lease, so nothing was leased"
    );
}

#[test]
fn a_capability_gated_task_is_invisible_to_a_mismatched_agent() {
    let mut store = ledger();
    let t = store.add_task("write the tests", 9, &[]).unwrap();
    store
        .set_task_required_capability(&t.id, Some(Capability::Testing))
        .unwrap();
    store
        .set_agent_capability("agent-1", Some(Capability::Backend))
        .unwrap();

    // agent-1 is a backend specialist; the testing task must not surface,
    // even though it's the only thing pending and outranks nothing.
    assert!(store.claim_next("agent-1", 300).unwrap().is_none());
}

#[test]
fn a_capability_gated_task_is_claimable_by_a_matching_agent() {
    let mut store = ledger();
    let t = store.add_task("write the tests", 9, &[]).unwrap();
    store
        .set_task_required_capability(&t.id, Some(Capability::Testing))
        .unwrap();
    store
        .set_agent_capability("agent-2", Some(Capability::Testing))
        .unwrap();

    let claimed = store.claim_next("agent-2", 300).unwrap().unwrap();
    assert_eq!(claimed.task.task.id, t.id);
}

#[test]
fn a_generalist_agent_only_sees_uncapped_tasks() {
    let mut store = ledger();
    let gated = store.add_task("write the tests", 9, &[]).unwrap();
    store
        .set_task_required_capability(&gated.id, Some(Capability::Testing))
        .unwrap();
    let open = store.add_task("update the readme", 1, &[]).unwrap();

    // agent-1 has no capability at all — the gated task, despite far
    // outranking the open one, must never be handed to it.
    let claimed = store.claim_next("agent-1", 300).unwrap().unwrap();
    assert_eq!(claimed.task.task.id, open.id);
}

#[test]
fn assign_bypasses_the_capability_gate() {
    let mut store = ledger();
    let t = store.add_task("write the tests", 9, &[]).unwrap();
    store
        .set_task_required_capability(&t.id, Some(Capability::Testing))
        .unwrap();
    store
        .set_agent_capability("agent-1", Some(Capability::Backend))
        .unwrap();

    // assign is the human-override path: a mismatched capability doesn't
    // block a direct hand-off the way `continue` would block a claim.
    let assigned = store.reassign_task(&t.id, "agent-1", None).unwrap();
    assert_eq!(assigned.task.assignee.as_deref(), Some("agent-1"));
}

#[test]
fn a_capability_gated_orphan_returns_to_the_pool_for_anyone_matching() {
    let mut store = ledger();
    let t = store.add_task("write the tests", 9, &[]).unwrap();
    store
        .set_task_required_capability(&t.id, Some(Capability::Testing))
        .unwrap();
    store
        .set_agent_capability("agent-1", Some(Capability::Testing))
        .unwrap();
    store
        .set_agent_capability("agent-2", Some(Capability::Testing))
        .unwrap();
    store.claim_next("agent-1", 300).unwrap().unwrap();

    // agent-1 goes dark.
    store.silence("agent-1");

    let reassigned = store.reassign_orphans().unwrap();
    assert_eq!(reassigned, vec![t.id.clone()]);
    let claimed = store.claim_next("agent-2", 300).unwrap().unwrap();
    assert_eq!(claimed.task.task.id, t.id, "still capability-gated, still claimable by a match");
}

// ------------------------------------------------------------ assigning by hand

/// Two functions and two agents.
fn counter() -> Desk {
    let mut desk = Desk::init(
        &[(
            "src/pay.ts",
            "export function charge(x: number) { return x; }\n\
             export function refund(x: number) { return -x; }\n",
        )],
        Vec::new(),
    );
    desk.join("alice");
    desk.join("bob");
    desk
}

#[test]
fn assigning_into_a_conflict_is_refused_without_preempt() {
    let mut store = counter();
    store.add("fix charge", 0, &[], &["charge"]).unwrap();
    store.take("charge", "bob", 0);

    let err = store.assign("T1", "alice", false, 0).unwrap_err();
    assert!(err.text.contains("held by someone else"));

    // Nothing changed: the task is still unassigned, bob still holds it.
    assert_eq!(store.store.tasks()[0].task.assignee, None);
    assert_eq!(store.active_leases(None).unwrap()[0].agent, "bob");
}

#[test]
fn assign_assigning_with_preempt_takes_a_lower_priority_holders_scope() {
    let mut store = counter();
    store.add("fix charge", 0, &[], &["charge"]).unwrap();
    store.take("charge", "bob", 1);

    let assigned = store.assign("T1", "alice", true, 9).unwrap();
    assert_eq!(assigned.task.assignee.as_deref(), Some("alice"));
    let leases = store.active_leases(None).unwrap();
    assert_eq!(leases.len(), 1);
    assert_eq!(leases[0].agent, "alice");
}

#[test]
fn assigning_a_goal_picks_its_next_startable_task() {
    let mut store = counter();
    store.add_goal("refunds", 9, None, None).unwrap();
    store.decompose("G1", "high", 9, &["charge"]).unwrap();
    store.decompose("G1", "low", 1, &["refund"]).unwrap();

    let assigned = store.assign("G1", "alice", false, 0).unwrap();
    assert_eq!(assigned.task.title, "high", "the highest-priority startable task under the goal");
}

#[test]
fn unknown_agents_and_tasks_are_rejected() {
    let mut store = counter();
    store.add("a", 0, &[], &[]).unwrap();
    assert!(store.assign("T1", "nobody", false, 0).is_err());
    assert!(store.assign("T99", "alice", false, 0).is_err());
}

#[test]
fn a_goal_with_nothing_to_start_is_said_to_have_none() {
    let mut store = counter();
    store.add_goal("refunds", 9, None, None).unwrap();
    let err = store.assign("G1", "alice", false, 0).unwrap_err();
    assert_eq!(err.kind, ErrorKind::NothingStartable);
    assert_eq!(err.text, "no startable task under G1");
}

// --------------------------------------------------------------- goals by command

/// Two services, one of which calls into the other, and two agents.
fn two_services() -> Desk {
    let mut desk = Desk::init(
        &[
            ("lib/src/ledger.ts", "export function record(x: number) { return x; }\n"),
            (
                "api/src/routes.ts",
                "import { record } from '../../lib/src/ledger';\n\
                 export function createPayment(x: number) { return record(x); }\n",
            ),
        ],
        vec![service("payments-api", "api"), service("ledger-lib", "lib")],
    );
    desk.join("alice");
    desk.join("bob");
    desk
}

#[test]
fn decomposing_a_goal_creates_scoped_tasks() {
    let mut store = two_services();
    let goal = store.add_goal("Implement refunds", 9, None, None).unwrap();
    assert_eq!(goal.id, "G1");

    let t1 = store.decompose("G1", "wire the endpoint", 0, &["createPayment"]).unwrap();
    assert_eq!(t1.id, "T1");

    // The scope is real: claiming the task leases it.
    match store.go_on("alice", Some("G1")).unwrap() {
        Continued::Claimed { next } => {
            assert_eq!(next.task.task.id, "T1");
            assert_eq!(next.scope[0].name, "createPayment");
        }
        other => panic!("expected a claim, got {other:?}"),
    }
    assert_eq!(store.active_leases(None).unwrap().len(), 1);
}

#[test]
fn goal_progress_reflects_task_completion() {
    let mut store = two_services();
    store.add_goal("Implement refunds", 0, None, None).unwrap();
    store.decompose("G1", "a", 0, &["createPayment"]).unwrap();
    store.decompose("G1", "b", 0, &["record"]).unwrap();

    assert_eq!(store.goal_progress("G1").unwrap().done, 0);

    store.go_on("alice", Some("G1")).unwrap();
    store.set_task_state("T1", TaskState::Done, Some("alice"), None, false).unwrap();

    let progress = store.goal_progress("G1").unwrap();
    assert_eq!(progress.total, 2);
    assert_eq!(progress.done, 1);
    assert_eq!(progress.done as f64 / progress.total as f64 * 100.0, 50.0);
}

#[test]
fn goal_show_lists_its_tasks() {
    let mut store = two_services();
    store.add_goal("Implement refunds", 0, None, None).unwrap();
    store.decompose("G1", "a", 0, &["createPayment"]).unwrap();
    store.add("unrelated", 0, &[], &[]).unwrap(); // not under the goal

    let ids: Vec<String> = store.goal_tasks("G1").unwrap().into_iter().map(|t| t.task.id).collect();
    assert_eq!(ids, vec!["T1"], "the unrelated task must not show up under G1");
}

#[test]
fn suggest_proposes_tasks_grouped_by_service() {
    let mut store = two_services();
    store.add_goal("Implement refunds", 0, None, None).unwrap();

    let suggestions = store.store.suggest("G1", "createPayment", 2).unwrap();
    let titles: Vec<&str> = suggestions.iter().map(|s| s.title.as_str()).collect();
    assert!(titles.contains(&"Update payments-api"), "{titles:?}");

    // Applying actually creates the tasks instead of just previewing.
    assert!(store.goal_tasks("G1").unwrap().is_empty());
    store.apply("G1", &suggestions).unwrap();
    assert!(!store.goal_tasks("G1").unwrap().is_empty());
}

#[test]
fn plan_proposes_tasks_from_the_goal_title_alone() {
    let mut store = two_services();
    store.add_goal("Handle payments", 0, None, None).unwrap();

    let suggestions = store.plan_goal("G1", 2).unwrap();
    let titles: Vec<&str> = suggestions.iter().map(|s| s.title.as_str()).collect();
    assert!(titles.contains(&"Update payments-api"), "{titles:?}");

    store.apply("G1", &suggestions).unwrap();
    assert!(!store.goal_tasks("G1").unwrap().is_empty());
}

#[test]
fn plan_with_no_keyword_match_reports_nothing_and_exits_1() {
    let mut store = two_services();
    store.add_goal("Improve team morale", 0, None, None).unwrap();

    let suggestions = store.plan_goal("G1", 2).unwrap();
    assert_eq!(Exit::of(!suggestions.is_empty()).code(), 1);
    assert!(suggestions.is_empty());
}

#[test]
fn unknown_goals_are_rejected_everywhere() {
    let mut store = two_services();
    assert!(store.goal_progress("G99").is_err());
    assert!(store.decompose("G99", "x", 0, &[]).is_err());
    let err = store.store.suggest("G99", "createPayment", 2).unwrap_err();
    assert_eq!(err.text, "no such goal: G99");
    assert!(store.plan_goal("G99", 2).is_err());
}

#[test]
fn done_and_abandon_change_goal_state() {
    let mut store = two_services();
    store.add_goal("a", 0, None, None).unwrap();
    store.add_goal("b", 0, None, None).unwrap();

    let done = store.set_goal_state("G1", GoalState::Done).unwrap();
    assert_eq!(done.state.as_str(), "done");
    let abandoned = store.set_goal_state("G2", GoalState::Abandoned).unwrap();
    assert_eq!(abandoned.state.as_str(), "abandoned");
}

#[test]
fn suggestions_stop_where_one_cannot_be_made() {
    let mut store = two_services();
    store.add_goal("a", 0, None, None).unwrap();
    let some = vec![
        TaskSuggestion { title: "good".to_string(), symbols: vec!["record".to_string()] },
        TaskSuggestion { title: "bad".to_string(), symbols: vec!["nowhere".to_string()] },
        TaskSuggestion { title: "never".to_string(), symbols: Vec::new() },
    ];
    assert!(store.apply("G1", &some).is_err());
    let titles: Vec<String> = store.goal_tasks("G1").unwrap().into_iter().map(|t| t.task.title).collect();
    assert!(titles.contains(&"good".to_string()));
    assert!(!titles.contains(&"never".to_string()));
}

// ------------------------------------------------------------------- negotiating

const PAYMENT_SOURCE: &str = r#"
export class PaymentService {
  async processPayment(id: string) { return charge(id); }
  async refund(id: string) { return 0; }
}
export function charge(id: string) { return 1; }
"#;

fn two_parties() -> Desk {
    let mut desk = Desk::init(&[("src/pay.ts", PAYMENT_SOURCE)], Vec::new());
    desk.register_agent("nova-1", "aider").unwrap();
    desk.register_agent("cursor-1", "cursor").unwrap();
    desk
}

/// The headline flow: blocked agent asks, holder agrees, ownership moves —
/// and the symbol is never unowned in between.
#[test]
fn an_agent_can_ask_for_a_lease_and_be_given_it() {
    let mut store = two_parties();
    let held = store
        .acquire_ref(
            "charge",
            "nova-1",
            &AcquireOptions {
                task: Some("stripe".to_string()),
                ..Default::default()
            },
        )
        .unwrap();
    let original_lease = held.outcome.lease().unwrap().id.clone();

    let req = store.ask_for("charge", "cursor-1", Some("hotfix for prod"), 300, 9).unwrap();
    assert_eq!(req.to.as_deref(), Some("nova-1"), "routed to the current holder");
    assert_eq!(req.state.as_str(), "open");
    assert_eq!(req.body.text("current_task").as_deref(), Some("stripe"), "the ask carries context");

    // The holder sees it in an inbox, without being told where to look.
    let inbox = store.requests(Some("nova-1"), Direction::Inbox, true).unwrap();
    assert_eq!(inbox[0].id, req.id);

    let accepted = store.accept_request(&req.id, "nova-1", None).unwrap();
    assert_eq!(accepted.state.as_str(), "fulfilled");

    let leases = store.active_leases(None).unwrap();
    assert_eq!(leases.len(), 1);
    assert_eq!(leases[0].agent, "cursor-1");
    assert_eq!(
        leases[0].id, original_lease,
        "the same lease changed hands; it was never released"
    );
}

/// A queued third party must not be able to steal the symbol during a handoff.
#[test]
fn a_handoff_cannot_be_sniped_by_a_waiting_agent() {
    let mut store = two_parties();
    store.take("charge", "nova-1", 0);
    // A third agent is queued and polling.
    let third = store.acquire_ref("charge", "third", &AcquireOptions::default()).unwrap();
    assert_eq!(after_attempt(&third.outcome, false), Step::Stop(Exit::Denied));

    let req = store.ask_for("charge", "cursor-1", None, 300, 0).unwrap();
    store.accept_request(&req.id, "nova-1", None).unwrap();

    let leases = store.active_leases(None).unwrap();
    assert_eq!(leases[0].agent, "cursor-1", "the requester got it, not the queue");
    let third = store.acquire_ref("charge", "third", &AcquireOptions::default()).unwrap();
    assert_eq!(after_attempt(&third.outcome, false), Step::Stop(Exit::Denied));
}

#[test]
fn a_declined_request_leaves_ownership_alone_and_says_why() {
    let mut store = two_parties();
    store.take("charge", "nova-1", 0);
    let req = store.ask_for("charge", "cursor-1", None, 300, 0).unwrap();

    let declined = store.decline_request(&req.id, "nova-1", Some("mid-refactor, ~90s")).unwrap();
    assert_eq!(declined.state.as_str(), "declined");
    assert_eq!(declined.response.unwrap().text("reason").as_deref(), Some("mid-refactor, ~90s"));
    assert_eq!(store.active_leases(None).unwrap()[0].agent, "nova-1");

    // Waiting on a declined request fails fast rather than hanging.
    assert_eq!(after_look(declined.state, true), Step::Stop(Exit::Denied));
}

/// The holder never has to remember who was waiting.
#[test]
fn releasing_a_symbol_answers_the_agent_who_asked_for_it() {
    let mut store = two_parties();
    store.take("charge", "nova-1", 0);
    let req = store.ask_for("charge", "cursor-1", None, 300, 0).unwrap();

    let t = store.tick();
    store.store.release_meant(&None, true, "nova-1", t.now).unwrap();

    let after = store.request(&req.id).unwrap().unwrap();
    assert_eq!(after.state.as_str(), "fulfilled");
    assert!(matches!(after.response.as_ref().unwrap().get("symbol_free"), Some(Json::Bool(true))));
    // And the waiting process exits 0 immediately.
    assert_eq!(after_look(after.state, true), Step::Stop(Exit::Success));
}

#[test]
fn an_interface_request_is_accepted_then_delivered() {
    let mut store = two_parties();
    let t = store.tick();
    let req = store
        .store
        .ask_for_interface(
            "cursor-1",
            &InterfaceAsk {
                resource: "PaymentProvider".to_string(),
                to: Some("nova-1".to_string()),
                methods: vec!["authorize".to_string(), "capture".to_string(), "refund".to_string()],
                deadline: 300,
                priority: 0,
                task: None,
            },
            t,
        )
        .unwrap();
    match req.body.get("methods") {
        Some(Json::Arr(methods)) => assert!(matches!(&methods[2], Json::Str(s) if s == "refund")),
        other => panic!("expected a list, got {other:?}"),
    }

    let accepted = store.accept_request(&req.id, "nova-1", None).unwrap();
    assert_eq!(accepted.state.as_str(), "accepted", "committed, not yet delivered");
    assert_eq!(after_look(accepted.state, true), Step::Again);

    let delivered = store
        .fulfill_request(
            &req.id,
            "nova-1",
            Some(
                Json::object()
                    .with("version", Json::Int(2))
                    .with("breaking_changes", Json::Bool(false)),
            ),
        )
        .unwrap();
    assert_eq!(delivered.state.as_str(), "fulfilled");
    assert!(matches!(delivered.response.as_ref().unwrap().get("version"), Some(Json::Int(2))));
    assert_eq!(after_look(delivered.state, true), Step::Stop(Exit::Success));
}

#[test]
fn a_dependency_request_clears_when_the_task_is_done() {
    let mut store = two_parties();
    store.add("provider interface", 5, &[], &[]).unwrap();
    let t = store.tick();
    let req = store
        .store
        .depend("cursor-1", "T1", &owned(Some("nova-1")), &owned(Some("need authorize()")), 300, t)
        .unwrap();
    assert_eq!(req.resource_task.as_deref(), Some("T1"));

    store.set_task_state("T1", TaskState::Done, Some("nova-1"), None, false).unwrap();
    let after = store.request(&req.id).unwrap().unwrap();
    assert_eq!(after.state.as_str(), "fulfilled");
    assert_eq!(after.response.unwrap().text("task").as_deref(), Some("T1"));
}

#[test]
fn depending_on_an_unknown_task_is_refused() {
    let mut store = two_parties();
    let t = store.tick();
    let err = store.store.depend("cursor-1", "T9", &None, &None, 300, t).unwrap_err();
    assert_eq!(err.kind, ErrorKind::NoSuchTask);
    assert_eq!(err.text, "no such task: T9");
}

#[test]
fn an_unanswered_request_expires_instead_of_blocking_forever() {
    let mut store = two_parties();
    store.take("charge", "nova-1", 0);
    let req = store.ask_for("charge", "cursor-1", None, 1, 0).unwrap();

    // The waiter looks again until the deadline lapses, and then gives up.
    assert_eq!(after_look(req.state, true), Step::Again);
    store.wait_ms(2_000);
    let t = store.tick();
    store.store.sweep(t.now);
    let late = store.request(&req.id).unwrap().unwrap();
    assert_eq!(after_look(late.state, true), Step::Stop(Exit::Denied));
    assert_eq!(late.state.as_str(), "expired");
    // Too late to answer.
    assert!(store.accept_request(&req.id, "nova-1", None).is_err());
}

#[test]
fn transfer_is_available_directly_without_a_request() {
    let mut store = two_parties();
    store.take("charge", "nova-1", 0);
    let t = store.tick();
    let moved = store.store.transfer_meant("charge", "nova-1", "cursor-1", t.now).unwrap();
    assert_eq!(moved.agent, "cursor-1");
    // Only the holder may give it away.
    let t = store.tick();
    assert!(store.store.transfer_meant("charge", "nova-1", "third", t.now).is_err());
}

#[test]
fn broadcast_requests_reach_every_other_agent() {
    let mut store = two_parties();
    let t = store.tick();
    let q = NewRequest {
        body: Json::object().with("area", Json::str("ledger")),
        ..NewRequest::new(request_kind::QUESTION, "cursor-1", "who owns the ledger schema?")
    };
    let req = store.store.ask(&q, &None, t).unwrap();
    assert!(req.to.is_none());

    assert_eq!(store.requests(Some("nova-1"), Direction::Inbox, true).unwrap().len(), 1);
    assert!(
        store.requests(Some("cursor-1"), Direction::Inbox, true).unwrap().is_empty(),
        "your own broadcast is not your inbox"
    );
    store
        .fulfill_request(&req.id, "nova-1", Some(Json::object().with("owner", Json::str("nova-1"))))
        .unwrap();
    let after = store.request(&req.id).unwrap().unwrap();
    assert_eq!(after.response.unwrap().text("owner").as_deref(), Some("nova-1"));
}

#[test]
fn asking_about_a_named_symbol_resolves_it_first() {
    let mut store = two_parties();
    let charge = store.resolve("charge").unwrap();
    let q = NewRequest::new(request_kind::QUESTION, "cursor-1", "why?");
    let t = store.tick();
    let req = store.store.ask(&q, &Some("charge".to_string()), t).unwrap();
    assert_eq!(req.resource_symbol, Some(charge.id));
    let t = store.tick();
    assert!(store.store.ask(&q, &Some("nowhere".to_string()), t).is_err());
}

#[test]
fn reported_progress_names_its_symbol_and_keeps_the_lease_alive() {
    let mut store = two_parties();
    store.take("charge", "nova-1", 0);
    let before = store.active_leases(None).unwrap()[0].expires_at;
    store.wait_ms(1_100);
    let t = store.tick();
    store
        .store
        .report(
            "nova-1",
            &None,
            &Some("charge".to_string()),
            Some(60),
            Some(120),
            &Some("authorize() done".to_string()),
            t.now,
        )
        .unwrap();
    let latest = store.latest_progress().unwrap();
    assert_eq!(latest[0].agent, "nova-1");
    assert_eq!(latest[0].percent, Some(60));
    assert_eq!(latest[0].symbol_handle.as_deref(), Some("src/pay.ts:charge"));
    assert!(store.active_leases(None).unwrap()[0].expires_at > before);
}

#[test]
fn a_lease_is_meant_by_its_id_or_by_its_symbol() {
    let mut store = two_parties();
    let taken = store.acquire_ref("charge", "nova-1", &AcquireOptions::default()).unwrap();
    let id = taken.outcome.lease().unwrap().id.clone();
    assert_eq!(store.store.resolve_lease(&id, "nova-1").unwrap(), id);
    assert_eq!(store.store.resolve_lease("charge", "nova-1").unwrap(), id);
    let err = store.store.resolve_lease("charge", "cursor-1").unwrap_err();
    assert_eq!(err.kind, ErrorKind::NoSuchLease);
    assert_eq!(err.text, "cursor-1 holds no lease on src/pay.ts:charge");

    let t = store.tick();
    let err = store.store.release_meant(&None, false, "nova-1", t.now).unwrap_err();
    assert_eq!(err.kind, ErrorKind::NothingNamed);
    assert_eq!(err.text, "pass a lease id, a symbol, or --all");
    let t = store.tick();
    let freed = store.store.release_meant(&Some("charge".to_string()), false, "nova-1", t.now).unwrap();
    assert_eq!(freed.len(), 1);
    assert_eq!(freed[0].id, id);
}

// ------------------------------------------------------------ scheduling by command

#[test]
fn dependencies_are_inferred_from_the_code_not_declared() {
    let mut store = ledger();
    store.add("wire the endpoint", 9, &[], &["createPayment"]).unwrap();
    store.add("write the ledger", 1, &[], &["record"]).unwrap();

    let inferred = store.infer_dependencies().unwrap();
    assert_eq!(inferred.len(), 1, "{inferred:?}");
    assert_eq!(inferred[0].task, "T1");
    assert_eq!(inferred[0].depends_on, "T2");
    assert_eq!(inferred[0].edge.as_str(), "calls");

    // The high-priority caller is now in the second wave, behind its callee.
    let plan = store.plan().unwrap();
    assert_eq!(plan.waves[0].tasks[0].task.task.id, "T2");
    assert_eq!(plan.waves[1].tasks[0].task.task.id, "T1");
    assert_eq!(plan.startable_now, 1);
}

/// The core scheduling promise: never hand two agents colliding work.
#[test]
fn work_held_by_someone_else_is_skipped_not_handed_out() {
    let mut store = ledger();
    store.add("hot", 9, &[], &["createPayment"]).unwrap();
    store.add("cold", 1, &[], &["refund"]).unwrap();
    store.take("createPayment", "outsider", 0);

    // The higher-priority task is ready but unsafe, so the agent gets the other.
    let claimed = store.claim_next("agent-1", 300).unwrap().unwrap();
    assert_eq!(claimed.task.task.id, "T2", "the contended task must be skipped");

    let plan = store.plan().unwrap();
    let hot = plan.waves[0]
        .tasks
        .iter()
        .find(|t| t.task.task.id == "T1")
        .expect("T1 is still in wave 1");
    assert!(hot.task.ready, "its dependencies are satisfied");
    assert_eq!(hot.contended_by.as_ref().unwrap().holder, "outsider");
}

#[test]
fn containment_counts_as_a_collision() {
    let mut store = ledger();
    store.add("edit a function", 0, &[], &["createPayment"]).unwrap();
    // Holding the whole file must block a task scoped to a function in it.
    store.take("src/pay.ts", "outsider", 0);

    let claimed = store.claim_next("agent-1", 300).unwrap();
    assert_eq!(Exit::of(claimed.is_some()).code(), 1);
    assert!(
        idle_reason(&store.plan().unwrap()).contains("held by other agents"),
        "the refusal should say why"
    );
}

#[test]
fn two_agents_are_given_different_work() {
    let mut store = ledger();
    for (title, sym) in [("a", "createPayment"), ("b", "refund"), ("c", "record")] {
        store.add(title, 0, &[], &[sym]).unwrap();
    }
    let first = store.claim_next("agent-1", 300).unwrap().unwrap();
    let second = store.claim_next("agent-2", 300).unwrap().unwrap();
    assert_ne!(first.task.task.id, second.task.task.id);
    assert_eq!(store.active_leases(None).unwrap().len(), 2);
}

#[test]
fn finishing_releases_the_scope_and_can_pull_the_next_task() {
    let mut store = ledger();
    store.add("first", 9, &[], &["createPayment"]).unwrap();
    store.add("second", 5, &[], &["refund"]).unwrap();
    store.claim_next("agent-1", 300).unwrap();

    store.set_task_state("T1", TaskState::Done, Some("agent-1"), None, false).unwrap();
    match store.go_on("agent-1", None).unwrap() {
        Continued::Claimed { next } => {
            assert_eq!(next.task.task.id, "T2", "it should have claimed the next task")
        }
        other => panic!("expected a claim, got {other:?}"),
    }

    let leases = store.active_leases(None).unwrap();
    assert_eq!(leases.len(), 1, "T1's scope was released");
    assert_eq!(leases[0].task.as_deref(), Some("T2"));
}

#[test]
fn a_dependency_cycle_is_reported_rather_than_silently_stalling() {
    let mut store = ledger();
    store.add("a", 0, &[], &[]).unwrap();
    store.add("b", 0, &["T1"], &[]).unwrap();
    assert!(store.add("c", 0, &["T2", "T99"], &[]).is_err(), "unknown deps are rejected");

    let plan = store.plan().unwrap();
    assert!(plan.cycles.is_empty());
    assert_eq!(plan.waves.len(), 2);
    assert_eq!(plan.max_parallel, 1);
}

#[test]
fn an_unscoped_task_is_still_scheduled_and_leases_nothing() {
    let mut store = ledger();
    store.add("write the docs", 0, &[], &[]).unwrap();
    let claimed = store.claim_next("agent-1", 300).unwrap().unwrap();
    assert_eq!(claimed.task.task.id, "T1");
    assert!(claimed.scope.is_empty());
    assert!(store.active_leases(None).unwrap().is_empty());
}

#[test]
fn scoping_accepts_any_symbol_reference_and_rejects_unknown_ones() {
    let mut store = ledger();
    store.add("a", 0, &[], &[]).unwrap();
    // A path:Fqn handle works as well as a bare name.
    let scoped = store.set_task_scope("T1", &["src/pay.ts:refund".to_string()]).unwrap();
    assert_eq!(scoped[0].name, "refund");

    assert!(store.set_task_scope("T1", &["doesNotExist".to_string()]).is_err());
    assert!(store.set_task_scope("T99", &["refund".to_string()]).is_err());
}

#[test]
fn going_on_renews_what_there_is() {
    let mut store = ledger();
    store.add("first", 9, &[], &["createPayment"]).unwrap();
    store.add("second", 5, &[], &["refund"]).unwrap();
    store.go_on("agent-1", None).unwrap();
    let before = store.active_leases(None).unwrap()[0].expires_at;
    store.wait_ms(1_000);
    match store.go_on("agent-1", None).unwrap() {
        Continued::Renewed { task, leases } => {
            assert_eq!(task, "T1");
            assert_eq!(leases.len(), 1);
            assert!(leases[0].expires_at > before);
        }
        other => panic!("expected a renewal, got {other:?}"),
    }
    assert!(store.task("T2").unwrap().unwrap().task.assignee.is_none());
}

#[test]
fn an_idle_agent_is_told_that_nothing_is_ready() {
    let mut store = ledger();
    let r = store.go_on("agent-1", None).unwrap();
    assert_eq!(r.exit(), Exit::Denied);
    assert_eq!(
        idle_reason(&store.plan().unwrap()),
        "nothing is ready — every task is blocked, taken or done"
    );
}

#[test]
fn a_role_is_taken_by_its_word() {
    let mut store = ledger();
    let t = store.tick();
    let a = store.store.join("tess", "cursor", &Some("testing".to_string()), t.now).unwrap();
    assert_eq!(a.capability, Some(Capability::Testing));
    let t = store.tick();
    let err = store.store.join("zed", "cursor", &Some("juggling".to_string()), t.now).unwrap_err();
    assert_eq!(err.kind, ErrorKind::UnknownWord);
    assert_eq!(err.text, "unknown capability: juggling");
    assert!(store.store.agent("zed").is_some(), "joining comes first");
}

#[test]
fn a_task_can_be_added_with_what_it_takes() {
    let mut store = ledger();
    let t = store.tick();
    let added = store
        .store
        .add_scoped_task(
            "write the tests",
            3,
            &Vec::new(),
            &vec!["record".to_string()],
            &Some("testing".to_string()),
            t.now,
        )
        .unwrap();
    assert_eq!(added.task.required_capability, Some(Capability::Testing));
    assert_eq!(added.scope[0].name, "record");
    assert!(store.claim_next("agent-1", 300).unwrap().is_none());
}

// -------------------------------------------------------------- looking at work

fn desk_with_critic() -> Desk {
    let mut desk = Desk::init(
        &[("src/pay.ts", "export function charge(x: number) { return x; }\n")],
        Vec::new(),
    );
    desk.join("author");
    desk.join("critic");
    desk.add("fix charge", 0, &[], &["charge"]).unwrap();
    desk.claim_next("author", 300).unwrap().unwrap();
    desk
}

#[test]
fn submit_then_approve_releases_leases_and_unblocks_dependents() {
    let mut store = desk_with_critic();

    // Someone is blocked until the task is finished.
    let t = store.tick();
    store.store.depend("waiter", "T1", &owned(Some("author")), &None, 300, t).unwrap();

    let submitted = store.submit_for_review("T1", "author").unwrap();
    assert_eq!(submitted.task.state.as_str(), "review");
    assert_eq!(store.active_leases(None).unwrap().len(), 1, "leases held through review");

    let t = store.tick();
    let approved = store.store.approve_review("T1", "critic", false, t.now).unwrap();
    assert_eq!(approved.task.state.as_str(), "done");
    assert!(store.active_leases(None).unwrap().is_empty());

    let waiting = store.requests(Some("waiter"), Direction::Outbox, false).unwrap();
    assert_eq!(
        waiting[0].state.as_str(),
        "fulfilled",
        "the dependency should resolve on full approval"
    );
}

#[test]
fn submit_then_reject_reopens_the_task_and_notifies_the_assignee() {
    let mut store = desk_with_critic();
    store.submit_for_review("T1", "author").unwrap();

    let t = store.tick();
    let rejected = store
        .store
        .reject_review("T1", "critic", &owned(Some("missing a null check")), t)
        .unwrap();
    assert_eq!(rejected.task.state.as_str(), "running");
    assert_eq!(rejected.task.assignee.as_deref(), Some("author"));
    assert_eq!(
        store.active_leases(None).unwrap().len(),
        1,
        "the assignee keeps their leases through a rejection"
    );

    let inbox = store.requests(Some("author"), Direction::Inbox, true).unwrap();
    assert_eq!(inbox[0].kind, "review");
    assert_eq!(inbox[0].body.text("reason").as_deref(), Some("missing a null check"));
}

#[test]
fn submitted_work_is_listed() {
    let mut store = desk_with_critic();
    assert!(store.store.tasks_in_review().is_empty());
    store.submit_for_review("T1", "author").unwrap();
    assert_eq!(store.plan().unwrap().in_review[0].task.task.id, "T1");
    assert_eq!(store.store.tasks_in_review()[0].task.id, "T1");
}

#[test]
fn direct_task_done_still_works_without_opting_into_review() {
    let mut store = desk_with_critic();
    let done = store.set_task_state("T1", TaskState::Done, Some("author"), None, false).unwrap();
    assert_eq!(done.task.state.as_str(), "done");
}

#[test]
fn only_the_assignee_can_submit_and_they_cannot_approve_without_force() {
    let mut store = desk_with_critic();

    assert!(store.submit_for_review("T1", "critic").is_err());
    store.submit_for_review("T1", "author").unwrap();

    let t = store.tick();
    let err = store.store.approve_review("T1", "author", false, t.now).unwrap_err();
    assert_eq!(err.kind, ErrorKind::OwnWork);
    let t = store.tick();
    assert!(store.store.approve_review("T1", "author", true, t.now).is_ok());
}

#[test]
fn review_state_tasks_are_visible_in_observe_and_schedule() {
    let mut store = desk_with_critic();
    store.submit_for_review("T1", "author").unwrap();

    let plan = store.plan().unwrap();
    assert_eq!(plan.in_review[0].task.task.id, "T1");

    let t = store.tick();
    let seen = store.store.observe(&None, t.now);
    let observed = plan_line(&seen.plan);
    assert!(observed.contains("in review"), "{observed}");
    assert_eq!(observed, "0 running, 1 in review, 0 can start now");
    assert_eq!(seen.agents.len(), 2);
    assert_eq!(seen.tasks[0].task.id, "T1");

    let listed = store.store.tasks_in_review();
    assert_eq!(listed[0].task.id, "T1");
}

#[test]
fn a_dependency_that_would_close_a_loop_is_reported_but_not_created() {
    let mut store = ledger();
    let a = store.add_task("a", 0, &[]).unwrap();
    let b = store.add_task("b", 0, std::slice::from_ref(&a.id)).unwrap();
    store.set_task_scope(&a.id, &["createPayment".to_string()]).unwrap();
    store.set_task_scope(&b.id, &["record".to_string()]).unwrap();

    for _ in 0..2 {
        let found = store.infer_dependencies().unwrap();
        assert_eq!(found.len(), 1, "{found:?}");
        assert_eq!((found[0].task.as_str(), found[0].depends_on.as_str()), (a.id.as_str(), b.id.as_str()));
        assert!(store.task(&a.id).unwrap().unwrap().task.deps.is_empty());
        assert!(store.dependency_cycles().unwrap().is_empty());
    }
}

#[test]
fn work_that_is_done_is_part_of_no_cycle() {
    let mut store = ledger();
    let a = store.add_task("a", 0, &[]).unwrap();
    let b = store.add_task("b", 0, std::slice::from_ref(&a.id)).unwrap();
    store.store.task_deps.push(Link { left: a.id.clone(), right: b.id.clone() });
    store.set_task_state(&a.id, TaskState::Done, None, None, true).unwrap();
    assert!(store.dependency_cycles().unwrap().is_empty());
    let plan = store.plan().unwrap();
    assert_eq!(plan.waves[0].tasks[0].task.task.id, b.id, "it waits for nothing any more");
}

#[test]
fn only_submitted_work_can_be_judged() {
    let mut store = desk_with_critic();
    let t = store.tick();
    let err = store.store.approve_review("T1", "critic", false, t.now).unwrap_err();
    assert_eq!(err.kind, ErrorKind::NotInReview);
    let t = store.tick();
    let err = store.store.reject_review("T7", "critic", &None, t).unwrap_err();
    assert_eq!(err.kind, ErrorKind::NoSuchTask);
}
