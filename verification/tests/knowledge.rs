//! What the index knows: scanning, the architecture picture, and notices.

use golab::arch::{Activity, ArchEdge, ArchGraph, ArchKind, ArchNode, ArchRef, NodeDetail};
use golab::command::{optional_agent, require_agent, Exit, Taken};
use golab::graph::Neighbors;
use golab::guard::GuardReport;
use golab::hooks::{str_at, EditWindow, HookAnswer, Note, EDITING};
use golab::ids::DEFAULT_REPO_ID;
use golab::index::Service;
use golab::json::Json;
use golab::lease::AcquireOptions;
use golab::model::{EdgeKind, Goal, Lease, Request, Role, Symbol, SymbolKind, Task};
use golab::notice::{Notice, Severity};
use golab::parse::parse_path;
use golab::protocol::NewRequest;
use golab::request_kind;
use golab::scan::{scan, RoleHit, ScanInput, ScanStats, SourceFile};
use golab::store::{Store, StoreError, Tick};

type Got<T> = Result<T, StoreError>;

/// The files of a repository, with what is known of them beyond their text.
#[derive(Default)]
struct Files {
    bodies: Vec<(String, String)>,
    services: Vec<Service>,
    /// Path, symbol and route of each endpoint.
    endpoints: Vec<(String, String, String, String)>,
    /// Path and symbol of each test.
    tests: Vec<(String, String)>,
}

impl Files {
    fn of(files: &[(&str, &str)]) -> Files {
        let mut out = Files::default();
        for (path, body) in files {
            out.write(path, body);
        }
        out
    }

    fn write(&mut self, path: &str, body: &str) {
        self.remove(path);
        self.bodies.push((path.to_string(), body.to_string()));
        self.bodies.sort();
    }

    fn remove(&mut self, path: &str) {
        self.bodies.retain(|(p, _)| p != path);
    }

    fn service(mut self, name: &str, dir: &str, manifest: &str) -> Files {
        self.services.push(Service {
            name: name.to_string(),
            manifest: format!("{dir}/{manifest}"),
            ecosystem: "npm".to_string(),
            dir: dir.to_string(),
        });
        self
    }

    fn endpoint(mut self, path: &str, symbol: &str, method: &str, route: &str) -> Files {
        self.endpoints.push((path.to_string(), symbol.to_string(), method.to_string(), route.to_string()));
        self
    }

    fn test(mut self, path: &str, symbol: &str) -> Files {
        self.tests.push((path.to_string(), symbol.to_string()));
        self
    }

    fn input(&self) -> ScanInput {
        let mut sql = Vec::new();
        let mut sources = Vec::new();
        for (path, body) in &self.bodies {
            let place = |name: &str| {
                let parsed = parse_path(path, body.as_bytes()).unwrap();
                parsed.symbols.iter().position(|s| s.name == name).unwrap()
            };
            let file = SourceFile {
                path: path.clone(),
                bytes: Some(body.as_bytes().to_vec()),
                tests: self
                    .tests
                    .iter()
                    .filter(|(p, _)| p == path)
                    .map(|(_, name)| RoleHit { symbol: place(name), meta: Json::object() })
                    .collect(),
                endpoints: self
                    .endpoints
                    .iter()
                    .filter(|(p, ..)| p == path)
                    .map(|(_, name, method, route)| RoleHit {
                        symbol: place(name),
                        meta: Json::object()
                            .with("method", Json::str(method))
                            .with("path", Json::str(route)),
                    })
                    .collect(),
                test_file: path.contains("test"),
            };
            if golab::sql::is_sql_path(path) {
                sql.push(file);
            } else {
                sources.push(file);
            }
        }
        let services = self
            .services
            .iter()
            .map(|s| Service {
                name: s.name.clone(),
                manifest: s.manifest.clone(),
                ecosystem: s.ecosystem.clone(),
                dir: s.dir.clone(),
            })
            .collect();
        ScanInput { services: Some(services), sql, sources }
    }
}

/// A store, and a clock that moves on a little with every operation.
struct Desk {
    store: Store,
    now: i64,
    live: Vec<Activity>,
}

fn owned(s: Option<&str>) -> Option<String> {
    s.map(|x| x.to_string())
}

impl Desk {
    fn init() -> Desk {
        let mut desk = Desk { store: Store::new(), now: 1_700_000_000_000, live: Vec::new() };
        desk.store.ensure_default_repo(desk.now);
        desk
    }

    fn tick(&mut self) -> Tick {
        assert!(self.store.check(), "every operation starts from a sound store");
        self.now += 1;
        Tick { now: self.now, nanos: (self.now as u64) * 1_000_000, pid: 4321 }
    }

    fn scan(&mut self, repo: &str, files: &Files, force: bool) -> ScanStats {
        let t = self.tick();
        scan(&mut self.store, repo, &files.input(), force, t.now)
    }

    fn resolve(&self, query: &str) -> Got<Symbol> {
        self.store.resolve(query)
    }

    fn symbol(&self, id: &str) -> Got<Option<Symbol>> {
        Ok(self.store.symbol(id))
    }

    fn ancestors(&self, id: &str) -> Got<Vec<Symbol>> {
        Ok(self.store.ancestors(id))
    }

    fn descendants(&self, id: &str) -> Got<Vec<Symbol>> {
        Ok(self.store.descendants(id))
    }

    fn neighbors(&self, id: &str) -> Got<Neighbors> {
        Ok(self.store.neighbors(id))
    }

    fn register_agent(&mut self, name: &str, kind: &str) {
        let t = self.tick();
        self.store.register_agent(name, kind, t.now);
    }

    fn acquire_ref(&mut self, query: &str, agent: &str, opts: &AcquireOptions) -> Got<Taken> {
        let t = self.tick();
        self.store.acquire_ref(query, agent, opts, t)
    }

    fn active_leases(&self, agent: Option<&str>) -> Got<Vec<Lease>> {
        Ok(self.store.active_leases(&owned(agent)))
    }

    fn add_goal(&mut self, title: &str, priority: i64) -> Got<Goal> {
        let t = self.tick();
        self.store.add_goal(title, priority, &None, &None, t.now)
    }

    fn goal_decompose(&mut self, goal: &str, title: &str, priority: i64, symbols: &[String]) -> Got<Task> {
        let t = self.tick();
        self.store.goal_decompose(goal, title, priority, &Vec::new(), &symbols.to_vec(), t.now)
    }

    fn open_request(&mut self, req: &NewRequest) -> Got<Request> {
        let t = self.tick();
        self.store.open_request(req, t)
    }

    fn request_lease_transfer(&mut self, symbol: &str, from: &str, reason: &str, priority: i64) -> Got<Request> {
        let t = self.tick();
        self.store.request_lease_transfer(symbol, from, &owned(Some(reason)), None, priority, &None, t)
    }

    fn architecture(&self, depth: usize) -> ArchGraph {
        self.store.architecture(&None, depth, &self.live, self.now)
    }

    fn arch_node(&self, id: &str, depth: usize) -> Got<NodeDetail> {
        self.store.arch_node(id, depth, &self.live, self.now)
    }

    fn notifications(&self, audience: Option<&str>, limit: usize) -> Vec<Notice> {
        self.store.notifications(&owned(audience), limit, self.now)
    }
}

// -------------------------------------------------------------------- scanning

#[test]
fn scan_indexes_symbols_and_containment() {
    let files = Files::of(&[(
        "src/pay.ts",
        "export class PaymentService {\n  processPayment(id: string) { return charge(id); }\n}\nexport function charge(id: string) { return 1; }\n",
    )]);
    let mut store = Desk::init();
    let stats = store.scan(DEFAULT_REPO_ID, &files, false);
    assert_eq!(stats.files_indexed, 1);

    let file = store.resolve("src/pay.ts").unwrap();
    assert_eq!(file.kind, SymbolKind::File);

    let method = store.resolve("PaymentService.processPayment").unwrap();
    assert_eq!(method.kind, SymbolKind::Method);

    let ancestors: Vec<String> = store
        .ancestors(&method.id)
        .unwrap()
        .into_iter()
        .map(|s| s.name)
        .collect();
    assert!(ancestors.contains(&"PaymentService".to_string()), "{ancestors:?}");
    assert!(ancestors.contains(&"pay.ts".to_string()), "{ancestors:?}");

    let descendants = store.descendants(&file.id).unwrap();
    assert!(descendants.iter().any(|s| s.name == "processPayment"));
    assert!(!store.store.edges.is_empty());
}

#[test]
fn rescanning_unchanged_files_is_a_no_op() {
    let files = Files::of(&[("a.py", "def f():\n    return 1\n")]);
    let mut store = Desk::init();
    store.scan(DEFAULT_REPO_ID, &files, false);
    let again = store.scan(DEFAULT_REPO_ID, &files, false);
    assert_eq!(again.files_indexed, 0);
    assert_eq!(again.files_unchanged, 1);
}

#[test]
fn ids_survive_body_edits_but_not_renames() {
    let mut files = Files::of(&[("a.py", "def f():\n    return 1\n")]);
    let mut store = Desk::init();
    store.scan(DEFAULT_REPO_ID, &files, false);
    let before = store.resolve("f").unwrap();

    files.write("a.py", "def f():\n    return 999\n");
    store.scan(DEFAULT_REPO_ID, &files, false);
    let after = store.resolve("f").unwrap();
    assert_eq!(before.id, after.id, "identity must survive a body edit");
    assert_ne!(before.body_hash, after.body_hash);

    files.write("a.py", "def g():\n    return 999\n");
    store.scan(DEFAULT_REPO_ID, &files, false);
    assert!(store.symbol(&before.id).unwrap().is_none(), "renamed symbol should be pruned");
    assert!(store.resolve("g").is_ok());
}

#[test]
fn deleting_a_file_prunes_its_symbols() {
    let mut files = Files::of(&[("a.py", "def f():\n    pass\n")]);
    let mut store = Desk::init();
    store.scan(DEFAULT_REPO_ID, &files, false);
    files.remove("a.py");
    let stats = store.scan(DEFAULT_REPO_ID, &files, false);
    assert_eq!(stats.files_removed, 1);
    assert!(store.store.symbols.is_empty());
}

/// The payoff from resolving imports: two files defining `record`, and a
/// call that lands on the one actually imported.
#[test]
fn imports_disambiguate_same_named_symbols_across_files() {
    let files = Files::of(&[
        ("src/ledger.ts", "export function record(x: number) { return x; }\n"),
        ("src/audit.ts", "export function record(x: number) { return -x; }\n"),
        (
            "src/pay.ts",
            "import { record } from './ledger';\nexport function charge(x: number) { return record(x); }\n",
        ),
    ]);
    let mut store = Desk::init();
    store.scan(DEFAULT_REPO_ID, &files, false);

    let charge = store.resolve("src/pay.ts:charge").unwrap();
    let callees = store.neighbors(&charge.id).unwrap().callees;
    let target = callees
        .iter()
        .find(|n| n.symbol.name == "record")
        .expect("record should resolve");
    assert_eq!(
        target.symbol.path, "src/ledger.ts",
        "the imported definition wins over the other one"
    );

    // And the file-level import edge exists in its own right.
    let pay = store.resolve("src/pay.ts").unwrap();
    let imports: Vec<String> = store
        .neighbors(&pay.id)
        .unwrap()
        .callees
        .iter()
        .filter(|n| n.kind == EdgeKind::Imports)
        .map(|n| n.symbol.path.clone())
        .collect();
    assert_eq!(imports, vec!["src/ledger.ts"]);
}

#[test]
fn endpoints_and_tests_are_labelled_with_metadata() {
    let files = Files::of(&[
        (
            "src/api.py",
            "@app.get(\"/payments/{id}\")\ndef get_payment(id):\n    return 1\n",
        ),
        (
            "tests/test_api.py",
            "def test_get_payment():\n    return get_payment(1)\n",
        ),
    ])
    .endpoint("src/api.py", "get_payment", "GET", "/payments/{id}")
    .test("tests/test_api.py", "test_get_payment");
    let mut store = Desk::init();
    let stats = store.scan(DEFAULT_REPO_ID, &files, false);
    assert_eq!(stats.endpoints, 1);
    assert!(stats.tests >= 1);

    let endpoint = store.resolve("get_payment").unwrap();
    assert_eq!(endpoint.role, Some(Role::Api));
    assert_eq!(endpoint.route().as_deref(), Some("GET /payments/{id}"));

    // The test calls the handler, so it is recorded as a `tests` edge.
    let covering: Vec<String> = store
        .neighbors(&endpoint.id)
        .unwrap()
        .callers
        .iter()
        .filter(|n| n.kind == EdgeKind::Tests)
        .map(|n| n.symbol.name.clone())
        .collect();
    assert_eq!(covering, vec!["test_get_payment"]);
}

#[test]
fn sql_tables_become_nodes_that_code_points_at() {
    let files = Files::of(&[
        (
            "db/schema.sql",
            "CREATE TABLE payments (id UUID PRIMARY KEY);\nCREATE TABLE audit_log (id UUID);\n",
        ),
        (
            "src/pay.ts",
            "export function charge(id: string) {\n  return db.query(\"INSERT INTO payments (id) VALUES ($1)\", [id]);\n}\n",
        ),
    ]);
    let mut store = Desk::init();
    let stats = store.scan(DEFAULT_REPO_ID, &files, false);
    assert_eq!(stats.tables, 2);

    let table = store.resolve("db/schema.sql:payments").unwrap();
    assert_eq!(table.kind, SymbolKind::Table);
    assert_eq!(table.role, Some(Role::Schema));

    let writers: Vec<String> = store
        .neighbors(&table.id)
        .unwrap()
        .callers
        .iter()
        .filter(|n| n.kind == EdgeKind::Queries)
        .map(|n| n.symbol.name.clone())
        .collect();
    assert_eq!(writers, vec!["charge"]);

    // The untouched table has no writers, which is also worth knowing.
    let audit = store.resolve("db/schema.sql:audit_log").unwrap();
    assert!(store.neighbors(&audit.id).unwrap().callers.is_empty());
}

#[test]
fn manifests_become_services_that_own_their_files() {
    let files = Files::of(&[
        ("crates/core/src/lib.rs", "pub fn go() {}\n"),
        ("web/index.ts", "export function boot() {}\n"),
    ])
    .service("core", "crates/core", "Cargo.toml")
    .service("web", "web", "package.json");
    let mut store = Desk::init();
    let stats = store.scan(DEFAULT_REPO_ID, &files, false);
    assert_eq!(stats.services, 2, "the workspace root declares no package");

    let core = store.resolve("service:core").unwrap();
    assert_eq!(core.kind, SymbolKind::Service);

    let lib = store.resolve("crates/core/src/lib.rs").unwrap();
    assert_eq!(lib.parent_id.as_deref(), Some(core.id.as_str()));

    // Leasing a service therefore covers everything inside it.
    let go = store.resolve("go").unwrap();
    let ancestors: Vec<String> = store
        .ancestors(&go.id)
        .unwrap()
        .into_iter()
        .map(|s| s.name)
        .collect();
    assert!(ancestors.contains(&"core".to_string()), "{ancestors:?}");
}

#[test]
fn cross_service_imports_roll_up_to_service_dependencies() {
    let files = Files::of(&[
        (
            "api/server.ts",
            "import { record } from '../lib/ledger';\nexport function boot() { return record(1); }\n",
        ),
        ("lib/ledger.ts", "export function record(x: number) { return x; }\n"),
    ])
    .service("api", "api", "package.json")
    .service("lib", "lib", "package.json");
    let mut store = Desk::init();
    store.scan(DEFAULT_REPO_ID, &files, false);

    let api = store.resolve("service:api").unwrap();
    let deps: Vec<String> = store
        .neighbors(&api.id)
        .unwrap()
        .callees
        .iter()
        .filter(|n| n.kind == EdgeKind::Imports)
        .map(|n| n.symbol.name.clone())
        .collect();
    assert_eq!(deps, vec!["lib"], "api depends on lib");
}

#[test]
fn a_removed_manifest_retires_its_service() {
    let mut files = Files::of(&[
        ("web/index.ts", "export function boot() {}\n"),
    ])
    .service("web", "web", "package.json");
    let mut store = Desk::init();
    store.scan(DEFAULT_REPO_ID, &files, false);
    assert!(store.resolve("service:web").is_ok());

    files.services.clear();
    store.scan(DEFAULT_REPO_ID, &files, false);
    assert!(store.resolve("service:web").is_err());
    // The file survives; it just has no service any more.
    assert!(store.resolve("web/index.ts").unwrap().parent_id.is_none());
}

/// Two repositories in one store, each with the same relative path.
fn two_repositories() -> (Files, Files, Desk) {
    let a = Files::of(&[("src/index.ts", "export function entry() { return 'repoA'; }\n")]);
    let b = Files::of(&[("src/index.ts", "export function entry() { return 'repoB'; }\n")]);
    let mut store = Desk::init();
    store.store.add_repo("repoB", &None, store.now).unwrap();
    (a, b, store)
}

#[test]
fn scanning_one_repo_does_not_delete_another_repos_symbols_or_leases() {
    let (a, b, mut store) = two_repositories();
    store.scan("R1", &a, false);
    store.scan("R2", &b, false);

    let b_entry = store.resolve("R2:src/index.ts:entry").unwrap();
    store
        .acquire_ref("R2:src/index.ts:entry", "agent-1", &AcquireOptions::default())
        .unwrap();

    // A full (re)scan of repo A alone must never touch repo B's rows.
    store.scan("R1", &a, false);

    assert!(
        store.symbol(&b_entry.id).unwrap().is_some(),
        "repo B's symbol must survive a full scan of repo A"
    );
    assert_eq!(
        store.active_leases(Some("agent-1")).unwrap().len(),
        1,
        "repo B's lease must survive a full scan of repo A"
    );
}

#[test]
fn same_relative_path_in_two_repos_does_not_cross_resolve_calls() {
    let (mut a, mut b, mut store) = two_repositories();
    // repoA's entry calls a same-named function that only exists in repoA.
    a.write(
        "src/index.ts",
        "export function helper() { return 1; }\nexport function entry() { return helper(); }\n",
    );
    b.write(
        "src/index.ts",
        "export function helper() { return 2; }\nexport function entry() { return helper(); }\n",
    );
    store.scan("R1", &a, false);
    store.scan("R2", &b, false);

    let a_entry = store.resolve("R1:src/index.ts:entry").unwrap();
    let a_callees: Vec<String> = store
        .neighbors(&a_entry.id)
        .unwrap()
        .callees
        .iter()
        .map(|n| n.symbol.repo_id.clone())
        .collect();
    assert_eq!(
        a_callees,
        vec!["R1"],
        "repoA's call must resolve to repoA's own helper, not repoB's"
    );
}

// ---------------------------------------------------------- the architecture

/// Two services, one importing the other, plus a table the caller queries.
fn shop_files() -> Files {
    Files::of(&[
        (
            "api/src/routes.ts",
            "import { record } from '../../lib/src/ledger';\n\
             export function registerRoutes(app: any) {\n\
               app.post('/payments', createPayment);\n\
             }\n\
             export function createPayment(req: any) {\n\
               const rows = db.query('SELECT * FROM payments');\n\
               return record(1);\n\
             }\n",
        ),
        ("lib/src/ledger.ts", "export function record(x: number) { return x; }\n"),
        ("db/schema.sql", "CREATE TABLE payments (id INTEGER PRIMARY KEY);\n"),
    ])
    .service("api", "api", "package.json")
    .service("lib", "lib", "package.json")
    .endpoint("api/src/routes.ts", "createPayment", "POST", "/payments")
}

fn shop() -> Desk {
    let mut store = Desk::init();
    store.scan(DEFAULT_REPO_ID, &shop_files(), false);
    store.register_agent("alice", "cursor");
    store.register_agent("bob", "aider");
    store
}

fn node<'a>(g: &'a ArchGraph, name: &str) -> &'a ArchNode {
    g.nodes
        .iter()
        .find(|n| n.name == name)
        .unwrap_or_else(|| panic!("no node named {name} in {:?}", names(g)))
}

fn names(g: &ArchGraph) -> Vec<&str> {
    g.nodes.iter().map(|n| n.name.as_str()).collect()
}

fn ids(refs: &[ArchRef]) -> Vec<String> {
    refs.iter().map(|r| r.id.clone()).collect()
}

#[test]
fn services_from_manifests_become_the_top_level_boxes() {
    let store = shop();
    let g = store.architecture(1);

    assert!(names(&g).contains(&"api"), "{:?}", names(&g));
    assert!(names(&g).contains(&"lib"));
    assert_eq!(node(&g, "api").kind, ArchKind::Service);
    assert!(
        node(&g, "api").files >= 1,
        "a service reports what its files add up to"
    );
}

#[test]
fn an_import_between_two_services_is_one_dependency_edge() {
    let store = shop();
    let g = store.architecture(1);
    let api = &node(&g, "api").id;
    let lib = &node(&g, "lib").id;

    let deps: Vec<&ArchEdge> = g
        .edges
        .iter()
        .filter(|e| e.kind == EdgeKind::Imports)
        .collect();
    assert_eq!(deps.len(), 1, "one arrow, not one per import statement");
    assert_eq!(&deps[0].from, api, "the importer points at the imported");
    assert_eq!(&deps[0].to, lib);
}

#[test]
fn a_table_is_its_own_box_with_an_arrow_into_it() {
    let store = shop();
    let g = store.architecture(1);

    let payments = node(&g, "payments");
    assert_eq!(payments.kind, ArchKind::Table);
    assert!(
        g.edges
            .iter()
            .any(|e| e.kind == EdgeKind::Queries && e.to == payments.id),
        "the database is a thing people point at: {:?}",
        g.edges
    );
}

#[test]
fn depth_decides_how_far_the_collapse_goes() {
    let store = shop();
    let shallow = store.architecture(1);
    let deep = store.architecture(3);

    assert!(
        deep.nodes.len() > shallow.nodes.len(),
        "depth 3 shows files; depth 1 does not"
    );
    assert!(deep.nodes.iter().any(|n| n.kind == ArchKind::File));
    assert!(!shallow.nodes.iter().any(|n| n.kind == ArchKind::File));
    assert_eq!(store.architecture(99).depth, 3, "clamped");
}

#[test]
fn a_worker_shows_up_on_the_box_containing_what_they_hold() {
    let mut store = shop();
    store
        .acquire_ref("record", "alice", &AcquireOptions::default())
        .unwrap();

    let g = store.architecture(1);
    assert_eq!(
        node(&g, "lib").workers,
        vec!["alice".to_string()],
        "holding a function inside lib puts you on lib"
    );
    assert_eq!(node(&g, "lib").leases, 1);
    assert!(
        node(&g, "api").workers.is_empty(),
        "and not on the service next door"
    );
}

#[test]
fn live_editing_shows_up_on_the_box_too() {
    let mut store = shop();
    store.live.push(Activity {
        agent: "bob".to_string(),
        repo_id: DEFAULT_REPO_ID.to_string(),
        path: "api/src/routes.ts".to_string(),
        kind: EDITING.to_string(),
    });

    let g = store.architecture(1);
    let api = node(&g, "api");
    assert_eq!(api.workers, vec!["bob".to_string()]);
    assert_eq!(api.activity.len(), 1);
    assert_eq!(api.activity[0].kind, EDITING);
}

#[test]
fn a_task_scoped_into_a_service_lands_on_it_with_its_goal() {
    let mut store = shop();
    let goal = store.add_goal("ship refunds", 9).unwrap();
    let task = store
        .goal_decompose(&goal.id, "wire it", 9, &["createPayment".to_string()])
        .unwrap();

    let g = store.architecture(1);
    let api = node(&g, "api");
    assert!(api.tasks.contains(&task.id));
    assert!(
        api.goals.contains(&goal.id),
        "a human reads goals, not task ids"
    );
}

#[test]
fn node_detail_answers_the_questions_the_panel_asks() {
    let mut store = shop();
    store
        .acquire_ref("createPayment", "alice", &AcquireOptions::default())
        .unwrap();

    let g = store.architecture(1);
    let api_id = node(&g, "api").id.clone();
    let lib_id = node(&g, "lib").id.clone();
    let detail = store.arch_node(&api_id, 1).unwrap();

    assert_eq!(ids(&detail.depends_on), vec![lib_id]);
    assert_eq!(detail.depends_on[0].name, "lib", "an arrow has to say what it points at");
    assert_eq!(detail.held.len(), 1, "who is in here right now");
    assert_eq!(detail.held[0].agent, "alice");
    assert!(!detail.tables.is_empty(), "what it touches in the database");
    assert!(
        detail.routes.iter().any(|r| r.name == "createPayment"),
        "and what it exposes"
    );
    assert!(!detail.symbols.is_empty());
}

#[test]
fn the_other_direction_of_a_dependency_is_reported_too() {
    let store = shop();
    let g = store.architecture(1);
    let lib = store.arch_node(&node(&g, "lib").id, 1).unwrap();

    assert_eq!(
        ids(&lib.depended_on_by),
        vec![node(&g, "api").id.clone()],
        "'who would I break' is the question that matters before a change"
    );
    assert!(lib.depends_on.is_empty());
}

#[test]
fn an_unknown_node_is_an_error_rather_than_an_empty_panel() {
    let store = shop();
    match store.arch_node("dir:R1:nowhere", 2) {
        Ok(_) => panic!("expected an error naming the missing node"),
        Err(e) => assert!(e.text.contains("no such node")),
    }
}

#[test]
fn a_repo_with_no_manifest_still_renders() {
    let files = Files::of(&[("src/pay.ts", "export function charge(x: number) { return x; }
")]);
    let mut store = Desk::init();
    store.scan(DEFAULT_REPO_ID, &files, false);

    let g = store.architecture(1);
    assert!(
        !g.nodes.is_empty(),
        "files with no manifest above them still have to live somewhere"
    );
    assert!(g.nodes.iter().any(|n| n.files > 0));
}

#[test]
fn arch_a_dependency_cycle_is_reported_rather_than_hidden() {
    let mut store = shop();
    // Make lib import api back, closing the loop.
    let mut files = shop_files();
    files.write(
        "lib/src/ledger.ts",
        "import { createPayment } from '../../api/src/routes';
\
         export function record(x: number) { return createPayment ? x : 0; }
",
    );
    store.scan(DEFAULT_REPO_ID, &files, true);

    let g = store.architecture(1);
    assert!(
        !g.cycles.is_empty(),
        "a cycle between two services is the most interesting thing on the picture"
    );
}

// --------------------------------------------------------------------- notices

fn checkout_files() -> Files {
    Files::of(&[
        (
            "api/src/routes.ts",
            "export function registerRoutes(app) { app.get('/pay', charge); }\n\
             export function charge(req) { return 1; }\n",
        ),
        (
            "web/src/app.ts",
            "import { charge } from '../../api/src/routes';\n\
             export function checkout() { return charge(1); }\n",
        ),
    ])
    .service("api", "api", "package.json")
    .service("web", "web", "package.json")
}

fn checkout() -> Desk {
    let mut store = Desk::init();
    store.scan(DEFAULT_REPO_ID, &checkout_files(), false);
    store.register_agent("alice", "cursor");
    store.register_agent("bob", "aider");
    store
}

#[test]
fn an_api_change_says_who_depends_on_it() {
    let mut store = checkout();
    let charge = store.resolve("charge").unwrap();
    store
        .open_request(&NewRequest {
            to: Some("bob".to_string()),
            resource_symbol: Some(charge.id.clone()),
            ..NewRequest::new(request_kind::API_CHANGE, "golab", "charge changed")
        })
        .unwrap();

    let n = store.notifications(None, 10);
    let api = n.iter().find(|n| n.kind == request_kind::API_CHANGE).unwrap();
    assert!(api.title.contains("charge"), "{}", api.title);
    assert!(
        api.detail.as_deref().unwrap_or("").contains("web"),
        "a fact without a consequence is a log line: {:?}",
        api.detail
    );
    assert_eq!(api.severity, Severity::Warn);
    assert!(
        api.node.is_some(),
        "clicking a notice has to be able to select the box it happened in"
    );
}

/// When everything affected sits in the same service, naming the service
/// would say "payments-api depends on payments-api". The consequence is
/// real either way, so it drops to the callers instead of vanishing.
#[test]
fn an_impact_inside_one_service_names_the_callers_instead() {
    let files = Files::of(&[
        (
            "api/src/routes.ts",
            "export function registerRoutes(app) { app.get('/pay', charge); }
\
             export function charge(req) { return 1; }
",
        ),
        (
            "api/tests/routes.test.ts",
            "import { charge } from '../src/routes';
\
             export function testCharge() { return charge({}); }
",
        ),
    ])
    .service("api", "api", "package.json");
    let mut store = Desk::init();
    store.scan(DEFAULT_REPO_ID, &files, false);

    let charge = store.resolve("api/src/routes.ts:charge").unwrap();
    store
        .open_request(&NewRequest {
            resource_symbol: Some(charge.id.clone()),
            ..NewRequest::new(request_kind::API_CHANGE, "golab", "charge changed")
        })
        .unwrap();

    let n = store.notifications(None, 10);
    let api = n.iter().find(|n| n.kind == request_kind::API_CHANGE).unwrap();
    let detail = api.detail.as_deref().unwrap_or("");
    assert!(
        detail.contains("testCharge") && detail.contains("call"),
        "a same-service impact still has a consequence: {detail:?}"
    );
}

#[test]
fn contention_is_surfaced_because_nobody_else_will_raise_it() {
    let mut store = checkout();
    store
        .acquire_ref("charge", "alice", &AcquireOptions::default())
        .unwrap();
    store
        .acquire_ref(
            "charge",
            "bob",
            &AcquireOptions {
                queue: false,
                ..Default::default()
            },
        )
        .unwrap();

    let n = store.notifications(None, 20);
    let clash = n.iter().find(|n| n.kind == "contention").unwrap();
    assert!(clash.title.contains("bob"), "{}", clash.title);
    assert!(
        clash.detail.as_deref().unwrap_or("").contains("alice"),
        "naming the holder is what makes it actionable: {:?}",
        clash.detail
    );
}

fn charge_id(store: &Desk) -> String {
    store.resolve("charge").unwrap().id
}

#[test]
fn a_lease_request_reads_as_something_to_answer() {
    let mut store = checkout();
    store
        .acquire_ref("charge", "alice", &AcquireOptions::default())
        .unwrap();
    let id = charge_id(&store);
    store.request_lease_transfer(&id, "bob", "hotfix", 5).unwrap();

    let n = store.notifications(None, 20);
    let ask = n
        .iter()
        .find(|n| n.kind == request_kind::LEASE_TRANSFER)
        .unwrap();
    assert_eq!(ask.severity, Severity::Blocking);
    assert!(ask.request.is_some(), "answerable, not just informational");
    assert_eq!(ask.audience.as_deref(), Some("alice"));
}

#[test]
fn narrowing_to_one_person_drops_what_is_not_theirs() {
    let mut store = checkout();
    store
        .acquire_ref("charge", "alice", &AcquireOptions::default())
        .unwrap();
    let id = charge_id(&store);
    store.request_lease_transfer(&id, "bob", "hotfix", 5).unwrap();

    let hers = store.notifications(Some("alice"), 20);
    assert!(hers.iter().any(|n| n.kind == request_kind::LEASE_TRANSFER));

    let theirs = store.notifications(Some("carol"), 20);
    assert!(
        !theirs.iter().any(|n| n.kind == request_kind::LEASE_TRANSFER),
        "an ask addressed to alice is not carol's problem"
    );
}

#[test]
fn a_quiet_workspace_produces_nothing() {
    let store = checkout();
    assert!(
        store.notifications(None, 20).is_empty(),
        "a notification that fires on everything is one nobody reads"
    );
}

#[test]
fn the_newest_thing_is_first_and_the_list_is_capped() {
    let mut store = checkout();
    store
        .acquire_ref("charge", "alice", &AcquireOptions::default())
        .unwrap();
    for _ in 0..8 {
        store
            .acquire_ref(
                "charge",
                "bob",
                &AcquireOptions {
                    queue: false,
                    ..Default::default()
                },
            )
            .ok();
    }

    let n = store.notifications(None, 3);
    assert_eq!(n.len(), 3);
    assert!(n[0].ts >= n[1].ts && n[1].ts >= n[2].ts);
}

// ---------------------------------------------------------- asking the index

/// A small repository of two services with an HTTP interface, a database schema and
/// a test.
fn acme_files() -> Files {
    Files::of(&[
        (
            "db/schema.sql",
            "CREATE TABLE payments (id UUID PRIMARY KEY, amount INTEGER);\n\
             CREATE TABLE audit_log (id UUID);\n",
        ),
        (
            "lib/src/ledger.ts",
            "export function record(id: string, amount: number) {\n\
             \x20 return db.query(\"INSERT INTO payments (id, amount) VALUES ($1, $2)\", [id, amount]);\n\
             }\n",
        ),
        (
            "api/src/routes.ts",
            "import { record } from '../../lib/src/ledger';\n\n\
             export function registerRoutes(app) {\n\
             \x20 app.post('/payments', createPayment);\n\
             \x20 app.get('/payments/:id', getPayment);\n\
             }\n\n\
             export function createPayment(req) {\n\
             \x20 return record(req.id, req.amount);\n\
             }\n\n\
             export function getPayment(req) {\n\
             \x20 return db.query(\"SELECT * FROM payments WHERE id = $1\", [req.id]);\n\
             }\n",
        ),
        (
            "api/tests/routes.test.ts",
            "import { createPayment } from '../src/routes';\n\n\
             export function testCreatePayment() {\n\
             \x20 return createPayment({ id: '1', amount: 10 });\n\
             }\n",
        ),
    ])
    .service("payments-api", "api", "package.json")
    .service("ledger-lib", "lib", "package.json")
    .endpoint("api/src/routes.ts", "createPayment", "POST", "/payments")
    .endpoint("api/src/routes.ts", "getPayment", "GET", "/payments/:id")
    .test("api/tests/routes.test.ts", "testCreatePayment")
}

fn acme() -> Desk {
    let mut store = Desk::init();
    store.scan(DEFAULT_REPO_ID, &acme_files(), false);
    store
}

#[test]
fn manifests_become_services_with_dependencies() {
    let store = acme();
    let services = store.store.service_uses();
    let names: Vec<&str> = services.iter().map(|s| s.service.name.as_str()).collect();
    assert!(names.contains(&"payments-api"), "{names:?}");
    assert!(names.contains(&"ledger-lib"), "{names:?}");

    let api = services.iter().find(|s| s.service.name == "payments-api").unwrap();
    assert_eq!(
        api.depends_on,
        vec!["ledger-lib"],
        "a cross-service import is a service dependency"
    );
    assert_eq!(api.files, 2);
}

#[test]
fn endpoints_are_discovered_and_attributed_to_their_handlers() {
    let store = acme();
    let routes: Vec<(String, String)> = store
        .store
        .endpoints(&None)
        .iter()
        .map(|e| {
            (
                format!("{} {}", e.meta.text("method").unwrap(), e.meta.text("path").unwrap()),
                e.name.clone(),
            )
        })
        .collect();

    assert!(
        routes.contains(&("POST /payments".into(), "createPayment".into())),
        "{routes:?}"
    );
    assert!(
        routes.contains(&("GET /payments/:id".into(), "getPayment".into())),
        "{routes:?}"
    );
    assert!(
        !routes.iter().any(|(_, name)| name == "registerRoutes"),
        "the handler is the endpoint, not the function that registers it"
    );
}

#[test]
fn endpoints_are_narrowed_by_their_route() {
    let store = acme();
    let narrowed = store.store.endpoints(&Some("/:id".to_string()));
    assert_eq!(narrowed.len(), 1);
    assert_eq!(narrowed[0].name, "getPayment");
}

#[test]
fn tables_know_which_code_touches_them() {
    let store = acme();
    let tables = store.store.table_uses(&None).unwrap();
    let payments = tables.iter().find(|t| t.table.name == "payments").expect("payments table");

    let accessors: Vec<&str> = payments
        .users
        .iter()
        .filter(|a| a.kind == EdgeKind::Queries)
        .map(|a| a.symbol.name.as_str())
        .collect();
    assert!(accessors.contains(&"record"), "{accessors:?}");
    assert!(accessors.contains(&"getPayment"), "{accessors:?}");

    let audit = tables.iter().find(|t| t.table.name == "audit_log").expect("audit_log table");
    assert!(audit.users.is_empty(), "an unused table is worth knowing about too");

    let one = store.store.table_uses(&Some("db/schema.sql:audit_log".to_string())).unwrap();
    assert_eq!(one.len(), 1);
    assert!(store.store.table_uses(&Some("nowhere".to_string())).is_err());
}

#[test]
fn test_coverage_is_a_query_and_gaps_are_detectable() {
    let store = acme();
    let covered = store.store.tests_of("createPayment").unwrap();
    let names: Vec<&str> = covered.tests.iter().map(|t| t.symbol.name.as_str()).collect();
    assert_eq!(names, vec!["testCreatePayment"]);

    // Nothing reaches getPayment, and the exit code says so.
    let gap = store.store.tests_of("getPayment").unwrap();
    assert_eq!(Exit::of(!gap.tests.is_empty()).code(), 1);
}

#[test]
fn imports_resolve_calls_that_a_name_alone_could_not() {
    let store = acme();
    // `record` is defined in lib and called from api; the edge must cross.
    let record = store.resolve("record").unwrap();
    let impact = store.store.impact(&record.id, 3);
    let reached: Vec<&str> = impact.iter().map(|n| n.symbol.name.as_str()).collect();
    assert!(reached.contains(&"createPayment"), "{reached:?}");
    assert!(
        reached.contains(&"testCreatePayment"),
        "impact reaches the test two hops out: {reached:?}"
    );
}

#[test]
fn a_service_lease_covers_every_file_inside_it() {
    let mut store = acme();
    store
        .acquire_ref("service:payments-api", "nova-1", &AcquireOptions::default())
        .unwrap();
    // Nobody else can take anything within that service.
    let inside = store.acquire_ref("createPayment", "cursor-1", &AcquireOptions::default()).unwrap();
    assert_eq!(Exit::of(inside.outcome.is_granted()).code(), 1);
    // But the other service is untouched.
    let outside = store.acquire_ref("record", "cursor-1", &AcquireOptions::default()).unwrap();
    assert_eq!(Exit::of(outside.outcome.is_granted()).code(), 0);
}

#[test]
fn role_filters_narrow_the_symbol_list() {
    let store = acme();
    let list = |role: &str| store.store.symbols_matching(&None, &None, &None, &Some(role.to_string()), 500);
    assert_eq!(list("api").unwrap().len(), 2);

    assert!(
        list("schema").unwrap().len() >= 2,
        "tables and the schema file both carry the role"
    );

    let bogus = list("nonsense").unwrap_err();
    assert_eq!(bogus.text, "unknown role: nonsense");
    let kind = store
        .store
        .symbols_matching(&None, &None, &Some("gadget".to_string()), &None, 500)
        .unwrap_err();
    assert_eq!(kind.text, "unknown symbol kind: gadget");
}

/// Editing code should update the graph, not just the symbol list.
#[test]
fn reindexing_updates_roles_and_edges() {
    let mut store = acme();
    assert_eq!(store.store.endpoints(&None).len(), 2);

    let mut files = acme_files();
    files.write(
        "api/src/routes.ts",
        "import { record } from '../../lib/src/ledger';\n\n\
         export function registerRoutes(app) {\n\
         \x20 app.post('/payments', createPayment);\n\
         }\n\n\
         export function createPayment(req) {\n\
         \x20 return record(req.id, req.amount);\n\
         }\n",
    );
    files.endpoints.retain(|(_, name, _, _)| name == "createPayment");
    store.scan(DEFAULT_REPO_ID, &files, false);

    assert_eq!(
        store.store.endpoints(&None).len(),
        1,
        "the deleted route is gone from the graph"
    );
    // And the table accessor that went with it.
    let tables = store.store.table_uses(&None).unwrap();
    let payments = tables.iter().find(|t| t.table.name == "payments").unwrap();
    let accessors: Vec<&str> = payments
        .users
        .iter()
        .filter(|a| a.kind == EdgeKind::Queries)
        .map(|a| a.symbol.name.as_str())
        .collect();
    assert_eq!(accessors, vec!["record"], "getPayment no longer exists");
}

#[test]
fn one_symbol_is_shown_with_what_surrounds_it() {
    let mut store = acme();
    store.acquire_ref("record", "nova-1", &AcquireOptions::default()).unwrap();
    let shown = store.store.show("record").unwrap();
    assert_eq!(shown.symbol.name, "record");
    assert_eq!(shown.leases.len(), 1);
    assert!(shown.neighbors.callers.iter().any(|n| n.symbol.name == "createPayment"));
    assert!(store.store.show("nowhere").is_err());
}

// -------------------------------------------------------------------- the guard

fn guarded_files() -> Files {
    Files::of(&[
        (
            "src/pay.ts",
            "export class Payments {\n\
            \x20 charge(x: number) { return x; }\n\
            \x20 refund(x: number) { return -x; }\n\
             }\n",
        ),
        (
            "src/checkout.ts",
            "import { Payments } from './pay';\n\
             export function checkout(x: number) { return new Payments().charge(x); }\n",
        ),
    ])
}

fn guarded() -> Desk {
    let mut store = Desk::init();
    store.scan(DEFAULT_REPO_ID, &guarded_files(), false);
    store.register_agent("alice", "cursor");
    store.register_agent("bob", "cursor");
    store
}

fn take(store: &mut Desk, query: &str, agent: &str) {
    let taken = store.acquire_ref(query, agent, &AcquireOptions::default()).unwrap();
    assert!(taken.outcome.is_granted());
}

/// The exit code of the question whether a file may be edited, and the answer.
fn ask(store: &Desk, agent: &str, path: &str, symbol: Option<&str>, strict: bool) -> (u8, GuardReport) {
    let report = store.store.guard(agent, DEFAULT_REPO_ID, path, &owned(symbol), store.now).unwrap();
    (Exit::of(!report.refused(strict)).code(), report)
}

#[test]
fn guard_denies_an_edit_to_a_symbol_another_agent_holds() {
    let mut store = guarded();
    take(&mut store, "src/pay.ts:Payments.charge", "alice");

    let (code, report) = ask(&store, "bob", "src/pay.ts", None, false);
    assert_eq!(code, 1, "a denial is exit 1, not an error");
    assert_eq!(report.verdict.as_str(), "denied");
    assert_eq!(report.conflicts[0].holder, "alice");

    // The report has to carry a way out, or the agent is simply stuck.
    let first = &report.suggestions[0];
    assert_eq!(first.action, "request-transfer");
    assert!(first.command.contains("request lease"), "suggestion must be runnable: {first:?}");
    assert_eq!(first.tool, "ask");
    assert!(report.summary.contains("alice"), "summary names the holder: {}", report.summary);
}

#[test]
fn narrowing_to_a_free_symbol_turns_a_denial_into_an_allowed_edit() {
    let mut store = guarded();
    take(&mut store, "src/pay.ts:Payments.charge", "alice");
    take(&mut store, "src/pay.ts:Payments.refund", "bob");

    // File-granular by default, because Edit/Write name a file.
    let (code, wide) = ask(&store, "bob", "src/pay.ts", None, false);
    assert_eq!(code, 1);
    assert!(
        wide.suggestions.iter().any(|s| s.action == "narrow"),
        "a file-wide denial has to offer the precise question: {wide:?}"
    );

    let (code, narrow) = ask(&store, "bob", "src/pay.ts", Some("src/pay.ts:Payments.refund"), false);
    assert_eq!(code, 0, "bob holds refund; that edit was always legal");
    assert_eq!(narrow.verdict.as_str(), "allowed");
}

#[test]
fn an_unleased_edit_warns_but_does_not_block_unless_strict() {
    let store = guarded();

    let (code, report) = ask(&store, "bob", "src/pay.ts", None, false);
    assert_eq!(code, 0, "a warning is not a no");
    assert_eq!(report.verdict.as_str(), "warn");
    assert_eq!(report.suggestions[0].action, "acquire");

    let (code, strict) = ask(&store, "bob", "src/pay.ts", None, true);
    assert_eq!(code, 1, "--strict is for callers that want the stronger rule");
    assert_eq!(strict.verdict.as_str(), "warn");
}

#[test]
fn a_brand_new_file_is_allowed_because_nothing_could_be_leased_yet() {
    let store = guarded();
    let (code, report) = ask(&store, "bob", "src/new.ts", None, false);
    assert_eq!(code, 0);
    assert_eq!(report.verdict.as_str(), "allowed");
    assert!(report.unindexed);
}

#[test]
fn your_own_lease_allows_the_edit_and_names_which_one() {
    let mut store = guarded();
    take(&mut store, "src/pay.ts:Payments", "alice");

    let (code, report) = ask(&store, "alice", "src/pay.ts", Some("src/pay.ts:Payments.charge"), false);
    assert_eq!(code, 0);
    assert_eq!(report.verdict.as_str(), "allowed");
    assert_eq!(
        report.via.as_deref(),
        Some("src/pay.ts:Payments"),
        "holding the class covers its methods, and the report says so"
    );
}

#[test]
fn guard_resolves_identity_the_same_way_every_other_command_does() {
    let mut store = guarded();
    take(&mut store, "src/pay.ts:Payments.charge", "alice");

    // The workspace remembers who joined last, so nobody need be named.
    let who = require_agent(&None, &None, &Some("bob\n".to_string())).unwrap();
    let (code, report) = ask(&store, &who, "src/pay.ts", None, false);
    assert_eq!(code, 1);
    assert_eq!(report.agent, "bob");
    assert_eq!(report.conflicts[0].holder, "alice");
}

#[test]
fn guard_without_any_identity_is_an_error_not_a_denial() {
    let err = require_agent(&None, &None, &None).unwrap_err();
    assert_eq!(Exit::Failed.code(), 2);
    assert!(err.text.contains("agent"), "{}", err.text);
}

#[test]
fn the_nearest_name_is_who_acts() {
    let flag = Some("flag".to_string());
    let variable = Some("variable".to_string());
    let remembered = Some(" remembered \n".to_string());
    assert_eq!(optional_agent(&flag, &variable, &remembered).as_deref(), Some("flag"));
    assert_eq!(optional_agent(&None, &variable, &remembered).as_deref(), Some("variable"));
    assert_eq!(optional_agent(&None, &Some(String::new()), &remembered).as_deref(), Some("remembered"));
    assert_eq!(optional_agent(&None, &None, &Some(" \n".to_string())), None);
}

#[test]
fn two_repos_sharing_a_relative_path_get_separate_verdicts() {
    let mut store = guarded();
    store.store.add_repo("vendor", &None, store.now).unwrap();
    let vendor = Files::of(&[(
        "src/pay.ts",
        "export class Payments {\n\x20 charge(x: number) { return x * 2; }\n}\n",
    )]);
    store.scan("R2", &vendor, false);

    // The bare handle is genuinely ambiguous now, which `resolve` refuses
    // rather than guessing — so name the repo.
    take(&mut store, "R1:src/pay.ts:Payments.charge", "alice");

    let judge = |path: &str| {
        let (repo, rel) = store.store.locate("/work", path).unwrap();
        let report = store.store.guard("bob", &repo, &rel, &None, store.now).unwrap();
        (Exit::of(!report.refused(false)).code(), report)
    };
    let (blocked, _) = judge("/work/src/pay.ts");
    assert_eq!(blocked, 1, "alice holds this one");

    let (free, report) = judge("/work/vendor/src/pay.ts");
    assert_eq!(free, 0, "the vendor copy is a different symbol and nobody holds it");
    assert_eq!(report.verdict.as_str(), "warn");
}

// -------------------------------------------------------------- editor callbacks

fn edited(paths: &[&str]) -> Json {
    let edits = paths.iter().map(|p| Json::object().with("file_path", Json::str(p))).collect();
    Json::object().with("tool_input", Json::object().with("edits", Json::Arr(edits)))
}

/// What the callback before an edit answers.
fn before_edit(store: &Desk, mode: &str, payload: &Json) -> HookAnswer {
    store.store.pre_tool("/work", "tester", mode, payload, store.now).0
}

fn two_functions() -> Desk {
    let mut store = Desk::init();
    let files = Files::of(&[(
        "src/pay.ts",
        "export function charge(x: number) { return x; }\n\
         export function refund(x: number) { return -x; }\n",
    )]);
    store.scan(DEFAULT_REPO_ID, &files, false);
    store
}

#[test]
fn the_guard_hook_denies_an_edit_someone_else_holds() {
    let mut store = two_functions();
    take(&mut store, "charge", "alice");

    // The editor's own agent has not joined and does not need to: the guard
    // is asked on the first keystroke, which may well be before anything else.
    let answer = before_edit(&store, "both", &edited(&["/work/src/pay.ts"]));

    // Structured decision, for a client that reads it.
    let decision = answer.out.unwrap();
    let inner = decision.get("hookSpecificOutput").unwrap();
    assert_eq!(inner.text("hookEventName").as_deref(), Some("PreToolUse"));
    assert_eq!(inner.text("permissionDecision").as_deref(), Some("deny"));
    let reason = inner.text("permissionDecisionReason").unwrap();
    assert!(reason.contains("alice"), "must name the holder: {reason}");
    assert!(reason.contains("lease-transfer"), "and must say how to get to yes: {reason}");

    // And the older contract, for a client that does not: exit 2 blocks the
    // call and stderr is fed back to the model.
    assert_eq!(answer.code, 2);
    assert!(answer.err.unwrap().contains("alice"));
}

#[test]
fn the_guard_hook_lets_an_uncontended_edit_through_silently() {
    let store = two_functions();
    let answer = before_edit(&store, "both", &edited(&["/work/src/pay.ts"]));
    assert_eq!(answer.code, 0);
    assert!(
        answer.out.is_none(),
        "an explicit allow would short-circuit the user's own permission rules"
    );
}

#[test]
fn the_guard_hook_covers_multiedit_not_just_edit() {
    let mut store = two_functions();
    take(&mut store, "charge", "alice");
    let answer = before_edit(&store, "both", &edited(&["/work/src/other.ts", "/work/src/pay.ts"]));
    assert_eq!(answer.code, 2, "one denied file in a batch refuses the whole call");
}

#[test]
fn a_guard_mode_can_be_narrowed_to_one_contract() {
    let mut store = two_functions();
    take(&mut store, "charge", "alice");
    let payload = edited(&["/work/src/pay.ts"]);

    let json_only = before_edit(&store, "json", &payload);
    assert_eq!(json_only.code, 0, "json mode says no in the body");
    assert!(json_only.out.is_some());

    let exit_only = before_edit(&store, "exit", &payload);
    assert_eq!(exit_only.code, 2);
    assert!(exit_only.out.is_none());
    assert!(exit_only.err.is_some());
}

#[test]
fn a_payload_without_a_file_is_let_through() {
    let store = two_functions();
    let answer = before_edit(&store, "both", &Json::object());
    assert_eq!(answer.code, 0);
    assert!(answer.out.is_none() && answer.err.is_none());
}

#[test]
fn post_tool_publishes_progress_so_liveness_is_not_the_models_job() {
    let mut store = two_functions();
    let t = store.tick();
    store.store.session_start("tester", "editor", Vec::new(), t.now);
    let t = store.tick();
    store.store.post_tool("/work", "tester", &edited(&["/work/src/pay.ts"]), t.now);
    let latest = store.store.latest_progress();
    assert!(latest.iter().any(|p| p.agent == "tester" && p.note.as_deref().unwrap_or("").contains("pay.ts")));
}

#[test]
fn an_edit_keeps_leases_and_work_alive() {
    let mut store = two_functions();
    let t = store.tick();
    store.store.session_start("tester", "editor", Vec::new(), t.now);
    take(&mut store, "charge", "tester");
    let before = store.active_leases(None).unwrap()[0].expires_at;
    let t = store.tick();
    let (update, _) = store.store.post_tool("/work", "tester", &edited(&["/work/src/pay.ts"]), t.now);
    assert_eq!(update.note.as_deref(), Some("edited src/pay.ts"));
    assert_eq!(update.symbol_handle.as_deref(), Some("src/pay.ts"));
    assert!(store.active_leases(None).unwrap()[0].expires_at > before);

    // A file that nobody indexed is named as it was given.
    let (update, _) = store.store.post_tool("/work", "tester", &edited(&["/work/src/new.ts"]), t.now);
    assert_eq!((update.symbol_id, update.note.as_deref()), (None, Some("edited /work/src/new.ts")));
}

#[test]
fn starting_a_session_joins_and_orients() {
    let mut store = two_functions();
    let goal = store.add_goal("make charging refundable", 5).unwrap();
    store.goal_decompose(&goal.id, "wire refunds", 5, &["refund".to_string()]).unwrap();
    let t = store.tick();
    let note = Note { key: "rounding".to_string(), value: "always round half up".to_string() };
    let answer = store.store.session_start("tester", "editor", vec![note], t.now);
    assert_eq!(answer.code, 0);
    let out = answer.out.unwrap();
    let text = str_at(out.get("hookSpecificOutput").unwrap(), "additionalContext").unwrap();
    assert!(text.contains("check_edit"), "the rule has to be stated: {text}");
    assert!(text.contains("ready to start"), "{text}");
    assert!(text.contains("round half up"), "{text}");
    assert!(store.store.agent("tester").is_some());
}

#[test]
fn ending_a_session_frees_what_its_agent_held() {
    let mut store = two_functions();
    take(&mut store, "charge", "tester");
    take(&mut store, "refund", "alice");
    let t = store.tick();
    store.store.session_end("tester", t.now);
    let live = store.active_leases(None).unwrap();
    assert_eq!(live.len(), 1);
    assert_eq!(live[0].agent, "alice");
}

// ------------------------------------------------------------------- live editing

fn two_files() -> Desk {
    let mut store = Desk::init();
    let files = Files::of(&[
        (
            "src/pay.ts",
            "export function charge(x: number) { return x; }\n\
             export function refund(x: number) { return -x; }\n",
        ),
        ("src/ledger.ts", "export function record(x: number) { return x; }\n"),
    ]);
    store.scan(DEFAULT_REPO_ID, &files, false);
    store
}

fn edit_payload(file: &str) -> Json {
    Json::object()
        .with("session_id", Json::str("sess-abc123"))
        .with("tool_name", Json::str("Edit"))
        .with("tool_input", Json::object().with("file_path", Json::str(file)))
}

#[test]
fn asking_before_an_edit_announces_it() {
    let store = two_files();
    let (answer, window) = store.store.pre_tool("/work", "tester", "both", &edit_payload("/work/src/pay.ts"), store.now);
    assert_eq!(answer.code, 0);
    let window = window.expect("one open window");
    assert_eq!(window.agent, "tester");
    assert_eq!(window.path, "src/pay.ts");
    assert_eq!(window.kind, EDITING, "about to edit, and has not yet");
    let (_, nothing) = store.store.pre_tool("/work", "tester", "both", &Json::object(), store.now);
    assert!(nothing.is_none());
}

#[test]
fn a_refused_edit_is_recorded_as_contention_not_as_silence() {
    let mut store = two_files();
    store.register_agent("alice", "cli");
    take(&mut store, "charge", "alice");

    let (answer, window) = store.store.pre_tool("/work", "tester", "both", &edit_payload("/work/src/pay.ts"), store.now);
    assert_eq!(answer.code, 2, "the edit is refused");

    let mine: Vec<EditWindow> = window.into_iter().filter(|w| w.agent == "tester").collect();
    assert_eq!(mine.len(), 1);
    assert_eq!(
        mine[0].kind, "blocked",
        "two agents reaching for one file within a TTL is exactly what a human needs to see"
    );
    assert_eq!(mine[0].verdict.as_deref(), Some("denied"));
}

#[test]
fn a_landed_edit_names_the_symbol_and_not_just_the_file() {
    let mut store = two_files();
    let t = store.tick();
    let (_, live) = store.store.post_tool("/work", "tester", &edit_payload("/work/src/pay.ts"), t.now);
    assert_eq!(live.len(), 1);
    assert_eq!(live[0].kind, "edited");
    assert_eq!(
        live[0].symbol_handle.as_deref(),
        Some("src/pay.ts"),
        "the window points at an indexed symbol, not just a path string"
    );

    let progress = store.store.latest_progress();
    assert_eq!(progress[0].agent, "tester");
    assert!(progress[0].symbol_id.is_some(), "progress finally carries the symbol: {progress:?}");
}

#[test]
fn an_unindexed_file_is_still_reported_without_claiming_a_symbol() {
    let mut store = two_files();
    let t = store.tick();
    let (_, live) = store.store.post_tool("/work", "tester", &edit_payload("/work/src/brand-new.ts"), t.now);
    assert_eq!(live.len(), 1);
    assert_eq!(live[0].path, "src/brand-new.ts");
    assert!(
        live[0].symbol_id.is_none(),
        "we can compute the id of a file nobody has scanned, but pointing at it would be a lie"
    );
}

#[test]
fn a_multi_file_call_opens_a_window_on_every_file_it_touched() {
    let mut store = two_files();
    let t = store.tick();
    let payload = edited(&["/work/src/pay.ts", "/work/src/ledger.ts"]);
    let (_, live) = store.store.post_tool("/work", "tester", &payload, t.now);
    let mut paths: Vec<String> = live.iter().map(|w| w.path.clone()).collect();
    paths.sort();
    assert_eq!(
        paths,
        vec!["src/ledger.ts", "src/pay.ts"],
        "leaving the others reading 'editing' until they expire would be a lie for a whole minute"
    );
}

// -------------------------------------------------------- several repositories

/// Two repositories besides the default one, each with a function `handler`.
fn web_and_api() -> Desk {
    let mut store = Desk::init();
    store.store.add_repo("frontend", &Some("web".to_string()), store.now).unwrap();
    store.store.add_repo("backend", &Some("api".to_string()), store.now).unwrap();
    let front = Files::of(&[("src/index.ts", "export function handler() { return 'front'; }\n")]);
    let back = Files::of(&[("src/index.py", "def handler():\n    return 'back'\n")]);
    store.scan("R2", &front, false);
    store.scan("R3", &back, false);
    store
}

#[test]
fn rolling_up_one_repository_leaves_the_others_edges() {
    let mut store = Desk::init();
    store.store.add_repo("frontend", &Some("web".to_string()), store.now).unwrap();
    let two = |name: &str| {
        Files::of(&[
            ("a/index.ts", "import { f } from '../b/index';\nexport function g() { return f(); }\n"),
            ("b/index.ts", "export function f() { return 1; }\n"),
        ])
        .service(&format!("{name}-a"), "a", "package.json")
        .service(&format!("{name}-b"), "b", "package.json")
    };
    store.scan("R2", &two("web"), false);
    let uses = |store: &Desk, name: &str| {
        let all = store.store.service_uses();
        all.into_iter().find(|u| u.service.name == name).unwrap().depends_on
    };
    assert_eq!(uses(&store, "web-a"), vec!["web-b".to_string()]);
    let before: Vec<(String, String)> =
        store.store.edges.iter().map(|e| (e.src.clone(), e.dst.clone())).collect();
    store.scan(DEFAULT_REPO_ID, &two("api"), false);
    assert_eq!(uses(&store, "api-a"), vec!["api-b".to_string()]);
    let after: Vec<(String, String)> =
        store.store.edges.iter().map(|e| (e.src.clone(), e.dst.clone())).collect();
    assert_eq!(after[..before.len()], before[..], "the edges of the other repository were not rewritten");
}

#[test]
fn repo_add_and_list_round_trip() {
    let mut store = Desk::init();
    let added = store.store.add_repo("frontend", &Some("web".to_string()), store.now).unwrap();
    assert_eq!(added.id, "R2");
    assert_eq!(added.name, "web");

    let ids: Vec<String> = store.store.repos().into_iter().map(|r| r.id).collect();
    assert_eq!(ids, vec!["R1", "R2"], "R1 is registered automatically by init");
}

#[test]
fn an_absolute_repo_path_is_rejected() {
    let mut store = Desk::init();
    assert!(store.store.add_repo("/somewhere", &None, store.now).is_err());
}

#[test]
fn index_covers_every_registered_repo() {
    let store = web_and_api();

    // Both repos' symbols are indexed, distinguishable by their repo-qualified handle.
    let found = store
        .store
        .symbols_matching(&Some("handler".to_string()), &None, &None, &None, 500)
        .unwrap();
    assert!(found.len() >= 2);
    assert!(store.store.show("web:src/index.ts:handler").is_ok());
    assert!(store.store.show("api:src/index.py:handler").is_ok());
}

#[test]
fn scanning_one_repo_leaves_the_others_leases_untouched() {
    let mut store = web_and_api();
    take(&mut store, "api:src/index.py:handler", "alice");
    assert_eq!(store.active_leases(None).unwrap().len(), 1);

    // Rescan only the frontend file.
    let front = Files::of(&[("src/index.ts", "export function handler() { return 'front'; }\n")]);
    let input = ScanInput { services: None, ..front.input() };
    let t = store.tick();
    scan(&mut store.store, "R2", &input, false, t.now);

    assert_eq!(
        store.active_leases(None).unwrap().len(),
        1,
        "the backend lease must survive a scan scoped to the frontend repo"
    );
}

#[test]
fn a_goal_can_span_symbols_in_either_repo() {
    let mut store = web_and_api();
    store.add_goal("wire the handlers", 0).unwrap();
    store
        .goal_decompose("G1", "frontend handler", 0, &["web:src/index.ts:handler".to_string()])
        .unwrap();
    store
        .goal_decompose("G1", "backend handler", 0, &["api:src/index.py:handler".to_string()])
        .unwrap();
    assert_eq!(store.store.goal_tasks("G1").len(), 2);
}
