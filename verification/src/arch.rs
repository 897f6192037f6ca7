//! The repository as a human pictures it.
//!
//! The symbol graph collapses into the picture on a whiteboard: services, their
//! directories, their files, the tables they query, and what depends on what. All
//! of it follows from what a scan has put into the graph. Each box carries who is
//! working inside it, what they hold, and which tasks and goals land there.
//!
//! Depth says how far the collapse goes: one shows services only, two adds the
//! directories below each, three adds files. Tables are boxes of their own at any
//! depth.

use vstd::prelude::*;
use vstd::string::*;

use crate::edges::edge_lt;
use crate::graph::{first_rows, ImpactNode, ImpactNodeV};
use crate::imports::{parent_dir, parent_of};
use crate::index::{count_shown, shown};
use crate::model::{
    Edge, EdgeKind, EdgeV, Event, EventV, Goal, GoalV, Lease, LeaseV, Role, Symbol, SymbolKind, SymbolV,
    TaskState,
};
use crate::order::{deduped, rank, sorted, stable_sort, Ranked};
use crate::repo::byte_len;
use crate::rows::{each, find_row, keep, Row};
use crate::schedule::last_where;
use crate::sql::holds_text;
use crate::store::{
    append, fail_about, failure, first_where, law_filter_step, no_rows, seen, ErrorKind, LeaseRow, LeaseRowV,
    Link, LinkV, Store, StoreError, StoreErrorV, StoreV,
};
use crate::text::{
    after_last, before_first, cat, cat3, comes_before, last_piece, same, same_opt, starts_with, text_lt,
    up_to_first, without_prefix,
};
use crate::walk::{find_loops, loops_found};
use crate::work::{TaskView, TaskViewV};

verus! {

broadcast use vstd::string::group_string_axioms;

/// How much impact comes with the detail of a box.
pub const MAX_IMPACT: usize = 40;

/// How many symbols come with the detail of a box.
pub const MAX_SYMBOLS: usize = 50;

/// How many events come with the detail of a box.
pub const MAX_EVENTS: usize = 20;

/// How far back "changed recently" looks, in milliseconds.
pub const RECENT_MS: i64 = 3_600_000;

/// What a box stands for.
#[derive(Debug, Clone, Copy, PartialEq, Eq, Structural)]
pub enum ArchKind {
    Repo,
    Service,
    Dir,
    File,
    Table,
}

impl ArchKind {
    /// The word for this value.
    pub open spec fn word(self) -> Seq<char> {
        match self {
            ArchKind::Repo => "repo"@,
            ArchKind::Service => "service"@,
            ArchKind::Dir => "dir"@,
            ArchKind::File => "file"@,
            ArchKind::Table => "table"@,
        }
    }

    pub fn as_str(self) -> (r: &'static str)
        ensures
            r@ == self.word(),
    {
        match self {
            ArchKind::Repo => "repo",
            ArchKind::Service => "service",
            ArchKind::Dir => "dir",
            ArchKind::File => "file",
            ArchKind::Table => "table",
        }
    }
}

/// No two values of [`ArchKind`] share a word.
pub proof fn law_arch_kind_words(a: ArchKind, b: ArchKind)
    requires
        a.word() == b.word(),
    ensures
        a == b,
{
    reveal_strlit("repo");
    reveal_strlit("service");
    reveal_strlit("dir");
    reveal_strlit("file");
    reveal_strlit("table");
    assert("repo"@.len() == 4 && "repo"@[0] == 'r');
    assert("service"@.len() == 7 && "service"@[0] == 's');
    assert("dir"@.len() == 3 && "dir"@[0] == 'd');
    assert("file"@.len() == 4 && "file"@[0] == 'f');
    assert("table"@.len() == 5 && "table"@[0] == 't');
    let x = a.word();
    let y = b.word();
    assert(x.len() == y.len());
    assert(x[0] == y[0]);
}

/// Somebody doing something to a file right now.
#[derive(Debug)]
pub struct Activity {
    pub agent: String,
    pub repo_id: String,
    pub path: String,
    /// What they do.
    pub kind: String,
}

/// The contents of a [`Activity`].
pub struct ActivityV {
    pub agent: Seq<char>,
    pub repo_id: Seq<char>,
    pub path: Seq<char>,
    pub kind: Seq<char>,
}

impl DeepView for Activity {
    type V = ActivityV;

    open spec fn deep_view(&self) -> ActivityV {
        ActivityV {
            agent: self.agent@,
            repo_id: self.repo_id@,
            path: self.path@,
            kind: self.kind@,
        }
    }
}

impl Clone for Activity {
    fn clone(&self) -> (r: Self)
        ensures
            r.deep_view() == self.deep_view(),
    {
        let r = Activity {
            agent: self.agent.clone(),
            repo_id: self.repo_id.clone(),
            path: self.path.clone(),
            kind: self.kind.clone(),
        };
        r
    }
}

/// One box on the picture.
#[derive(Debug)]
pub struct ArchNode {
    /// The id of a symbol where there is one, else `dir:<repo>:<path>` or `repo:<repo>`.
    pub id: String,
    pub kind: ArchKind,
    pub name: String,
    pub path: Option<String>,
    pub repo_id: String,
    pub parent: Option<String>,
    pub files: i64,
    pub symbols: i64,
    pub endpoints: i64,
    pub tests: i64,
    /// Whoever holds a lease inside it or edits inside it.
    pub workers: Vec<String>,
    pub activity: Vec<Activity>,
    pub leases: i64,
    pub tasks: Vec<String>,
    pub goals: Vec<String>,
    pub review_pending: i64,
    /// Events that touched its files lately.
    pub changed_recently: i64,
}

/// The contents of a [`ArchNode`].
pub struct ArchNodeV {
    pub id: Seq<char>,
    pub kind: ArchKind,
    pub name: Seq<char>,
    pub path: Option<Seq<char>>,
    pub repo_id: Seq<char>,
    pub parent: Option<Seq<char>>,
    pub files: i64,
    pub symbols: i64,
    pub endpoints: i64,
    pub tests: i64,
    pub workers: Seq<Seq<char>>,
    pub activity: Seq<ActivityV>,
    pub leases: i64,
    pub tasks: Seq<Seq<char>>,
    pub goals: Seq<Seq<char>>,
    pub review_pending: i64,
    pub changed_recently: i64,
}

impl DeepView for ArchNode {
    type V = ArchNodeV;

    open spec fn deep_view(&self) -> ArchNodeV {
        ArchNodeV {
            id: self.id@,
            kind: self.kind,
            name: self.name@,
            path: self.path.deep_view(),
            repo_id: self.repo_id@,
            parent: self.parent.deep_view(),
            files: self.files,
            symbols: self.symbols,
            endpoints: self.endpoints,
            tests: self.tests,
            workers: self.workers.deep_view(),
            activity: self.activity.deep_view(),
            leases: self.leases,
            tasks: self.tasks.deep_view(),
            goals: self.goals.deep_view(),
            review_pending: self.review_pending,
            changed_recently: self.changed_recently,
        }
    }
}

impl Clone for ArchNode {
    fn clone(&self) -> (r: Self)
        ensures
            r.deep_view() == self.deep_view(),
    {
        let r = ArchNode {
            id: self.id.clone(),
            kind: self.kind,
            name: self.name.clone(),
            path: self.path.clone(),
            repo_id: self.repo_id.clone(),
            parent: self.parent.clone(),
            files: self.files,
            symbols: self.symbols,
            endpoints: self.endpoints,
            tests: self.tests,
            workers: self.workers.clone(),
            activity: self.activity.clone(),
            leases: self.leases,
            tasks: self.tasks.clone(),
            goals: self.goals.clone(),
            review_pending: self.review_pending,
            changed_recently: self.changed_recently,
        };
        assert(r.workers.deep_view() =~= self.workers.deep_view());
        assert(r.activity.deep_view() =~= self.activity.deep_view());
        assert(r.tasks.deep_view() =~= self.tasks.deep_view());
        assert(r.goals.deep_view() =~= self.goals.deep_view());
        r
    }
}

/// A pointer to another box, with enough to show it.
#[derive(Debug)]
pub struct ArchRef {
    pub id: String,
    pub name: String,
    pub kind: ArchKind,
}

/// The contents of a [`ArchRef`].
pub struct ArchRefV {
    pub id: Seq<char>,
    pub name: Seq<char>,
    pub kind: ArchKind,
}

impl DeepView for ArchRef {
    type V = ArchRefV;

    open spec fn deep_view(&self) -> ArchRefV {
        ArchRefV {
            id: self.id@,
            name: self.name@,
            kind: self.kind,
        }
    }
}

impl Clone for ArchRef {
    fn clone(&self) -> (r: Self)
        ensures
            r.deep_view() == self.deep_view(),
    {
        let r = ArchRef {
            id: self.id.clone(),
            name: self.name.clone(),
            kind: self.kind,
        };
        r
    }
}

/// An arrow between two boxes.
#[derive(Debug)]
pub struct ArchEdge {
    pub from: String,
    pub to: String,
    pub kind: EdgeKind,
    /// How many edges between symbols it stands for.
    pub weight: i64,
}

/// The contents of a [`ArchEdge`].
pub struct ArchEdgeV {
    pub from: Seq<char>,
    pub to: Seq<char>,
    pub kind: EdgeKind,
    pub weight: i64,
}

impl DeepView for ArchEdge {
    type V = ArchEdgeV;

    open spec fn deep_view(&self) -> ArchEdgeV {
        ArchEdgeV {
            from: self.from@,
            to: self.to@,
            kind: self.kind,
            weight: self.weight,
        }
    }
}

impl Clone for ArchEdge {
    fn clone(&self) -> (r: Self)
        ensures
            r.deep_view() == self.deep_view(),
    {
        let r = ArchEdge {
            from: self.from.clone(),
            to: self.to.clone(),
            kind: self.kind,
            weight: self.weight,
        };
        r
    }
}

/// The picture.
#[derive(Debug)]
pub struct ArchGraph {
    pub nodes: Vec<ArchNode>,
    pub edges: Vec<ArchEdge>,
    pub depth: usize,
    pub generated_at: i64,
    /// Boxes that depend on each other in a loop. A loop is a fact worth seeing.
    pub cycles: Vec<Vec<String>>,
}

/// The contents of a [`ArchGraph`].
pub struct ArchGraphV {
    pub nodes: Seq<ArchNodeV>,
    pub edges: Seq<ArchEdgeV>,
    pub depth: usize,
    pub generated_at: i64,
    pub cycles: Seq<Seq<Seq<char>>>,
}

impl DeepView for ArchGraph {
    type V = ArchGraphV;

    open spec fn deep_view(&self) -> ArchGraphV {
        ArchGraphV {
            nodes: self.nodes.deep_view(),
            edges: self.edges.deep_view(),
            depth: self.depth,
            generated_at: self.generated_at,
            cycles: self.cycles.deep_view(),
        }
    }
}

/// Everything worth knowing about one box.
#[derive(Debug)]
pub struct NodeDetail {
    pub node: ArchNode,
    pub depends_on: Vec<ArchRef>,
    pub depended_on_by: Vec<ArchRef>,
    pub tables: Vec<ArchRef>,
    pub children: Vec<ArchNode>,
    /// A sample of what is inside.
    pub symbols: Vec<Symbol>,
    pub routes: Vec<Symbol>,
    pub held: Vec<Lease>,
    pub tasks: Vec<TaskView>,
    pub goals: Vec<Goal>,
    pub impact: Vec<ImpactNode>,
    pub recent_events: Vec<Event>,
}

/// The contents of a [`NodeDetail`].
pub struct NodeDetailV {
    pub node: ArchNodeV,
    pub depends_on: Seq<ArchRefV>,
    pub depended_on_by: Seq<ArchRefV>,
    pub tables: Seq<ArchRefV>,
    pub children: Seq<ArchNodeV>,
    pub symbols: Seq<SymbolV>,
    pub routes: Seq<SymbolV>,
    pub held: Seq<LeaseV>,
    pub tasks: Seq<TaskViewV>,
    pub goals: Seq<GoalV>,
    pub impact: Seq<ImpactNodeV>,
    pub recent_events: Seq<EventV>,
}

impl DeepView for NodeDetail {
    type V = NodeDetailV;

    open spec fn deep_view(&self) -> NodeDetailV {
        NodeDetailV {
            node: self.node.deep_view(),
            depends_on: self.depends_on.deep_view(),
            depended_on_by: self.depended_on_by.deep_view(),
            tables: self.tables.deep_view(),
            children: self.children.deep_view(),
            symbols: self.symbols.deep_view(),
            routes: self.routes.deep_view(),
            held: self.held.deep_view(),
            tasks: self.tasks.deep_view(),
            goals: self.goals.deep_view(),
            impact: self.impact.deep_view(),
            recent_events: self.recent_events.deep_view(),
        }
    }
}

impl Row for Activity {
    fn copy(&self) -> (r: Self) {
        self.clone()
    }
}

impl Row for ArchNode {
    fn copy(&self) -> (r: Self) {
        self.clone()
    }
}

impl Row for ArchEdge {
    fn copy(&self) -> (r: Self) {
        self.clone()
    }
}

impl Row for ImpactNode {
    fn copy(&self) -> (r: Self) {
        self.clone()
    }
}

impl Ranked for ArchNode {
    /// By id.
    open spec fn before(a: ArchNodeV, b: ArchNodeV) -> bool {
        text_lt(a.id, b.id)
    }

    fn is_before(&self, other: &Self) -> (r: bool) {
        comes_before(self.id.as_str(), other.id.as_str())
    }
}

/// A symbol, ordered by its path.
pub struct ByPath {
    pub symbol: Symbol,
}

impl DeepView for ByPath {
    type V = SymbolV;

    open spec fn deep_view(&self) -> SymbolV {
        self.symbol.deep_view()
    }
}

impl Ranked for ByPath {
    /// By path.
    open spec fn before(a: SymbolV, b: SymbolV) -> bool {
        text_lt(a.path, b.path)
    }

    fn is_before(&self, other: &Self) -> (r: bool) {
        comes_before(self.symbol.path.as_str(), other.symbol.path.as_str())
    }
}

/// Which box a file belongs to.
#[derive(Debug)]
pub struct Owned {
    pub repo_id: String,
    pub path: String,
    pub node: String,
}

/// The contents of an [`Owned`].
pub struct OwnedV {
    pub repo_id: Seq<char>,
    pub path: Seq<char>,
    pub node: Seq<char>,
}

impl DeepView for Owned {
    type V = OwnedV;

    open spec fn deep_view(&self) -> OwnedV {
        OwnedV { repo_id: self.repo_id@, path: self.path@, node: self.node@ }
    }
}

/// The boxes, and which of them each file belongs to.
pub struct Layout {
    pub nodes: Vec<ArchNode>,
    pub owner: Vec<Owned>,
}

/// The contents of a [`Layout`].
pub struct LayoutV {
    pub nodes: Seq<ArchNodeV>,
    pub owner: Seq<OwnedV>,
}

impl DeepView for Layout {
    type V = LayoutV;

    open spec fn deep_view(&self) -> LayoutV {
        LayoutV { nodes: self.nodes.deep_view(), owner: self.owner.deep_view() }
    }
}

// ---------------------------------------------------------------------- the boxes

/// A box with nothing in it yet. A box without a name is the root.
pub open spec fn blank(
    id: Seq<char>,
    kind: ArchKind,
    name: Seq<char>,
    path: Option<Seq<char>>,
    repo: Seq<char>,
    parent: Option<Seq<char>>,
) -> ArchNodeV {
    ArchNodeV {
        id,
        kind,
        name: if name.len() == 0 {
            "(root)"@
        } else {
            name
        },
        path,
        repo_id: repo,
        parent,
        files: 0,
        symbols: 0,
        endpoints: 0,
        tests: 0,
        workers: Seq::empty(),
        activity: Seq::empty(),
        leases: 0,
        tasks: Seq::empty(),
        goals: Seq::empty(),
        review_pending: 0,
        changed_recently: 0,
    }
}

/// Is the path inside the base? Everything is inside the root.
pub open spec fn under(path: Seq<char>, base: Seq<char>) -> bool {
    base.len() == 0 || path == base || (base + "/"@).is_prefix_of(path)
}

/// The first component below the base. A file directly in the base is its own group.
pub open spec fn top_dir(path: Seq<char>, base: Seq<char>) -> Seq<char> {
    let rest = if base.len() > 0 && (base + "/"@).is_prefix_of(path) {
        path.skip((base + "/"@).len() as int)
    } else {
        path
    };
    match before_first(rest, '/') {
        Some(seg) => if base.len() == 0 {
            seg
        } else {
            base + "/"@ + seg
        },
        None => parent_of(path),
    }
}

/// The box of a repository's files that no service holds.
pub open spec fn loose_id(repo: Seq<char>) -> Seq<char> {
    "repo:"@ + repo
}

/// The box of a directory.
pub open spec fn dir_id(repo: Seq<char>, dir: Seq<char>) -> Seq<char> {
    "dir:"@ + repo + ":"@ + dir
}

/// The first of the services with the longest directory.
pub open spec fn longest_home(services: Seq<SymbolV>) -> Option<SymbolV>
    decreases services.len(),
{
    if services.len() == 0 {
        None
    } else {
        match longest_home(services.drop_last()) {
            Some(s) => if byte_len(parent_of(services.last().path)) > byte_len(parent_of(s.path)) {
                Some(services.last())
            } else {
                Some(s)
            },
            None => Some(services.last()),
        }
    }
}

/// The service that a file belongs to: of those whose manifest stands above it, the
/// one that stands lowest.
pub open spec fn home_of(services: Seq<SymbolV>, f: SymbolV) -> Option<SymbolV> {
    longest_home(
        services.filter(|s: SymbolV| s.repo_id == f.repo_id && under(f.path, parent_of(s.path))),
    )
}

/// The box with this id.
pub open spec fn node_in(nodes: Seq<ArchNodeV>, id: Seq<char>) -> Option<ArchNodeV> {
    first_where(nodes, |n: ArchNodeV| n.id == id)
}

/// The boxes with this one, in place of the one with its id if there is one.
pub open spec fn put_node(nodes: Seq<ArchNodeV>, n: ArchNodeV) -> Seq<ArchNodeV> {
    if node_in(nodes, n.id) is Some {
        nodes.map_values(
            |x: ArchNodeV|
                if x.id == n.id {
                    n
                } else {
                    x
                },
        )
    } else {
        nodes.push(n)
    }
}

/// The boxes with this one, unless there is one with its id.
pub open spec fn add_node(nodes: Seq<ArchNodeV>, n: ArchNodeV) -> Seq<ArchNodeV> {
    if node_in(nodes, n.id) is Some {
        nodes
    } else {
        nodes.push(n)
    }
}

/// The boxes with several more.
pub open spec fn put_nodes(nodes: Seq<ArchNodeV>, more: Seq<ArchNodeV>) -> Seq<ArchNodeV>
    decreases more.len(),
{
    if more.len() == 0 {
        nodes
    } else {
        put_node(put_nodes(nodes, more.drop_last()), more.last())
    }
}

/// The box of a service.
pub open spec fn service_box(s: SymbolV) -> ArchNodeV {
    blank(s.id, ArchKind::Service, s.name, Some(s.path), s.repo_id, None)
}

/// The box of a table.
pub open spec fn table_box(s: SymbolV) -> ArchNodeV {
    blank(s.id, ArchKind::Table, s.name, Some(s.path), s.repo_id, None)
}

impl LayoutV {
    /// The layout with one file put where it belongs.
    pub open spec fn with_file(self, services: Seq<SymbolV>, f: SymbolV, depth: usize) -> LayoutV {
        let service = match home_of(services, f) {
            Some(s) => s.id,
            None => loose_id(f.repo_id),
        };
        let nodes = match home_of(services, f) {
            Some(_) => self.nodes,
            None => add_node(
                self.nodes,
                blank(service, ArchKind::Repo, f.repo_id, None, f.repo_id, None),
            ),
        };
        let (nodes, node) = if depth == 1 {
            (nodes, service)
        } else if depth == 2 {
            let (base, name) = match node_in(nodes, service) {
                Some(n) => (
                    match n.path {
                        Some(p) => parent_of(p),
                        None => Seq::empty(),
                    },
                    n.name,
                ),
                None => (Seq::empty(), Seq::empty()),
            };
            let dir = top_dir(f.path, base);
            let id = dir_id(f.repo_id, dir);
            (
                add_node(
                    nodes,
                    blank(
                        id,
                        ArchKind::Dir,
                        name + "/"@ + after_last(dir, '/'),
                        Some(dir),
                        f.repo_id,
                        Some(service),
                    ),
                ),
                id,
            )
        } else {
            (
                put_node(
                    nodes,
                    blank(
                        f.id,
                        ArchKind::File,
                        after_last(f.path, '/'),
                        Some(f.path),
                        f.repo_id,
                        Some(service),
                    ),
                ),
                f.id,
            )
        };
        LayoutV {
            nodes,
            owner: self.owner.push(OwnedV { repo_id: f.repo_id, path: f.path, node }),
        }
    }

    /// The layout with several files put where they belong.
    pub open spec fn with_files(self, services: Seq<SymbolV>, files: Seq<SymbolV>, depth: usize) -> LayoutV
        decreases files.len(),
    {
        if files.len() == 0 {
            self
        } else {
            self.with_files(services, files.drop_last(), depth).with_file(
                services,
                files.last(),
                depth,
            )
        }
    }

    /// The box that a file belongs to.
    pub open spec fn owner_of(self, repo: Seq<char>, path: Seq<char>) -> Option<Seq<char>> {
        match last_where(self.owner, |o: OwnedV| o.repo_id == repo && o.path == path) {
            Some(o) => Some(o.node),
            None => None,
        }
    }

    /// The boxes that hold something in a file: the one it belongs to and the one
    /// around that.
    pub open spec fn place(self, repo: Seq<char>, path: Seq<char>) -> Seq<Seq<char>> {
        match self.owner_of(repo, path) {
            Some(id) => match node_in(self.nodes, id) {
                Some(n) => match n.parent {
                    Some(p) => if node_in(self.nodes, p) is Some {
                        seq![id, p]
                    } else {
                        seq![id]
                    },
                    None => seq![id],
                },
                None => Seq::empty(),
            },
            None => Seq::empty(),
        }
    }
}

/// The layout of symbols.
pub open spec fn laid_out(symbols: Seq<SymbolV>, depth: usize) -> LayoutV {
    let services = symbols.filter(|s: SymbolV| s.kind is Service);
    let files = symbols.filter(|s: SymbolV| s.kind is File);
    let tables = symbols.filter(|s: SymbolV| s.kind is Table);
    let l = LayoutV {
        nodes: put_nodes(Seq::empty(), services.map_values(|s: SymbolV| service_box(s))),
        owner: Seq::empty(),
    }.with_files(services, files, depth);
    LayoutV {
        nodes: put_nodes(l.nodes, tables.map_values(|s: SymbolV| table_box(s))),
        owner: l.owner,
    }
}

/// The file that a handle names.
pub open spec fn file_of(handle: Seq<char>) -> Seq<char> {
    match before_first(handle, ':') {
        Some(f) => f,
        None => handle,
    }
}

/// Each text once, where it comes first.
pub open spec fn distinct(s: Seq<Seq<char>>) -> Seq<Seq<char>>
    decreases s.len(),
{
    if s.len() == 0 {
        Seq::empty()
    } else {
        let d = distinct(s.drop_last());
        if d.contains(s.last()) {
            d
        } else {
            d.push(s.last())
        }
    }
}

/// The places of several symbols, one after the other.
pub open spec fn places_of(l: LayoutV, symbols: Seq<SymbolV>) -> Seq<Seq<char>>
    decreases symbols.len(),
{
    if symbols.len() == 0 {
        Seq::empty()
    } else {
        places_of(l, symbols.drop_last()) + l.place(symbols.last().repo_id, symbols.last().path)
    }
}

impl StoreV {
    /// The symbols of a repository, or of all, by path.
    pub open spec fn arch_symbols(self, repo: Option<Seq<char>>) -> Seq<SymbolV> {
        sorted(
            self.symbols.filter(|s: SymbolV| repo is None || s.repo_id == repo->Some_0),
            rank::<ByPath>(),
        )
    }

    /// All leases in force, oldest first.
    pub open spec fn held_now(self) -> Seq<LeaseV> {
        sorted(
            self.leases.filter(|l: LeaseRowV| l.state is Active),
            rank::<LeaseRow>(),
        ).map_values(|l: LeaseRowV| self.lease_of(l))
    }

    /// The boxes that hold the symbol of a lease.
    pub open spec fn lease_place(self, l: LayoutV, x: LeaseV) -> Seq<Seq<char>> {
        match self.symbol(x.symbol_id) {
            Some(s) => l.place(s.repo_id, s.path),
            None => Seq::empty(),
        }
    }

    /// The boxes that hold a symbol of a task.
    pub open spec fn task_place(self, l: LayoutV, t: TaskViewV) -> Seq<Seq<char>> {
        places_of(l, self.task_scope(t.task.id))
    }

    /// The goals of tasks.
    pub open spec fn goals_of(self, ts: Seq<TaskViewV>) -> Seq<Seq<char>>
        decreases ts.len(),
    {
        if ts.len() == 0 {
            Seq::empty()
        } else {
            let rest = self.goals_of(ts.drop_last());
            match self.task_goal(ts.last().task.id) {
                Some(g) => rest.push(g),
                None => rest,
            }
        }
    }

    /// The events of the last hour.
    pub open spec fn changes(self, now: i64) -> Seq<EventV> {
        self.recent(500).filter(|e: EventV| e.ts >= now - RECENT_MS)
    }

    /// A box with what is in it and what is happening in it.
    pub open spec fn filled(
        self,
        l: LayoutV,
        symbols: Seq<SymbolV>,
        live: Seq<ActivityV>,
        now: i64,
        n: ArchNodeV,
    ) -> ArchNodeV {
        let mine = contents(symbols).filter(
            |s: SymbolV| l.place(s.repo_id, s.path).contains(n.id),
        );
        let held = self.held_now().filter(|x: LeaseV| self.lease_place(l, x).contains(n.id));
        let acts = live.filter(|a: ActivityV| l.place(a.repo_id, a.path).contains(n.id));
        let landing = self.tasks_listed().filter(
            |t: TaskViewV| self.task_place(l, t).contains(n.id),
        );
        let changes = self.changes(now).filter(
            |e: EventV| event_place(l, e).contains(n.id),
        );
        ArchNodeV {
            files: shown(mine.filter(|s: SymbolV| s.kind is File).len()) as i64,
            symbols: shown(mine.filter(|s: SymbolV| !(s.kind is File)).len()) as i64,
            endpoints: shown(
                mine.filter(|s: SymbolV| !(s.kind is File) && s.role == Some(Role::Api)).len(),
            ) as i64,
            tests: shown(
                mine.filter(|s: SymbolV| !(s.kind is File) && s.role == Some(Role::Test)).len(),
            ) as i64,
            workers: distinct(
                held.map_values(|x: LeaseV| x.agent) + acts.map_values(|a: ActivityV| a.agent),
            ),
            activity: acts,
            leases: shown(held.len()) as i64,
            tasks: landing.map_values(|t: TaskViewV| t.task.id),
            goals: distinct(self.goals_of(landing)),
            review_pending: shown(
                landing.filter(|t: TaskViewV| t.task.state is Review).len(),
            ) as i64,
            changed_recently: shown(changes.len()) as i64,
            ..n
        }
    }

    /// The box that a symbol belongs to: a table is its own, anything else is found
    /// through its file.
    pub open spec fn end_box(self, l: LayoutV, symbols: Seq<SymbolV>, id: Seq<char>) -> Option<Seq<char>> {
        match first_where(symbols, |s: SymbolV| s.id == id) {
            Some(s) => if s.kind is Table {
                if node_in(l.nodes, s.id) is Some {
                    Some(s.id)
                } else {
                    None
                }
            } else {
                l.owner_of(s.repo_id, s.path)
            },
            None => None,
        }
    }

    /// The edges between boxes that edges between symbols stand for, one for each.
    /// An edge from a box to itself says nothing and is left out.
    pub open spec fn box_edges(self, l: LayoutV, symbols: Seq<SymbolV>, edges: Seq<EdgeV>) -> Seq<EdgeV>
        decreases edges.len(),
    {
        if edges.len() == 0 {
            Seq::empty()
        } else {
            let rest = self.box_edges(l, symbols, edges.drop_last());
            let e = edges.last();
            match (self.end_box(l, symbols, e.src), self.end_box(l, symbols, e.dst)) {
                (Some(a), Some(b)) => if (e.kind is Imports || e.kind is Queries) && a != b {
                    rest.push(EdgeV { src: a, dst: b, kind: e.kind })
                } else {
                    rest
                },
                _ => rest,
            }
        }
    }

    /// The arrows: one for each pair of boxes and kind, with how many edges it
    /// stands for.
    pub open spec fn arrows(self, l: LayoutV, symbols: Seq<SymbolV>) -> Seq<ArchEdgeV> {
        let all = self.box_edges(l, symbols, self.edges);
        deduped(sorted(all, |a: EdgeV, b: EdgeV| edge_lt(a, b))).map_values(
            |e: EdgeV| arrow(all, e),
        )
    }

    /// The picture of a repository, or of all.
    pub open spec fn architecture(
        self,
        repo: Option<Seq<char>>,
        depth: usize,
        live: Seq<ActivityV>,
        now: i64,
    ) -> ArchGraphV {
        let depth = clamp_depth(depth);
        let symbols = self.arch_symbols(repo);
        let l = laid_out(symbols, depth);
        let nodes = sorted(
            l.nodes.map_values(|n: ArchNodeV| self.filled(l, symbols, live, now, n)),
            rank::<ArchNode>(),
        );
        let edges = self.arrows(l, symbols);
        ArchGraphV {
            nodes,
            edges,
            depth,
            generated_at: now,
            cycles: loops_found(
                nodes.map_values(|n: ArchNodeV| n.id),
                import_links(edges),
            ),
        }
    }

    /// The paths that a box covers.
    pub open spec fn paths_under(self, n: ArchNodeV) -> Seq<Seq<char>> {
        if n.kind is Table || n.kind is File {
            match n.path {
                Some(p) => seq![p],
                None => Seq::empty(),
            }
        } else {
            let base = match n.path {
                Some(p) => if n.kind is Service {
                    parent_of(p)
                } else {
                    p
                },
                None => Seq::empty(),
            };
            self.arch_symbols(Some(n.repo_id)).filter(
                |f: SymbolV| f.kind is File && under(f.path, base),
            ).map_values(|f: SymbolV| f.path)
        }
    }

    /// Everything behind one box.
    pub open spec fn arch_node(
        self,
        id: Seq<char>,
        depth: usize,
        live: Seq<ActivityV>,
        now: i64,
    ) -> Result<NodeDetailV, StoreErrorV> {
        let g = self.architecture(None, depth, live, now);
        match node_in(g.nodes, id) {
            None => Err(failure(ErrorKind::NoSuchNode, "no such node: "@ + id)),
            Some(n) => {
                let paths = self.paths_under(n);
                Ok(
                    NodeDetailV {
                        node: n,
                        depends_on: referred(
                            g.nodes,
                            g.edges.filter(
                                |e: ArchEdgeV| e.from == n.id && e.kind is Imports,
                            ).map_values(|e: ArchEdgeV| e.to),
                        ),
                        depended_on_by: referred(
                            g.nodes,
                            g.edges.filter(
                                |e: ArchEdgeV| e.to == n.id && e.kind is Imports,
                            ).map_values(|e: ArchEdgeV| e.from),
                        ),
                        tables: referred(
                            g.nodes,
                            g.edges.filter(
                                |e: ArchEdgeV| e.from == n.id && e.kind is Queries,
                            ).map_values(|e: ArchEdgeV| e.to),
                        ),
                        children: g.nodes.filter(|x: ArchNodeV| x.parent == Some(n.id)),
                        symbols: at_most(
                            self.arch_symbols(Some(n.repo_id)).filter(
                                |s: SymbolV|
                                    !(s.kind is File) && !(s.kind is Service) && paths.contains(s.path),
                            ),
                            MAX_SYMBOLS as nat,
                        ),
                        routes: self.symbols.filter(
                            |s: SymbolV|
                                s.role == Some(Role::Api) && s.repo_id == n.repo_id && paths.contains(
                                    s.path,
                                ),
                        ),
                        held: self.held_now().filter(
                            |x: LeaseV| paths.contains(file_of(x.symbol_handle)),
                        ),
                        tasks: self.tasks_listed().filter(
                            |t: TaskViewV| n.tasks.contains(t.task.id),
                        ),
                        goals: self.goals_listed().filter(|x: GoalV| n.goals.contains(x.id)),
                        impact: if "s_"@.is_prefix_of(n.id) {
                            at_most(self.impact(n.id, 2), MAX_IMPACT as nat)
                        } else {
                            Seq::empty()
                        },
                        recent_events: at_most(
                            self.recent(300).filter(
                                |e: EventV|
                                    e.symbol_handle matches Some(h) && paths.contains(file_of(h)),
                            ).reverse(),
                            MAX_EVENTS as nat,
                        ),
                    },
                )
            },
        }
    }
}

/// The first items of a list.
pub open spec fn at_most<T>(s: Seq<T>, n: nat) -> Seq<T> {
    s.take(
        if s.len() < n {
            s.len() as int
        } else {
            n as int
        },
    )
}

/// The depth as it is used.
pub open spec fn clamp_depth(depth: usize) -> usize {
    if depth < 1 {
        1
    } else if depth > 3 {
        3
    } else {
        depth
    }
}

/// What is counted: not services and not tables.
pub open spec fn contents(symbols: Seq<SymbolV>) -> Seq<SymbolV> {
    symbols.filter(|s: SymbolV| !(s.kind is Service) && !(s.kind is Table))
}

/// The boxes that hold the file of an event. Events name no repository: the first
/// file with the path counts.
pub open spec fn event_place(l: LayoutV, e: EventV) -> Seq<Seq<char>> {
    match e.symbol_handle {
        Some(h) => match first_where(l.owner, |o: OwnedV| o.path == file_of(h)) {
            Some(o) => l.place(o.repo_id, o.path),
            None => Seq::empty(),
        },
        None => Seq::empty(),
    }
}

/// The test for one edge.
pub open spec fn is_edge(e: EdgeV) -> spec_fn(EdgeV) -> bool {
    |x: EdgeV| x == e
}

/// The arrow of an edge between boxes.
pub open spec fn arrow(all: Seq<EdgeV>, e: EdgeV) -> ArchEdgeV {
    ArchEdgeV {
        from: e.src,
        to: e.dst,
        kind: e.kind,
        weight: shown(all.filter(is_edge(e)).len()) as i64,
    }
}

/// The import arrows as links.
pub open spec fn import_links(edges: Seq<ArchEdgeV>) -> Seq<LinkV> {
    edges.filter(|e: ArchEdgeV| e.kind is Imports).map_values(
        |e: ArchEdgeV| LinkV { left: e.from, right: e.to },
    )
}

/// The pointers to the boxes that are there.
pub open spec fn referred(nodes: Seq<ArchNodeV>, ids: Seq<Seq<char>>) -> Seq<ArchRefV>
    decreases ids.len(),
{
    if ids.len() == 0 {
        Seq::empty()
    } else {
        let rest = referred(nodes, ids.drop_last());
        match node_in(nodes, ids.last()) {
            Some(n) => rest.push(ArchRefV { id: n.id, name: n.name, kind: n.kind }),
            None => rest,
        }
    }
}

// ---------------------------------------------------------------- the operations

impl ArchRef {
    /// A pointer to a box.
    pub fn of(n: &ArchNode) -> (r: ArchRef)
        ensures
            r.deep_view() == (ArchRefV {
                id: n.deep_view().id,
                name: n.deep_view().name,
                kind: n.deep_view().kind,
            }),
    {
        ArchRef { id: n.id.clone(), name: n.name.clone(), kind: n.kind }
    }
}

fn blank_node(
    id: &str,
    kind: ArchKind,
    name: &str,
    path: Option<String>,
    repo_id: &str,
    parent: Option<String>,
) -> (r: ArchNode)
    ensures
        r.deep_view() == blank(id@, kind, name@, path.deep_view(), repo_id@, parent.deep_view()),
{
    ArchNode {
        id: id.to_owned(),
        kind,
        name: if name.is_empty() {
            "(root)".to_owned()
        } else {
            name.to_owned()
        },
        path,
        repo_id: repo_id.to_owned(),
        parent,
        files: 0,
        symbols: 0,
        endpoints: 0,
        tests: 0,
        workers: no_rows(),
        activity: no_rows(),
        leases: 0,
        tasks: no_rows(),
        goals: no_rows(),
        review_pending: 0,
        changed_recently: 0,
    }
}

fn is_under(path: &str, base: &str) -> (r: bool)
    ensures
        r == under(path@, base@),
{
    base.is_empty() || same(path, base) || starts_with(path, cat(base, "/").as_str())
}

fn top_dir_of(path: &str, base: &str) -> (r: String)
    ensures
        r@ == top_dir(path@, base@),
{
    let rest = if base.is_empty() {
        path.to_owned()
    } else {
        match without_prefix(path, cat(base, "/").as_str()) {
            Some(x) => x,
            None => path.to_owned(),
        }
    };
    match up_to_first(rest.as_str(), '/') {
        Some(seg) => {
            if base.is_empty() {
                seg
            } else {
                cat3(base, "/", seg.as_str())
            }
        },
        None => parent_dir(path),
    }
}

fn dir_node_id(repo: &str, dir: &str) -> (r: String)
    ensures
        r@ == dir_id(repo@, dir@),
{
    cat(cat3("dir:", repo, ":").as_str(), dir)
}

fn find_home(services: &Vec<Symbol>, f: &Symbol) -> (r: Option<Symbol>)
    ensures
        r.deep_view() == home_of(services.deep_view(), f.deep_view()),
{
    let above = |s: &Symbol| -> (b: bool)
        ensures b == (s.deep_view().repo_id == f.deep_view().repo_id && under(f.deep_view().path, parent_of(s.deep_view().path)))
    {
        same(s.repo_id.as_str(), f.repo_id.as_str()) && is_under(
            f.path.as_str(),
            parent_dir(s.path.as_str()).as_str(),
        )
    };
    let rows = keep(
        services,
        above,
        Ghost(
            |s: SymbolV|
                s.repo_id == f.deep_view().repo_id && under(
                    f.deep_view().path,
                    parent_of(s.path),
                ),
        ),
    );
    let ghost all = rows.deep_view();
    let mut best: Option<usize> = None;
    let mut i: usize = 0;
    while i < rows.len()
        invariant
            all == rows.deep_view(),
            i <= rows@.len(),
            match best {
                Some(k) => k < i && longest_home(all.take(i as int)) == Some(
                    rows@[k as int].deep_view(),
                ),
                None => longest_home(all.take(i as int)) is None,
            },
        decreases rows@.len() - i,
    {
        proof {
            assert(all.take(i + 1).drop_last() =~= all.take(i as int));
            assert(all.take(i + 1).last() == rows@[i as int].deep_view());
        }
        match best {
            Some(k) => {
                if bytes_in(parent_dir(rows[i].path.as_str()).as_str()) > bytes_in(
                    parent_dir(rows[k].path.as_str()).as_str(),
                ) {
                    best = Some(i);
                }
            },
            None => {
                best = Some(i);
            },
        }
        i += 1;
    }
    assert(all.take(i as int) =~= all);
    match best {
        Some(k) => Some(rows[k].clone()),
        None => None,
    }
}

fn bytes_in(s: &str) -> (n: usize)
    ensures
        n == byte_len(s@),
{
    s.as_bytes().len()
}

fn find_node(nodes: &Vec<ArchNode>, id: &str) -> (r: Option<usize>)
    ensures
        match r {
            Some(i) => i < nodes@.len() && node_in(nodes.deep_view(), id@) == Some(
                nodes@[i as int].deep_view(),
            ),
            None => node_in(nodes.deep_view(), id@) is None,
        },
{
    let test = |n: &ArchNode| -> (b: bool)
        ensures b == (n.deep_view().id == id@)
    {
        same(n.id.as_str(), id)
    };
    find_row(nodes, test, Ghost(|n: ArchNodeV| n.id == id@))
}

fn put_box(nodes: &mut Vec<ArchNode>, n: ArchNode)
    ensures
        final(nodes).deep_view() == put_node(old(nodes).deep_view(), n.deep_view()),
{
    if find_node(nodes, n.id.as_str()).is_none() {
        append(nodes, n);
        return ;
    }
    let swap = |x: &ArchNode| -> (y: ArchNode)
        ensures y.deep_view() == (if x.deep_view().id == n.deep_view().id { n.deep_view() } else { x.deep_view() })
    {
        if same(x.id.as_str(), n.id.as_str()) {
            n.clone()
        } else {
            x.clone()
        }
    };
    crate::rows::change(
        nodes,
        swap,
        Ghost(
            |x: ArchNodeV|
                if x.id == n.deep_view().id {
                    n.deep_view()
                } else {
                    x
                },
        ),
    );
}

fn add_box(nodes: &mut Vec<ArchNode>, n: ArchNode)
    ensures
        final(nodes).deep_view() == add_node(old(nodes).deep_view(), n.deep_view()),
{
    if find_node(nodes, n.id.as_str()).is_none() {
        append(nodes, n);
    }
}

fn put_boxes(nodes: &mut Vec<ArchNode>, more: &Vec<ArchNode>)
    ensures
        final(nodes).deep_view() == put_nodes(old(nodes).deep_view(), more.deep_view()),
{
    let ghost before = nodes.deep_view();
    let ghost all = more.deep_view();
    let mut i: usize = 0;
    while i < more.len()
        invariant
            all == more.deep_view(),
            i <= more@.len(),
            nodes.deep_view() == put_nodes(before, all.take(i as int)),
        decreases more@.len() - i,
    {
        proof {
            assert(all.take(i + 1).drop_last() =~= all.take(i as int));
            assert(all.take(i + 1).last() == more@[i as int].deep_view());
        }
        put_box(nodes, more[i].clone());
        i += 1;
    }
    assert(all.take(i as int) =~= all);
}

impl Layout {
    fn put_file(&mut self, services: &Vec<Symbol>, f: &Symbol, depth: usize)
        ensures
            final(self).deep_view() == old(self).deep_view().with_file(
                services.deep_view(),
                f.deep_view(),
                depth,
            ),
    {
        let repo = f.repo_id.as_str();
        let service = match find_home(services, f) {
            Some(s) => s.id,
            None => {
                let id = cat("repo:", repo);
                add_box(
                    &mut self.nodes,
                    blank_node(id.as_str(), ArchKind::Repo, repo, None, repo, None),
                );
                id
            },
        };
        let node = if depth == 1 {
            service
        } else if depth == 2 {
            let mut base = String::new();
            let mut name = String::new();
            assert(base@ =~= Seq::empty());
            assert(name@ =~= Seq::empty());
            if let Some(i) = find_node(&self.nodes, service.as_str()) {
                let n = &self.nodes[i];
                if let Some(p) = &n.path {
                    base = parent_dir(p.as_str());
                }
                name = n.name.clone();
            }
            let dir = top_dir_of(f.path.as_str(), base.as_str());
            let id = dir_node_id(repo, dir.as_str());
            let label = cat3(name.as_str(), "/", last_piece(dir.as_str(), '/').as_str());
            add_box(
                &mut self.nodes,
                blank_node(
                    id.as_str(),
                    ArchKind::Dir,
                    label.as_str(),
                    Some(dir),
                    repo,
                    Some(service),
                ),
            );
            id
        } else {
            put_box(
                &mut self.nodes,
                blank_node(
                    f.id.as_str(),
                    ArchKind::File,
                    last_piece(f.path.as_str(), '/').as_str(),
                    Some(f.path.clone()),
                    repo,
                    Some(service),
                ),
            );
            f.id.clone()
        };
        append(
            &mut self.owner,
            Owned { repo_id: repo.to_owned(), path: f.path.clone(), node },
        );
    }

    fn put_files(&mut self, services: &Vec<Symbol>, files: &Vec<Symbol>, depth: usize)
        ensures
            final(self).deep_view() == old(self).deep_view().with_files(
                services.deep_view(),
                files.deep_view(),
                depth,
            ),
    {
        let ghost before = self.deep_view();
        let ghost sv = services.deep_view();
        let ghost all = files.deep_view();
        let mut i: usize = 0;
        while i < files.len()
            invariant
                sv == services.deep_view(),
                all == files.deep_view(),
                i <= files@.len(),
                self.deep_view() == before.with_files(sv, all.take(i as int), depth),
            decreases files@.len() - i,
        {
            proof {
                assert(all.take(i + 1).drop_last() =~= all.take(i as int));
                assert(all.take(i + 1).last() == files@[i as int].deep_view());
            }
            self.put_file(services, &files[i], depth);
            i += 1;
        }
        assert(all.take(i as int) =~= all);
    }

    fn of(symbols: &Vec<Symbol>, depth: usize) -> (r: Layout)
        ensures
            r.deep_view() == laid_out(symbols.deep_view(), depth),
    {
        let services = of_kind(symbols, SymbolKind::Service);
        let files = of_kind(symbols, SymbolKind::File);
        let tables = of_kind(symbols, SymbolKind::Table);
        let ghost sym = symbols.deep_view();
        proof {
            let a = |s: SymbolV| s.kind == SymbolKind::Service;
            let a2 = |s: SymbolV| s.kind is Service;
            assert(a =~= a2);
            let b = |s: SymbolV| s.kind == SymbolKind::File;
            let b2 = |s: SymbolV| s.kind is File;
            assert(b =~= b2);
            let c = |s: SymbolV| s.kind == SymbolKind::Table;
            let c2 = |s: SymbolV| s.kind is Table;
            assert(c =~= c2);
            assert(services.deep_view() == sym.filter(a2));
            assert(files.deep_view() == sym.filter(b2));
            assert(tables.deep_view() == sym.filter(c2));
        }
        let mut l = Layout { nodes: no_rows(), owner: no_rows() };
        let service = |s: &Symbol| -> (n: ArchNode)
            ensures n.deep_view() == service_box(s.deep_view())
        {
            blank_node(
                s.id.as_str(),
                ArchKind::Service,
                s.name.as_str(),
                Some(s.path.clone()),
                s.repo_id.as_str(),
                None,
            )
        };
        let table = |s: &Symbol| -> (n: ArchNode)
            ensures n.deep_view() == table_box(s.deep_view())
        {
            blank_node(
                s.id.as_str(),
                ArchKind::Table,
                s.name.as_str(),
                Some(s.path.clone()),
                s.repo_id.as_str(),
                None,
            )
        };
        put_boxes(&mut l.nodes, &each(&services, service, Ghost(|s: SymbolV| service_box(s))));
        l.put_files(&services, &files, depth);
        put_boxes(&mut l.nodes, &each(&tables, table, Ghost(|s: SymbolV| table_box(s))));
        l
    }

    fn owner_of(&self, repo: &str, path: &str) -> (r: Option<String>)
        ensures
            r.deep_view() == self.deep_view().owner_of(repo@, path@),
    {
        let ghost all = self.owner.deep_view();
        let ghost p = |o: OwnedV| o.repo_id == repo@ && o.path == path@;
        let mut i: usize = self.owner.len();
        assert(all.take(i as int) =~= all);
        while i > 0
            invariant
                all == self.owner.deep_view(),
                i <= self.owner@.len(),
                p == (|o: OwnedV| o.repo_id == repo@ && o.path == path@),
                last_where(all, p) == last_where(all.take(i as int), p),
            decreases i,
        {
            let o = &self.owner[i - 1];
            proof {
                assert(all.take(i as int).last() == o.deep_view());
                assert(all.take(i as int).drop_last() =~= all.take(i - 1));
            }
            if same(o.repo_id.as_str(), repo) && same(o.path.as_str(), path) {
                return Some(o.node.clone());
            }
            i -= 1;
        }
        None
    }

    fn place(&self, repo: &str, path: &str) -> (r: Vec<String>)
        ensures
            r.deep_view() == self.deep_view().place(repo@, path@),
    {
        let mut out: Vec<String> = no_rows();
        if let Some(id) = self.owner_of(repo, path) {
            if let Some(i) = find_node(&self.nodes, id.as_str()) {
                append(&mut out, id.clone());
                assert(out.deep_view() =~= seq![id@]);
                if let Some(p) = &self.nodes[i].parent {
                    if find_node(&self.nodes, p.as_str()).is_some() {
                        append(&mut out, p.clone());
                        assert(out.deep_view() =~= seq![id@, p@]);
                    }
                }
            }
        }
        out
    }

    fn event_place(&self, e: &Event) -> (r: Vec<String>)
        ensures
            r.deep_view() == event_place(self.deep_view(), e.deep_view()),
    {
        match &e.symbol_handle {
            Some(h) => {
                let file = file_in(h.as_str());
                let test = |o: &Owned| -> (b: bool)
                    ensures b == (o.deep_view().path == file_of(h@))
                {
                    same(o.path.as_str(), file.as_str())
                };
                match find_row(&self.owner, test, Ghost(|o: OwnedV| o.path == file_of(h@))) {
                    Some(i) => self.place(
                        self.owner[i].repo_id.as_str(),
                        self.owner[i].path.as_str(),
                    ),
                    None => no_rows(),
                }
            },
            None => no_rows(),
        }
    }

    fn places_of(&self, symbols: &Vec<Symbol>) -> (r: Vec<String>)
        ensures
            r.deep_view() == places_of(self.deep_view(), symbols.deep_view()),
    {
        let ghost all = symbols.deep_view();
        let mut out: Vec<String> = no_rows();
        let mut i: usize = 0;
        while i < symbols.len()
            invariant
                all == symbols.deep_view(),
                i <= symbols@.len(),
                out.deep_view() == places_of(self.deep_view(), all.take(i as int)),
            decreases symbols@.len() - i,
        {
            proof {
                assert(all.take(i + 1).drop_last() =~= all.take(i as int));
                assert(all.take(i + 1).last() == symbols@[i as int].deep_view());
            }
            let mut more = self.place(symbols[i].repo_id.as_str(), symbols[i].path.as_str());
            let ghost o0 = out.deep_view();
            let ghost m0 = more.deep_view();
            out.append(&mut more);
            assert(out.deep_view() =~= o0 + m0);
            i += 1;
        }
        assert(all.take(i as int) =~= all);
        out
    }
}

fn of_kind(symbols: &Vec<Symbol>, kind: SymbolKind) -> (r: Vec<Symbol>)
    ensures
        r.deep_view() == symbols.deep_view().filter(|s: SymbolV| s.kind == kind),
{
    let test = |s: &Symbol| -> (b: bool)
        ensures b == (s.deep_view().kind == kind)
    {
        s.kind == kind
    };
    keep(symbols, test, Ghost(|s: SymbolV| s.kind == kind))
}

/// The file that a handle names.
pub(crate) fn file_in(handle: &str) -> (r: String)
    ensures
        r@ == file_of(handle@),
{
    match up_to_first(handle, ':') {
        Some(f) => f,
        None => handle.to_owned(),
    }
}

/// Each text once, where it comes first.
pub(crate) fn distinct_texts(v: &Vec<String>) -> (r: Vec<String>)
    ensures
        r.deep_view() == distinct(v.deep_view()),
{
    let ghost all = v.deep_view();
    let mut out: Vec<String> = no_rows();
    let mut i: usize = 0;
    while i < v.len()
        invariant
            all == v.deep_view(),
            i <= v@.len(),
            out.deep_view() == distinct(all.take(i as int)),
        decreases v@.len() - i,
    {
        proof {
            assert(all.take(i + 1).drop_last() =~= all.take(i as int));
            assert(all.take(i + 1).last() == v@[i as int]@);
        }
        if !holds_text(&out, v[i].as_str()) {
            append(&mut out, v[i].clone());
        }
        i += 1;
    }
    assert(all.take(i as int) =~= all);
    out
}

/// The rows of which a box is among the places.
fn keep_at<T: Row>(
    rows: &Vec<T>,
    places: &Vec<Vec<String>>,
    id: &str,
    Ghost(p): Ghost<spec_fn(T::V) -> bool>,
) -> (r: Vec<T>)
    requires
        places@.len() == rows@.len(),
        forall|i: int|
            0 <= i < rows@.len() ==> p((#[trigger] rows@[i]).deep_view())
                == places@[i].deep_view().contains(id@),
    ensures
        r.deep_view() == rows.deep_view().filter(p),
{
    let ghost all = rows.deep_view();
    let mut out: Vec<T> = no_rows();
    let mut i: usize = 0;
    assert(all.take(0).filter(p) =~= Seq::empty());
    while i < rows.len()
        invariant
            all == rows.deep_view(),
            i <= rows@.len(),
            places@.len() == rows@.len(),
            forall|i: int|
                0 <= i < rows@.len() ==> p((#[trigger] rows@[i]).deep_view())
                    == places@[i].deep_view().contains(id@),
            out.deep_view() == all.take(i as int).filter(p),
        decreases rows@.len() - i,
    {
        proof {
            assert(all[i as int] == rows@[i as int].deep_view());
            law_filter_step(all, p, i as int);
        }
        if holds_text(&places[i], id) {
            append(&mut out, rows[i].copy());
        }
        i += 1;
    }
    assert(all.take(i as int) =~= all);
    out
}

fn shown_len<T: DeepView>(v: &Vec<T>) -> (n: i64)
    ensures
        n == shown(v.deep_view().len()),
{
    assert(v@.len() == v.deep_view().len());
    count_shown(v.len())
}

fn referred_to(nodes: &Vec<ArchNode>, ids: &Vec<String>) -> (r: Vec<ArchRef>)
    ensures
        r.deep_view() == referred(nodes.deep_view(), ids.deep_view()),
{
    let ghost all = ids.deep_view();
    let mut out: Vec<ArchRef> = no_rows();
    let mut i: usize = 0;
    while i < ids.len()
        invariant
            all == ids.deep_view(),
            i <= ids@.len(),
            out.deep_view() == referred(nodes.deep_view(), all.take(i as int)),
        decreases ids@.len() - i,
    {
        proof {
            assert(all.take(i + 1).drop_last() =~= all.take(i as int));
            assert(all.take(i + 1).last() == ids@[i as int]@);
        }
        if let Some(k) = find_node(nodes, ids[i].as_str()) {
            append(&mut out, ArchRef::of(&nodes[k]));
        }
        i += 1;
    }
    assert(all.take(i as int) =~= all);
    out
}

fn arrow_ends(edges: &Vec<ArchEdge>, id: &str, out: bool, kind: EdgeKind) -> (r: Vec<String>)
    ensures
        r.deep_view() == (if out {
            edges.deep_view().filter(|e: ArchEdgeV| e.from == id@ && e.kind == kind).map_values(
                |e: ArchEdgeV| e.to,
            )
        } else {
            edges.deep_view().filter(|e: ArchEdgeV| e.to == id@ && e.kind == kind).map_values(
                |e: ArchEdgeV| e.from,
            )
        }),
{
    if out {
        let test = |e: &ArchEdge| -> (b: bool)
            ensures b == (e.deep_view().from == id@ && e.deep_view().kind == kind)
        {
            same(e.from.as_str(), id) && e.kind == kind
        };
        let end = |e: &ArchEdge| -> (x: String)
            ensures x.deep_view() == e.deep_view().to
        {
            e.to.clone()
        };
        each(
            &keep(edges, test, Ghost(|e: ArchEdgeV| e.from == id@ && e.kind == kind)),
            end,
            Ghost(|e: ArchEdgeV| e.to),
        )
    } else {
        let test = |e: &ArchEdge| -> (b: bool)
            ensures b == (e.deep_view().to == id@ && e.deep_view().kind == kind)
        {
            same(e.to.as_str(), id) && e.kind == kind
        };
        let end = |e: &ArchEdge| -> (x: String)
            ensures x.deep_view() == e.deep_view().from
        {
            e.from.clone()
        };
        each(
            &keep(edges, test, Ghost(|e: ArchEdgeV| e.to == id@ && e.kind == kind)),
            end,
            Ghost(|e: ArchEdgeV| e.from),
        )
    }
}

fn same_edge(a: &Edge, b: &Edge) -> (r: bool)
    ensures
        r == (a.deep_view() == b.deep_view()),
{
    same(a.src.as_str(), b.src.as_str()) && same(a.dst.as_str(), b.dst.as_str()) && a.kind == b.kind
}

/// Everything that the boxes are filled from, with where each belongs.
struct Overlay {
    symbols: Vec<Symbol>,
    symbol_places: Vec<Vec<String>>,
    held: Vec<Lease>,
    held_places: Vec<Vec<String>>,
    live: Vec<Activity>,
    live_places: Vec<Vec<String>>,
    tasks: Vec<TaskView>,
    task_places: Vec<Vec<String>>,
    events: Vec<Event>,
    event_places: Vec<Vec<String>>,
}

impl Overlay {
    spec fn fits(&self, s: StoreV, l: LayoutV, symbols: Seq<SymbolV>, live: Seq<ActivityV>, now: i64) -> bool {
        &&& self.symbols.deep_view() == contents(symbols)
        &&& self.symbol_places.deep_view() == contents(symbols).map_values(
            |x: SymbolV| l.place(x.repo_id, x.path),
        )
        &&& self.held.deep_view() == s.held_now()
        &&& self.held_places.deep_view() == s.held_now().map_values(|x: LeaseV| s.lease_place(l, x))
        &&& self.live.deep_view() == live
        &&& self.live_places.deep_view() == live.map_values(
            |x: ActivityV| l.place(x.repo_id, x.path),
        )
        &&& self.tasks.deep_view() == s.tasks_listed()
        &&& self.task_places.deep_view() == s.tasks_listed().map_values(
            |x: TaskViewV| s.task_place(l, x),
        )
        &&& self.events.deep_view() == s.changes(now)
        &&& self.event_places.deep_view() == s.changes(now).map_values(
            |x: EventV| event_place(l, x),
        )
    }
}

impl Store {
    /// The symbols of a repository, or of all, by path.
    pub(crate) fn arch_symbols(&self, repo_id: &Option<String>) -> (r: Vec<Symbol>)
        ensures
            r.deep_view() == self@.arch_symbols(repo_id.deep_view()),
    {
        let test = |s: &Symbol| -> (b: bool)
            ensures b == (repo_id.deep_view() is None || s.deep_view().repo_id == repo_id.deep_view()->Some_0)
        {
            match repo_id {
                Some(r) => same(s.repo_id.as_str(), r.as_str()),
                None => true,
            }
        };
        let rows = keep(
            &self.symbols,
            test,
            Ghost(
                |s: SymbolV|
                    repo_id.deep_view() is None || s.repo_id == repo_id.deep_view()->Some_0,
            ),
        );
        let wrap = |s: &Symbol| -> (x: ByPath)
            ensures x.deep_view() == s.deep_view()
        {
            ByPath { symbol: s.clone() }
        };
        let unwrap = |x: &ByPath| -> (s: Symbol)
            ensures s.deep_view() == x.deep_view()
        {
            x.symbol.clone()
        };
        let ghost rv = rows.deep_view();
        let wrapped = each(&rows, wrap, Ghost(|s: SymbolV| s));
        assert(wrapped.deep_view() =~= rv);
        let ordered = stable_sort(wrapped);
        let ghost ov = ordered.deep_view();
        let r = each(&ordered, unwrap, Ghost(|s: SymbolV| s));
        assert(r.deep_view() =~= ov);
        r
    }

    pub(crate) fn held_now(&self) -> (r: Vec<Lease>)
        ensures
            r.deep_view() == self@.held_now(),
    {
        let none: Option<String> = None;
        let r = self.active_leases(&none);
        proof {
            let f = |l: LeaseRowV|
                l.state is Active && (none.deep_view() matches Some(a) ==> l.agent == a);
            let g = |l: LeaseRowV| l.state is Active;
            assert(f =~= g);
        }
        r
    }

    fn overlay(&self, l: &Layout, symbols: &Vec<Symbol>, live: &Vec<Activity>, now: i64) -> (r: Overlay)
        ensures
            r.fits(self@, l.deep_view(), symbols.deep_view(), live.deep_view(), now),
    {
        let ghost lv = l.deep_view();
        let counted = |s: &Symbol| -> (b: bool)
            ensures b == (!(s.deep_view().kind is Service) && !(s.deep_view().kind is Table))
        {
            s.kind != SymbolKind::Service && s.kind != SymbolKind::Table
        };
        let inside = keep(
            symbols,
            counted,
            Ghost(|s: SymbolV| !(s.kind is Service) && !(s.kind is Table)),
        );
        let at_symbol = |x: &Symbol| -> (p: Vec<String>)
            ensures p.deep_view() == l.deep_view().place(x.deep_view().repo_id, x.deep_view().path)
        {
            l.place(x.repo_id.as_str(), x.path.as_str())
        };
        let symbol_places = each(
            &inside,
            at_symbol,
            Ghost(|x: SymbolV| l.deep_view().place(x.repo_id, x.path)),
        );
        let held = self.held_now();
        let at_lease = |x: &Lease| -> (p: Vec<String>)
            ensures p.deep_view() == self@.lease_place(l.deep_view(), x.deep_view())
        {
            match self.symbol(x.symbol_id.as_str()) {
                Some(s) => l.place(s.repo_id.as_str(), s.path.as_str()),
                None => no_rows(),
            }
        };
        let held_places = each(
            &held,
            at_lease,
            Ghost(|x: LeaseV| self@.lease_place(l.deep_view(), x)),
        );
        let copy = |x: &Activity| -> (y: Activity)
            ensures y.deep_view() == x.deep_view()
        {
            x.clone()
        };
        let acts = each(live, copy, Ghost(|x: ActivityV| x));
        assert(acts.deep_view() =~= live.deep_view());
        let at_act = |x: &Activity| -> (p: Vec<String>)
            ensures p.deep_view() == l.deep_view().place(x.deep_view().repo_id, x.deep_view().path)
        {
            l.place(x.repo_id.as_str(), x.path.as_str())
        };
        let live_places = each(
            live,
            at_act,
            Ghost(|x: ActivityV| l.deep_view().place(x.repo_id, x.path)),
        );
        let tasks = self.tasks();
        let at_task = |x: &TaskView| -> (p: Vec<String>)
            ensures p.deep_view() == self@.task_place(l.deep_view(), x.deep_view())
        {
            l.places_of(&self.task_scope(x.task.id.as_str()))
        };
        let task_places = each(
            &tasks,
            at_task,
            Ghost(|x: TaskViewV| self@.task_place(l.deep_view(), x)),
        );
        let late = |e: &Event| -> (b: bool)
            ensures b == (e.deep_view().ts >= now - RECENT_MS)
        {
            e.ts as i128 >= now as i128 - RECENT_MS as i128
        };
        let events = keep(
            &self.recent_events(500),
            late,
            Ghost(|e: EventV| e.ts >= now - RECENT_MS),
        );
        let at_event = |x: &Event| -> (p: Vec<String>)
            ensures p.deep_view() == event_place(l.deep_view(), x.deep_view())
        {
            l.event_place(x)
        };
        let event_places = each(
            &events,
            at_event,
            Ghost(|x: EventV| event_place(l.deep_view(), x)),
        );
        Overlay {
            symbols: inside,
            symbol_places,
            held,
            held_places,
            live: acts,
            live_places,
            tasks,
            task_places,
            events,
            event_places,
        }
    }

    fn goals_of(&self, ts: &Vec<TaskView>) -> (r: Vec<String>)
        ensures
            r.deep_view() == self@.goals_of(ts.deep_view()),
    {
        let ghost all = ts.deep_view();
        let mut out: Vec<String> = no_rows();
        let mut i: usize = 0;
        while i < ts.len()
            invariant
                all == ts.deep_view(),
                i <= ts@.len(),
                out.deep_view() == self@.goals_of(all.take(i as int)),
            decreases ts@.len() - i,
        {
            proof {
                assert(all.take(i + 1).drop_last() =~= all.take(i as int));
                assert(all.take(i + 1).last() == ts@[i as int].deep_view());
            }
            if let Some(g) = self.task_goal(ts[i].task.id.as_str()) {
                append(&mut out, g);
            }
            i += 1;
        }
        assert(all.take(i as int) =~= all);
        out
    }

    /// A box with who is in it and what is happening in it, right now.
    fn apply_overlays(
        &self,
        l: &Layout,
        symbols: &Vec<Symbol>,
        live: &Vec<Activity>,
        now: i64,
        o: &Overlay,
        n: &ArchNode,
    ) -> (r: ArchNode)
        requires
            o.fits(self@, l.deep_view(), symbols.deep_view(), live.deep_view(), now),
        ensures
            r.deep_view() == self@.filled(
                l.deep_view(),
                symbols.deep_view(),
                live.deep_view(),
                now,
                n.deep_view(),
            ),
    {
        let ghost lv = l.deep_view();
        let ghost nv = n.deep_view();
        let id = n.id.as_str();
        proof {
            lemma_places(o.symbols, o.symbol_places, |x: SymbolV| lv.place(x.repo_id, x.path));
            lemma_places(o.held, o.held_places, |x: LeaseV| self@.lease_place(lv, x));
            lemma_places(o.live, o.live_places, |x: ActivityV| lv.place(x.repo_id, x.path));
            lemma_places(o.tasks, o.task_places, |x: TaskViewV| self@.task_place(lv, x));
            lemma_places(o.events, o.event_places, |x: EventV| event_place(lv, x));
        }
        let mine = keep_at(
            &o.symbols,
            &o.symbol_places,
            id,
            Ghost(|s: SymbolV| lv.place(s.repo_id, s.path).contains(nv.id)),
        );
        let held = keep_at(
            &o.held,
            &o.held_places,
            id,
            Ghost(|x: LeaseV| self@.lease_place(lv, x).contains(nv.id)),
        );
        let acts = keep_at(
            &o.live,
            &o.live_places,
            id,
            Ghost(|a: ActivityV| lv.place(a.repo_id, a.path).contains(nv.id)),
        );
        let landing = keep_at(
            &o.tasks,
            &o.task_places,
            id,
            Ghost(|t: TaskViewV| self@.task_place(lv, t).contains(nv.id)),
        );
        let changes = keep_at(
            &o.events,
            &o.event_places,
            id,
            Ghost(|e: EventV| event_place(lv, e).contains(nv.id)),
        );
        let is_file = |s: &Symbol| -> (b: bool)
            ensures b == (s.deep_view().kind is File)
        {
            s.kind == SymbolKind::File
        };
        let no_file = |s: &Symbol| -> (b: bool)
            ensures b == !(s.deep_view().kind is File)
        {
            s.kind != SymbolKind::File
        };
        let is_api = |s: &Symbol| -> (b: bool)
            ensures b == (!(s.deep_view().kind is File) && s.deep_view().role == Some(Role::Api))
        {
            s.kind != SymbolKind::File && has_role(s, Role::Api)
        };
        let is_test = |s: &Symbol| -> (b: bool)
            ensures b == (!(s.deep_view().kind is File) && s.deep_view().role == Some(Role::Test))
        {
            s.kind != SymbolKind::File && has_role(s, Role::Test)
        };
        let in_review = |t: &TaskView| -> (b: bool)
            ensures b == (t.deep_view().task.state is Review)
        {
            t.task.state == TaskState::Review
        };
        let holder = |x: &Lease| -> (y: String)
            ensures y.deep_view() == x.deep_view().agent
        {
            x.agent.clone()
        };
        let editor = |x: &Activity| -> (y: String)
            ensures y.deep_view() == x.deep_view().agent
        {
            x.agent.clone()
        };
        let task_id = |t: &TaskView| -> (y: String)
            ensures y.deep_view() == t.deep_view().task.id
        {
            t.task.id.clone()
        };
        let mut who = each(&held, holder, Ghost(|x: LeaseV| x.agent));
        let mut more = each(&acts, editor, Ghost(|a: ActivityV| a.agent));
        let ghost w0 = who.deep_view();
        let ghost m0 = more.deep_view();
        who.append(&mut more);
        assert(who.deep_view() =~= w0 + m0);
        ArchNode {
            id: n.id.clone(),
            kind: n.kind,
            name: n.name.clone(),
            path: n.path.clone(),
            repo_id: n.repo_id.clone(),
            parent: n.parent.clone(),
            files: shown_len(&keep(&mine, is_file, Ghost(|s: SymbolV| s.kind is File))),
            symbols: shown_len(&keep(&mine, no_file, Ghost(|s: SymbolV| !(s.kind is File)))),
            endpoints: shown_len(
                &keep(
                    &mine,
                    is_api,
                    Ghost(|s: SymbolV| !(s.kind is File) && s.role == Some(Role::Api)),
                ),
            ),
            tests: shown_len(
                &keep(
                    &mine,
                    is_test,
                    Ghost(|s: SymbolV| !(s.kind is File) && s.role == Some(Role::Test)),
                ),
            ),
            workers: distinct_texts(&who),
            leases: shown_len(&held),
            tasks: each(&landing, task_id, Ghost(|t: TaskViewV| t.task.id)),
            goals: distinct_texts(&self.goals_of(&landing)),
            review_pending: shown_len(
                &keep(&landing, in_review, Ghost(|t: TaskViewV| t.task.state is Review)),
            ),
            changed_recently: shown_len(&changes),
            activity: acts,
        }
    }

    fn end_box(&self, l: &Layout, symbols: &Vec<Symbol>, id: &str) -> (r: Option<String>)
        ensures
            r.deep_view() == self@.end_box(l.deep_view(), symbols.deep_view(), id@),
    {
        let test = |s: &Symbol| -> (b: bool)
            ensures b == (s.deep_view().id == id@)
        {
            same(s.id.as_str(), id)
        };
        match find_row(symbols, test, Ghost(|s: SymbolV| s.id == id@)) {
            Some(i) => {
                let s = &symbols[i];
                if s.kind == SymbolKind::Table {
                    if find_node(&l.nodes, s.id.as_str()).is_some() {
                        Some(s.id.clone())
                    } else {
                        None
                    }
                } else {
                    l.owner_of(s.repo_id.as_str(), s.path.as_str())
                }
            },
            None => None,
        }
    }

    /// Collapses imports and queries between symbols to arrows between boxes.
    fn roll_up_edges(&self, l: &Layout, symbols: &Vec<Symbol>) -> (r: Vec<ArchEdge>)
        ensures
            r.deep_view() == self@.arrows(l.deep_view(), symbols.deep_view()),
    {
        let ghost lv = l.deep_view();
        let ghost sv = symbols.deep_view();
        let ghost all = self@.edges;
        let mut raw: Vec<Edge> = no_rows();
        let mut i: usize = 0;
        while i < self.edges.len()
            invariant
                lv == l.deep_view(),
                sv == symbols.deep_view(),
                all == self@.edges,
                i <= self.edges@.len(),
                raw.deep_view() == self@.box_edges(lv, sv, all.take(i as int)),
            decreases self.edges@.len() - i,
        {
            let e = &self.edges[i];
            proof {
                assert(all.take(i + 1).drop_last() =~= all.take(i as int));
                assert(all.take(i + 1).last() == e.deep_view());
            }
            if e.kind == EdgeKind::Imports || e.kind == EdgeKind::Queries {
                match (
                    self.end_box(l, symbols, e.src.as_str()),
                    self.end_box(l, symbols, e.dst.as_str()),
                ) {
                    (Some(a), Some(b)) => {
                        if !same(a.as_str(), b.as_str()) {
                            append(&mut raw, Edge { src: a, dst: b, kind: e.kind });
                        }
                    },
                    _ => {},
                }
            }
            i += 1;
        }
        assert(all.take(i as int) =~= all);
        let ghost rv = raw.deep_view();
        let copy = |e: &Edge| -> (x: Edge)
            ensures x.deep_view() == e.deep_view()
        {
            e.clone()
        };
        let again = each(&raw, copy, Ghost(|e: EdgeV| e));
        assert(again.deep_view() =~= rv);
        let ghost lt = |a: EdgeV, b: EdgeV| edge_lt(a, b);
        assert(rank::<Edge>() =~= lt);
        let once = crate::edges::dedup_edges(&stable_sort(again));
        let weigh = |e: &Edge| -> (x: ArchEdge)
            ensures x.deep_view() == arrow(raw.deep_view(), e.deep_view())
        {
            let is = |x: &Edge| -> (b: bool)
                ensures b == (x.deep_view() == e.deep_view())
            {
                same_edge(x, e)
            };
            let weight = shown_len(&keep(&raw, is, Ghost(is_edge(e.deep_view()))));
            ArchEdge { from: e.src.clone(), to: e.dst.clone(), kind: e.kind, weight }
        };
        each(&once, weigh, Ghost(|e: EdgeV| arrow(raw.deep_view(), e)))
    }

    /// The repository, collapsed to `depth`. Naming no repository covers all of them.
    pub fn architecture(&self, repo_id: &Option<String>, depth: usize, live: &Vec<Activity>, now: i64) -> (r:
        ArchGraph)
        ensures
            r.deep_view() == self@.architecture(
                repo_id.deep_view(),
                depth,
                live.deep_view(),
                now,
            ),
    {
        let depth = if depth < 1 {
            1
        } else if depth > 3 {
            3
        } else {
            depth
        };
        let symbols = self.arch_symbols(repo_id);
        let l = Layout::of(&symbols, depth);
        let o = self.overlay(&l, &symbols, live, now);
        let fill = |n: &ArchNode| -> (x: ArchNode)
            requires o.fits(self@, l.deep_view(), symbols.deep_view(), live.deep_view(), now)
            ensures x.deep_view() == self@.filled(l.deep_view(), symbols.deep_view(), live.deep_view(), now, n.deep_view())
        {
            self.apply_overlays(&l, &symbols, live, now, &o, n)
        };
        let nodes = stable_sort(
            each(
                &l.nodes,
                fill,
                Ghost(
                    |n: ArchNodeV|
                        self@.filled(
                            l.deep_view(),
                            symbols.deep_view(),
                            live.deep_view(),
                            now,
                            n,
                        ),
                ),
            ),
        );
        let edges = self.roll_up_edges(&l, &symbols);
        let name = |n: &ArchNode| -> (x: String)
            ensures x.deep_view() == n.deep_view().id
        {
            n.id.clone()
        };
        let ids = each(&nodes, name, Ghost(|n: ArchNodeV| n.id));
        let imports = |e: &ArchEdge| -> (b: bool)
            ensures b == (e.deep_view().kind is Imports)
        {
            e.kind == EdgeKind::Imports
        };
        let link = |e: &ArchEdge| -> (x: Link)
            ensures x.deep_view() == (LinkV { left: e.deep_view().from, right: e.deep_view().to })
        {
            Link { left: e.from.clone(), right: e.to.clone() }
        };
        let links = each(
            &keep(&edges, imports, Ghost(|e: ArchEdgeV| e.kind is Imports)),
            link,
            Ghost(|e: ArchEdgeV| LinkV { left: e.from, right: e.to }),
        );
        let cycles = find_loops(&ids, &links);
        ArchGraph { nodes, edges, depth, generated_at: now, cycles }
    }

    /// The paths that a box covers.
    fn paths_under(&self, n: &ArchNode) -> (r: Vec<String>)
        ensures
            r.deep_view() == self@.paths_under(n.deep_view()),
    {
        if n.kind == ArchKind::Table || n.kind == ArchKind::File {
            let mut out: Vec<String> = no_rows();
            if let Some(p) = &n.path {
                append(&mut out, p.clone());
                assert(out.deep_view() =~= seq![p@]);
            }
            return out;
        }
        let mut base = String::new();
        assert(base@ =~= Seq::empty());
        if let Some(p) = &n.path {
            if n.kind == ArchKind::Service {
                base = parent_dir(p.as_str());
            } else {
                base = p.clone();
            }
        }
        let test = |f: &Symbol| -> (b: bool)
            ensures b == (f.deep_view().kind is File && under(f.deep_view().path, base@))
        {
            f.kind == SymbolKind::File && is_under(f.path.as_str(), base.as_str())
        };
        let path = |f: &Symbol| -> (x: String)
            ensures x.deep_view() == f.deep_view().path
        {
            f.path.clone()
        };
        each(
            &keep(
                &self.arch_symbols(&Some(n.repo_id.clone())),
                test,
                Ghost(|f: SymbolV| f.kind is File && under(f.path, base@)),
            ),
            path,
            Ghost(|f: SymbolV| f.path),
        )
    }

    /// Everything behind one box.
    pub fn arch_node(&self, node_id: &str, depth: usize, live: &Vec<Activity>, now: i64) -> (r: Result<
        NodeDetail,
        StoreError,
    >)
        ensures
            seen(r) == self@.arch_node(node_id@, depth, live.deep_view(), now),
    {
        let none: Option<String> = None;
        let g = self.architecture(&none, depth, live, now);
        let node = match find_node(&g.nodes, node_id) {
            Some(i) => g.nodes[i].clone(),
            None => {
                return Err(fail_about(ErrorKind::NoSuchNode, "no such node: ", node_id));
            },
        };
        let ghost nv = node.deep_view();
        let ghost ev = g.edges.deep_view();
        let paths = self.paths_under(&node);
        let ghost pv = paths.deep_view();
        let id = node.id.as_str();
        proof {
            let a = |e: ArchEdgeV| e.from == nv.id && e.kind == EdgeKind::Imports;
            let a2 = |e: ArchEdgeV| e.from == nv.id && e.kind is Imports;
            assert(a =~= a2);
            let b = |e: ArchEdgeV| e.to == nv.id && e.kind == EdgeKind::Imports;
            let b2 = |e: ArchEdgeV| e.to == nv.id && e.kind is Imports;
            assert(b =~= b2);
            let c = |e: ArchEdgeV| e.from == nv.id && e.kind == EdgeKind::Queries;
            let c2 = |e: ArchEdgeV| e.from == nv.id && e.kind is Queries;
            assert(c =~= c2);
        }
        let depends_on = referred_to(&g.nodes, &arrow_ends(&g.edges, id, true, EdgeKind::Imports));
        let depended_on_by = referred_to(
            &g.nodes,
            &arrow_ends(&g.edges, id, false, EdgeKind::Imports),
        );
        let tables = referred_to(&g.nodes, &arrow_ends(&g.edges, id, true, EdgeKind::Queries));
        let child = |x: &ArchNode| -> (b: bool)
            ensures b == (x.deep_view().parent == Some(node.deep_view().id))
        {
            same_opt(&x.parent, &Some(node.id.clone()))
        };
        let children = keep(
            &g.nodes,
            child,
            Ghost(|x: ArchNodeV| x.parent == Some(node.deep_view().id)),
        );
        let inside = |s: &Symbol| -> (b: bool)
            ensures b == (!(s.deep_view().kind is File) && !(s.deep_view().kind is Service) && paths.deep_view().contains(s.deep_view().path))
        {
            s.kind != SymbolKind::File && s.kind != SymbolKind::Service && holds_text(
                &paths,
                s.path.as_str(),
            )
        };
        let symbols = first_rows(
            &keep(
                &self.arch_symbols(&Some(node.repo_id.clone())),
                inside,
                Ghost(
                    |s: SymbolV|
                        !(s.kind is File) && !(s.kind is Service) && paths.deep_view().contains(
                            s.path,
                        ),
                ),
            ),
            MAX_SYMBOLS,
        );
        let route = |s: &Symbol| -> (b: bool)
            ensures b == (s.deep_view().role == Some(Role::Api) && s.deep_view().repo_id == node.deep_view().repo_id && paths.deep_view().contains(s.deep_view().path))
        {
            has_role(s, Role::Api) && same(s.repo_id.as_str(), node.repo_id.as_str()) && holds_text(
                &paths,
                s.path.as_str(),
            )
        };
        let routes = keep(
            &self.symbols,
            route,
            Ghost(
                |s: SymbolV|
                    s.role == Some(Role::Api) && s.repo_id == node.deep_view().repo_id
                        && paths.deep_view().contains(s.path),
            ),
        );
        let covered = |x: &Lease| -> (b: bool)
            ensures b == paths.deep_view().contains(file_of(x.deep_view().symbol_handle))
        {
            holds_text(&paths, file_in(x.symbol_handle.as_str()).as_str())
        };
        let held = keep(
            &self.held_now(),
            covered,
            Ghost(|x: LeaseV| paths.deep_view().contains(file_of(x.symbol_handle))),
        );
        let lands = |t: &TaskView| -> (b: bool)
            ensures b == node.deep_view().tasks.contains(t.deep_view().task.id)
        {
            holds_text(&node.tasks, t.task.id.as_str())
        };
        let tasks = keep(
            &self.tasks(),
            lands,
            Ghost(|t: TaskViewV| node.deep_view().tasks.contains(t.task.id)),
        );
        let served = |x: &Goal| -> (b: bool)
            ensures b == node.deep_view().goals.contains(x.deep_view().id)
        {
            holds_text(&node.goals, x.id.as_str())
        };
        let goals = keep(
            &self.goals(),
            served,
            Ghost(|x: GoalV| node.deep_view().goals.contains(x.id)),
        );
        let impact = if starts_with(id, "s_") {
            first_rows(&self.impact(id, 2), MAX_IMPACT)
        } else {
            no_rows()
        };
        let touched = |e: &Event| -> (b: bool)
            ensures b == (e.deep_view().symbol_handle matches Some(h) && paths.deep_view().contains(file_of(h)))
        {
            match &e.symbol_handle {
                Some(h) => holds_text(&paths, file_in(h.as_str()).as_str()),
                None => false,
            }
        };
        let recent_events = first_rows(
            &backwards(
                &keep(
                    &self.recent_events(300),
                    touched,
                    Ghost(
                        |e: EventV|
                            e.symbol_handle matches Some(h) && paths.deep_view().contains(file_of(h)),
                    ),
                ),
            ),
            MAX_EVENTS,
        );
        Ok(
            NodeDetail {
                depends_on,
                depended_on_by,
                tables,
                children,
                symbols,
                routes,
                held,
                tasks,
                goals,
                impact,
                recent_events,
                node,
            },
        )
    }
}

fn has_role(s: &Symbol, role: Role) -> (r: bool)
    ensures
        r == (s.deep_view().role == Some(role)),
{
    match s.role {
        Some(x) => x == role,
        None => false,
    }
}

/// The rows in the opposite order.
pub(crate) fn backwards<T: Row>(rows: &Vec<T>) -> (r: Vec<T>)
    ensures
        r.deep_view() == rows.deep_view().reverse(),
{
    let ghost all = rows.deep_view();
    let n = rows.len();
    let mut out: Vec<T> = no_rows();
    let mut i: usize = 0;
    while i < n
        invariant
            all == rows.deep_view(),
            n == rows@.len(),
            i <= n,
            out.deep_view() =~= all.reverse().take(i as int),
        decreases n - i,
    {
        append(&mut out, rows[n - 1 - i].copy());
        assert(all.reverse().take(i + 1) =~= all.reverse().take(i as int).push(all[n - 1 - i]));
        i += 1;
    }
    assert(all.reverse().take(i as int) =~= all.reverse());
    out
}

/// Where places were worked out row by row, each stands beside its row.
proof fn lemma_places<T: DeepView>(
    rows: Vec<T>,
    places: Vec<Vec<String>>,
    g: spec_fn(T::V) -> Seq<Seq<char>>,
)
    requires
        places.deep_view() == rows.deep_view().map_values(g),
    ensures
        places@.len() == rows@.len(),
        forall|i: int|
            0 <= i < rows@.len() ==> g((#[trigger] rows@[i]).deep_view()) == places@[i].deep_view(),
{
    assert(places@.len() == places.deep_view().len());
    assert(rows@.len() == rows.deep_view().len());
    assert forall|i: int| 0 <= i < rows@.len() implies g((#[trigger] rows@[i]).deep_view())
        == places@[i].deep_view() by {
        assert(places.deep_view()[i] == places@[i].deep_view());
        assert(rows.deep_view()[i] == rows@[i].deep_view());
    }
}

} // verus!
