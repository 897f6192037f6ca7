//! What the commands of a workspace do.
//!
//! Each command is an operation on the shared state, or a few of them in an order
//! that matters. Who acts, what was typed and what time it is come in as plain
//! values; what comes out says what to show and with which code to exit.

use vstd::prelude::*;
use vstd::string::*;

use crate::graph::{Neighbor, NeighborV, Neighbors, NeighborsV};
use crate::json::{Json, JsonV};
use crate::lease::{renewed, AcquireOptions, AcquireOptionsV};
use crate::model::{
    AcquireOutcome, AcquireOutcomeV, Agent, AgentV, Capability, EdgeKind, Lease, LeaseState, LeaseV,
    ProgressUpdate, ProgressUpdateV, Request, RequestState, RequestV, Role, Symbol, SymbolKind, SymbolV, Task,
    TaskState, TaskSuggestion, TaskSuggestionV, TaskV,
};
use crate::negotiate::{clamped, next_progress_id};
use crate::order::{rank, sorted};
use crate::protocol::{NewRequest, NewRequestV};
use crate::request_kind;
use crate::rows::{each, find_row, keep};
use crate::schedule::{Plan, PlanV, ScheduledTask, ScheduledTaskV};
use crate::store::{
    append, fail, fail_about, failure, first_where, no_rows, sane_time, sane_ttl, seen, ErrorKind, LeaseRow,
    LeaseRowV, ProgressRowV, Store, StoreError, StoreErrorV, StoreV, Tick,
};
use crate::text::{
    cat, cat3, contains, contains_text, decimal, decimal_of, same, starts_with, trim, trimmed,
};
use crate::work::{TaskView, TaskViewV};

verus! {

broadcast use vstd::string::group_string_axioms;

/// One symbol with what surrounds it.
#[derive(Debug)]
pub struct Shown {
    pub symbol: Symbol,
    pub leases: Vec<Lease>,
    pub neighbors: Neighbors,
    /// What lies directly inside it.
    pub children: Vec<Symbol>,
}

/// The contents of a [`Shown`].
pub struct ShownV {
    pub symbol: SymbolV,
    pub leases: Seq<LeaseV>,
    pub neighbors: NeighborsV,
    pub children: Seq<SymbolV>,
}

impl DeepView for Shown {
    type V = ShownV;

    open spec fn deep_view(&self) -> ShownV {
        ShownV {
            symbol: self.symbol.deep_view(),
            leases: self.leases.deep_view(),
            neighbors: self.neighbors.deep_view(),
            children: self.children.deep_view(),
        }
    }
}

/// A table, and who reads or writes it.
#[derive(Debug)]
pub struct TableUse {
    pub table: Symbol,
    pub users: Vec<Neighbor>,
}

/// The contents of a [`TableUse`].
pub struct TableUseV {
    pub table: SymbolV,
    pub users: Seq<NeighborV>,
}

impl DeepView for TableUse {
    type V = TableUseV;

    open spec fn deep_view(&self) -> TableUseV {
        TableUseV {
            table: self.table.deep_view(),
            users: self.users.deep_view(),
        }
    }
}

/// A service, and what it depends on.
#[derive(Debug)]
pub struct ServiceUse {
    pub service: Symbol,
    pub depends_on: Vec<String>,
    pub files: usize,
}

/// The contents of a [`ServiceUse`].
pub struct ServiceUseV {
    pub service: SymbolV,
    pub depends_on: Seq<Seq<char>>,
    pub files: usize,
}

impl DeepView for ServiceUse {
    type V = ServiceUseV;

    open spec fn deep_view(&self) -> ServiceUseV {
        ServiceUseV {
            service: self.service.deep_view(),
            depends_on: self.depends_on.deep_view(),
            files: self.files,
        }
    }
}

/// A symbol, and the tests that reach it.
#[derive(Debug)]
pub struct Covered {
    pub symbol: Symbol,
    pub tests: Vec<Neighbor>,
}

/// The contents of a [`Covered`].
pub struct CoveredV {
    pub symbol: SymbolV,
    pub tests: Seq<NeighborV>,
}

impl DeepView for Covered {
    type V = CoveredV;

    open spec fn deep_view(&self) -> CoveredV {
        CoveredV {
            symbol: self.symbol.deep_view(),
            tests: self.tests.deep_view(),
        }
    }
}

/// A task, and what it will touch.
#[derive(Debug)]
pub struct Scoped {
    pub task: Task,
    pub scope: Vec<Symbol>,
}

/// The contents of a [`Scoped`].
pub struct ScopedV {
    pub task: TaskV,
    pub scope: Seq<SymbolV>,
}

impl DeepView for Scoped {
    type V = ScopedV;

    open spec fn deep_view(&self) -> ScopedV {
        ScopedV {
            task: self.task.deep_view(),
            scope: self.scope.deep_view(),
        }
    }
}

/// A symbol, and what came of asking for it.
#[derive(Debug)]
pub struct Taken {
    pub symbol: Symbol,
    pub outcome: AcquireOutcome,
}

/// The contents of a [`Taken`].
pub struct TakenV {
    pub symbol: SymbolV,
    pub outcome: AcquireOutcomeV,
}

impl DeepView for Taken {
    type V = TakenV;

    open spec fn deep_view(&self) -> TakenV {
        TakenV {
            symbol: self.symbol.deep_view(),
            outcome: self.outcome.deep_view(),
        }
    }
}

/// An interface that somebody needs.
#[derive(Debug)]
pub struct InterfaceAsk {
    pub resource: String,
    pub to: Option<String>,
    pub methods: Vec<String>,
    pub deadline: i64,
    pub priority: i64,
    pub task: Option<String>,
}

/// The contents of a [`InterfaceAsk`].
pub struct InterfaceAskV {
    pub resource: Seq<char>,
    pub to: Option<Seq<char>>,
    pub methods: Seq<Seq<char>>,
    pub deadline: i64,
    pub priority: i64,
    pub task: Option<Seq<char>>,
}

impl DeepView for InterfaceAsk {
    type V = InterfaceAskV;

    open spec fn deep_view(&self) -> InterfaceAskV {
        InterfaceAskV {
            resource: self.resource@,
            to: self.to.deep_view(),
            methods: self.methods.deep_view(),
            deadline: self.deadline,
            priority: self.priority,
            task: self.task.deep_view(),
        }
    }
}

impl Clone for InterfaceAsk {
    fn clone(&self) -> (r: Self)
        ensures
            r.deep_view() == self.deep_view(),
    {
        let r = InterfaceAsk {
            resource: self.resource.clone(),
            to: self.to.clone(),
            methods: self.methods.clone(),
            deadline: self.deadline,
            priority: self.priority,
            task: self.task.clone(),
        };
        assert(r.methods.deep_view() =~= self.methods.deep_view());
        r
    }
}

/// How a command ends.
#[derive(Debug, Clone, Copy, PartialEq, Eq, Structural)]
pub enum Exit {
    /// Granted, or clean.
    Success,
    /// Denied: a normal answer, not an error.
    Denied,
    /// Something went wrong.
    Failed,
}

impl Exit {
    /// The code that a process ends with.
    pub fn code(self) -> (r: u8)
        ensures
            r == (match self {
                Exit::Success => 0u8,
                Exit::Denied => 1u8,
                Exit::Failed => 2u8,
            }),
    {
        match self {
            Exit::Success => 0,
            Exit::Denied => 1,
            Exit::Failed => 2,
        }
    }

    /// Success where something holds, else a denial.
    pub fn of(good: bool) -> (r: Exit)
        ensures
            r == (if good {
                Exit::Success
            } else {
                Exit::Denied
            }),
    {
        if good {
            Exit::Success
        } else {
            Exit::Denied
        }
    }
}

// ---------------------------------------------------------------------- who acts

/// Who acts: whoever is named, else whom the environment names, else whom the
/// workspace remembers.
pub open spec fn acting(
    flag: Option<Seq<char>>,
    variable: Option<Seq<char>>,
    remembered: Option<Seq<char>>,
) -> Option<Seq<char>> {
    if flag is Some {
        flag
    } else if variable matches Some(v) && v.len() > 0 {
        variable
    } else {
        match remembered {
            Some(m) => if trimmed(m).len() > 0 {
                Some(trimmed(m))
            } else {
                None
            },
            None => None,
        }
    }
}

/// Who acts, if anybody.
pub fn optional_agent(flag: &Option<String>, variable: &Option<String>, remembered: &Option<String>) -> (r:
    Option<String>)
    ensures
        r.deep_view() == acting(flag.deep_view(), variable.deep_view(), remembered.deep_view()),
{
    if let Some(f) = flag {
        return Some(f.clone());
    }
    if let Some(v) = variable {
        if !v.as_str().is_empty() {
            return Some(v.clone());
        }
    }
    match remembered {
        Some(m) => {
            let name = trim(m.as_str());
            if name.as_str().is_empty() {
                None
            } else {
                Some(name)
            }
        },
        None => None,
    }
}

/// Who acts; somebody has to.
pub fn require_agent(flag: &Option<String>, variable: &Option<String>, remembered: &Option<String>) -> (r:
    Result<String, StoreError>)
    ensures
        seen(r) == (match acting(flag.deep_view(), variable.deep_view(), remembered.deep_view()) {
            Some(a) => Ok::<Seq<char>, StoreErrorV>(a),
            None => Err(
                failure(
                    ErrorKind::NoAgent,
                    "no agent identity — pass --agent, set GOLAB_AGENT, or run `golab agent register <name>`"@,
                ),
            ),
        }),
{
    match optional_agent(flag, variable, remembered) {
        Some(a) => Ok(a),
        None => Err(
            fail(
                ErrorKind::NoAgent,
                "no agent identity — pass --agent, set GOLAB_AGENT, or run `golab agent register <name>`".to_owned(),
            ),
        ),
    }
}

/// The capability with this word.
fn capability_named(word: &str) -> (r: Result<Capability, StoreError>)
    ensures
        match r {
            Ok(c) => c.word() == word@,
            Err(e) => e.deep_view() == failure(
                ErrorKind::UnknownWord,
                "unknown capability: "@ + word@,
            ) && forall|c: Capability| #[trigger] c.word() != word@,
        },
{
    match Capability::parse(word) {
        Some(c) => Ok(c),
        None => Err(fail_about(ErrorKind::UnknownWord, "unknown capability: ", word)),
    }
}

/// The one capability with this word, or why there is none.
pub open spec fn capability_of(word: Seq<char>) -> Result<Capability, StoreErrorV> {
    if exists|c: Capability| #[trigger] c.word() == word {
        Ok(choose|c: Capability| #[trigger] c.word() == word)
    } else {
        Err(failure(ErrorKind::UnknownWord, "unknown capability: "@ + word))
    }
}

proof fn lemma_capability(c: Capability)
    ensures
        capability_of(c.word()) == Ok::<Capability, StoreErrorV>(c),
{
    let d = choose|d: Capability| #[trigger] d.word() == c.word();
    crate::model::law_capability_words(c, d);
}

// ------------------------------------------------------------------ short texts

/// The first line of a text.
pub open spec fn line_of(s: Seq<char>) -> Seq<char> {
    let l = match crate::text::before_first(s, '\n') {
        Some(x) => x,
        None => s,
    };
    if crate::text::before_first(s, '\n') is Some && l.len() > 0 && l.last() == '\r' {
        l.drop_last()
    } else {
        l
    }
}

/// The first line of a text, cut where it is long.
pub open spec fn headline(s: Seq<char>) -> Seq<char> {
    let l = line_of(s);
    if l.len() > 60 {
        l.take(57) + "…"@
    } else {
        l
    }
}

/// The first line of a text, cut where it is long.
pub fn first_line(s: &str) -> (r: String)
    ensures
        r@ == headline(s@),
{
    let line = match crate::text::up_to_first(s, '\n') {
        Some(x) => {
            let chars = crate::text::chars_of(x.as_str());
            let n = chars.len();
            if n > 0 && chars[n - 1] == '\r' {
                let cut = crate::text::piece(&chars, 0, n - 1);
                assert(x@.subrange(0, n - 1) =~= x@.drop_last());
                cut
            } else {
                x
            }
        },
        None => s.to_owned(),
    };
    assert(line@ == line_of(s@));
    let chars = crate::text::chars_of(line.as_str());
    if chars.len() > 60 {
        let head = crate::text::piece(&chars, 0, 57);
        assert(line@.subrange(0, 57) =~= line@.take(57));
        cat(head.as_str(), "…")
    } else {
        line
    }
}

/// The body of a request: what was typed if it parses, else the words themselves.
pub fn body_or_text(parsed: Option<Json>, raw: &str) -> (r: Json)
    ensures
        r.deep_view() == (match parsed {
            Some(j) => j.deep_view(),
            None => JsonV::Obj(seq![("text"@, JsonV::Str(raw@))]),
        }),
{
    match parsed {
        Some(j) => j,
        None => {
            let r = Json::object().with("text", Json::str(raw));
            assert(r.deep_view()->Obj_0 =~= seq![("text"@, JsonV::Str(raw@))]);
            r
        },
    }
}

// ------------------------------------------------------------------ the symbols

impl StoreV {
    /// The symbols with a role.
    pub open spec fn with_role(self, role: Role) -> Seq<SymbolV> {
        self.symbols.filter(|s: SymbolV| s.role == Some(role))
    }

    /// The symbols directly inside one.
    pub open spec fn children(self, id: Seq<char>) -> Seq<SymbolV> {
        self.symbols.filter(|x: SymbolV| x.parent_id == Some(id))
    }

    /// One symbol with its leases and neighbours.
    pub open spec fn shown(self, query: Seq<char>) -> Result<ShownV, StoreErrorV> {
        match self.resolve(query) {
            Err(e) => Err(e),
            Ok(s) => Ok(
                ShownV {
                    symbol: s,
                    leases: self.held_now().filter(|l: LeaseV| l.symbol_id == s.id),
                    neighbors: self.neighbors(s.id),
                    children: self.children(s.id),
                },
            ),
        }
    }

    /// The tests that reach a symbol.
    pub open spec fn covered(self, query: Seq<char>) -> Result<CoveredV, StoreErrorV> {
        match self.resolve(query) {
            Err(e) => Err(e),
            Ok(s) => Ok(
                CoveredV {
                    symbol: s,
                    tests: self.neighbors(s.id).callers.filter(|n: NeighborV| n.kind is Tests),
                },
            ),
        }
    }

    /// A table with its users.
    pub open spec fn table_use(self, t: SymbolV) -> TableUseV {
        TableUseV { table: t, users: self.neighbors(t.id).callers }
    }

    /// A service with what it depends on.
    pub open spec fn service_use(self, s: SymbolV) -> ServiceUseV {
        ServiceUseV {
            service: s,
            depends_on: self.neighbors(s.id).callees.filter(
                |n: NeighborV| n.kind is Imports,
            ).map_values(|n: NeighborV| n.symbol.name),
            files: self.children(s.id).len() as usize,
        }
    }
}

/// Does a route mention a text?
pub open spec fn route_has(s: SymbolV, pattern: Option<Seq<char>>) -> bool {
    match pattern {
        None => true,
        Some(p) => contains_text(
            match s.route() {
                Some(r) => r,
                None => Seq::empty(),
            },
            p,
        ),
    }
}

impl Store {
    /// The symbols that match, of a kind and a role given by their words.
    pub fn symbols_matching(
        &self,
        pattern: &Option<String>,
        path: &Option<String>,
        kind: &Option<String>,
        role: &Option<String>,
        limit: usize,
    ) -> (r: Result<Vec<Symbol>, StoreError>)
        ensures
            match (kind, role) {
                (Some(k), _) if (forall|x: SymbolKind| #[trigger] x.word() != k@) => r matches Err(e)
                    && e.deep_view() == failure(
                    ErrorKind::UnknownWord,
                    "unknown symbol kind: "@ + k@,
                ),
                (_, Some(w)) if (forall|x: Role| #[trigger] x.word() != w@) => r matches Err(e)
                    && e.deep_view() == failure(ErrorKind::UnknownWord, "unknown role: "@ + w@),
                _ => r matches Ok(v) && exists|k: Option<SymbolKind>, w: Option<Role>|
                    {
                        &&& (kind matches Some(x) ==> (k matches Some(y) && y.word() == x@))
                        &&& (kind is None ==> k is None)
                        &&& (role matches Some(x) ==> (w matches Some(y) && y.word() == x@))
                        &&& (role is None ==> w is None)
                        &&& v.deep_view() == #[trigger] in_role(
                            crate::arch::at_most(
                                #[trigger] self@.matching(
                                    path.deep_view(),
                                    k,
                                    pattern.deep_view(),
                                ),
                                limit as nat,
                            ),
                            w,
                        )
                    },
            },
    {
        let k = match kind {
            Some(x) => match SymbolKind::parse(x.as_str()) {
                Some(y) => Some(y),
                None => {
                    return Err(
                        fail_about(ErrorKind::UnknownWord, "unknown symbol kind: ", x.as_str()),
                    );
                },
            },
            None => None,
        };
        let w = match role {
            Some(x) => match Role::parse(x.as_str()) {
                Some(y) => Some(y),
                None => {
                    return Err(fail_about(ErrorKind::UnknownWord, "unknown role: ", x.as_str()));
                },
            },
            None => None,
        };
        let all = self.list_symbols(path, k, pattern, limit);
        let test = |s: &Symbol| -> (b: bool)
            ensures b == (w is None || s.deep_view().role == w)
        {
            match w {
                None => true,
                Some(x) => match s.role {
                    Some(y) => x == y,
                    None => false,
                },
            }
        };
        let r = keep(&all, test, Ghost(|s: SymbolV| w is None || s.role == w));
        assert(r.deep_view() == in_role(
            crate::arch::at_most(
                self@.matching(path.deep_view(), k, pattern.deep_view()),
                limit as nat,
            ),
            w,
        ));
        Ok(r)
    }

    /// The symbols with a role.
    pub fn symbols_with_role(&self, role: Role) -> (r: Vec<Symbol>)
        ensures
            r.deep_view() == self@.with_role(role),
    {
        let test = |s: &Symbol| -> (b: bool)
            ensures b == (s.deep_view().role == Some(role))
        {
            match s.role {
                Some(x) => x == role,
                None => false,
            }
        };
        keep(&self.symbols, test, Ghost(|s: SymbolV| s.role == Some(role)))
    }

    /// Every endpoint whose route mentions a text.
    pub fn endpoints(&self, pattern: &Option<String>) -> (r: Vec<Symbol>)
        ensures
            r.deep_view() == self@.with_role(Role::Api).filter(
                |s: SymbolV| route_has(s, pattern.deep_view()),
            ),
    {
        let test = |s: &Symbol| -> (b: bool)
            ensures b == route_has(s.deep_view(), pattern.deep_view())
        {
            match pattern {
                None => true,
                Some(p) => {
                    let route = match s.route() {
                        Some(x) => x,
                        None => {
                            let none = String::new();
                            assert(none@ =~= Seq::empty());
                            none
                        },
                    };
                    contains(route.as_str(), p.as_str())
                },
            }
        };
        keep(
            &self.symbols_with_role(Role::Api),
            test,
            Ghost(|s: SymbolV| route_has(s, pattern.deep_view())),
        )
    }

    /// One symbol: its leases and neighbours.
    pub fn show(&self, query: &str) -> (r: Result<Shown, StoreError>)
        ensures
            seen(r) == self@.shown(query@),
    {
        match self.resolve(query) {
            Err(e) => Err(e),
            Ok(s) => {
                let mine = |l: &Lease| -> (b: bool)
                    ensures b == (l.deep_view().symbol_id == s.deep_view().id)
                {
                    same(l.symbol_id.as_str(), s.id.as_str())
                };
                let leases = keep(
                    &self.held_now(),
                    mine,
                    Ghost(|l: LeaseV| l.symbol_id == s.deep_view().id),
                );
                let neighbors = self.neighbors(s.id.as_str());
                let children = self.children(s.id.as_str());
                Ok(Shown { symbol: s, leases, neighbors, children })
            },
        }
    }

    /// The symbols directly inside one.
    pub fn children(&self, id: &str) -> (r: Vec<Symbol>)
        ensures
            r.deep_view() == self@.children(id@),
    {
        let parent = Some(id.to_owned());
        let child = |x: &Symbol| -> (b: bool)
            ensures b == (x.deep_view().parent_id == Some(id@))
        {
            crate::text::same_opt(&x.parent_id, &parent)
        };
        keep(&self.symbols, child, Ghost(|x: SymbolV| x.parent_id == Some(id@)))
    }

    /// Which tests reach a symbol.
    pub fn tests_of(&self, query: &str) -> (r: Result<Covered, StoreError>)
        ensures
            seen(r) == self@.covered(query@),
    {
        match self.resolve(query) {
            Err(e) => Err(e),
            Ok(s) => {
                let test = |n: &Neighbor| -> (b: bool)
                    ensures b == (n.deep_view().kind is Tests)
                {
                    n.kind == EdgeKind::Tests
                };
                let tests = keep(
                    &self.neighbors(s.id.as_str()).callers,
                    test,
                    Ghost(|n: NeighborV| n.kind is Tests),
                );
                Ok(Covered { symbol: s, tests })
            },
        }
    }

    /// The tables, or one of them, with who uses them.
    pub fn table_uses(&self, name: &Option<String>) -> (r: Result<Vec<TableUse>, StoreError>)
        ensures
            seen(r) == (match name.deep_view() {
                Some(n) => match self@.resolve(n) {
                    Err(e) => Err::<Seq<TableUseV>, StoreErrorV>(e),
                    Ok(t) => Ok(seq![self@.table_use(t)]),
                },
                None => Ok(
                    crate::arch::at_most(
                        self@.matching(None, Some(SymbolKind::Table), None),
                        500,
                    ).map_values(|t: SymbolV| self@.table_use(t)),
                ),
            }),
    {
        let show = |t: &Symbol| -> (u: TableUse)
            ensures u.deep_view() == self@.table_use(t.deep_view())
        {
            TableUse { table: t.clone(), users: self.neighbors(t.id.as_str()).callers }
        };
        match name {
            Some(n) => match self.resolve(n.as_str()) {
                Err(e) => Err(e),
                Ok(t) => {
                    let mut out: Vec<TableUse> = no_rows();
                    append(&mut out, show(&t));
                    assert(out.deep_view() =~= seq![self@.table_use(t.deep_view())]);
                    Ok(out)
                },
            },
            None => {
                let none: Option<String> = None;
                let all = self.list_symbols(&none, Some(SymbolKind::Table), &none, 500);
                Ok(each(&all, show, Ghost(|t: SymbolV| self@.table_use(t))))
            },
        }
    }

    /// The services, with what they depend on.
    pub fn service_uses(&self) -> (r: Vec<ServiceUse>)
        ensures
            r.deep_view() == crate::arch::at_most(
                self@.matching(None, Some(SymbolKind::Service), None),
                200,
            ).map_values(|s: SymbolV| self@.service_use(s)),
    {
        let none: Option<String> = None;
        let all = self.list_symbols(&none, Some(SymbolKind::Service), &none, 200);
        let show = |s: &Symbol| -> (u: ServiceUse)
            ensures u.deep_view() == self@.service_use(s.deep_view())
        {
            let imports = |n: &Neighbor| -> (b: bool)
                ensures b == (n.deep_view().kind is Imports)
            {
                n.kind == EdgeKind::Imports
            };
            let name = |n: &Neighbor| -> (x: String)
                ensures x.deep_view() == n.deep_view().symbol.name
            {
                n.symbol.name.clone()
            };
            let depends_on = each(
                &keep(
                    &self.neighbors(s.id.as_str()).callees,
                    imports,
                    Ghost(|n: NeighborV| n.kind is Imports),
                ),
                name,
                Ghost(|n: NeighborV| n.symbol.name),
            );
            let files = self.children(s.id.as_str());
            assert(files@.len() == files.deep_view().len());
            ServiceUse { service: s.clone(), depends_on, files: files.len() }
        };
        each(&all, show, Ghost(|s: SymbolV| self@.service_use(s)))
    }
}

/// Those of some symbols that have a role; all of them where none is given.
pub open spec fn in_role(s: Seq<SymbolV>, role: Option<Role>) -> Seq<SymbolV> {
    s.filter(|x: SymbolV| role is None || x.role == role)
}

// ------------------------------------------------------------------- the leases

impl StoreV {
    /// Taking a lease on what a reference names.
    pub open spec fn acquire_ref(self, query: Seq<char>, agent: Seq<char>, o: AcquireOptionsV, t: Tick) -> (
        StoreV,
        Result<TakenV, StoreErrorV>,
    ) {
        match self.resolve(query) {
            Err(e) => (self, Err(e)),
            Ok(s) => {
                let (next, r) = self.acquire(s.id, agent, o, t);
                (
                    next,
                    match r {
                        Ok(outcome) => Ok(TakenV { symbol: s, outcome }),
                        Err(e) => Err(e),
                    },
                )
            },
        }
    }

    /// The leases that an agent holds, oldest first.
    pub open spec fn leases_of(self, agent: Seq<char>) -> Seq<LeaseV> {
        sorted(
            self.leases.filter(|l: LeaseRowV| l.state is Active && l.agent == agent),
            rank::<LeaseRow>(),
        ).map_values(|l: LeaseRowV| self.lease_of(l))
    }

    /// The lease that is meant: the one with this id, or the agent's own on what the
    /// reference names.
    pub open spec fn lease_meant(self, target: Seq<char>, agent: Seq<char>) -> Result<
        Seq<char>,
        StoreErrorV,
    > {
        match self.lease(target) {
            Some(l) => Ok(l.id),
            None => match self.resolve(target) {
                Err(e) => Err(e),
                Ok(s) => match first_where(
                    self.leases_of(agent),
                    |l: LeaseV| l.symbol_id == s.id,
                ) {
                    Some(l) => Ok(l.id),
                    None => Err(
                        failure(
                            ErrorKind::NoSuchLease,
                            agent + " holds no lease on "@ + s.handle(),
                        ),
                    ),
                },
            },
        }
    }

    /// Handing back one lease, or all of them.
    pub open spec fn release_meant(self, target: Option<Seq<char>>, all: bool, agent: Seq<char>, now: i64) -> (
        StoreV,
        Result<Seq<LeaseV>, StoreErrorV>,
    ) {
        if all {
            (
                self.finish_each(
                    self.held_by(agent),
                    LeaseState::Released,
                    "released"@,
                    now,
                ),
                Ok(self.held_by(agent).map_values(|l: LeaseRowV| self.lease_of(l))),
            )
        } else {
            match target {
                None => (
                    self,
                    Err(
                        failure(
                            ErrorKind::NothingNamed,
                            "pass a lease id, a symbol, or --all"@,
                        ),
                    ),
                ),
                Some(x) => match self.lease_meant(x, agent) {
                    Err(e) => (self, Err(e)),
                    Ok(id) => {
                        let (s, r) = self.release(id, agent, now);
                        (
                            s,
                            match r {
                                Ok(l) => Ok(seq![l]),
                                Err(e) => Err(e),
                            },
                        )
                    },
                },
            }
        }
    }

    /// Handing a lease to somebody else.
    pub open spec fn transfer_meant(self, target: Seq<char>, agent: Seq<char>, to: Seq<char>, now: i64) -> (
        StoreV,
        Result<LeaseV, StoreErrorV>,
    ) {
        match self.lease_meant(target, agent) {
            Err(e) => (self, Err(e)),
            Ok(id) => self.transfer_lease(id, agent, to, now),
        }
    }
}

impl Store {
    /// Resolve a reference and take a lease on what it names.
    pub fn acquire_ref(&mut self, query: &str, agent: &str, opts: &AcquireOptions, t: Tick) -> (r: Result<
        Taken,
        StoreError,
    >)
        requires
            old(self)@.wf(),
            t.ok(),
            sane_ttl(opts.ttl_secs),
        ensures
            (final(self)@, seen(r)) == old(self)@.acquire_ref(query@, agent@, opts.deep_view(), t),
            final(self)@.wf(),
    {
        let symbol = match self.resolve(query) {
            Ok(s) => s,
            Err(e) => {
                return Err(e);
            },
        };
        match self.acquire(symbol.id.as_str(), agent, opts, t) {
            Ok(outcome) => Ok(Taken { symbol, outcome }),
            Err(e) => Err(e),
        }
    }

    /// The lease that is meant by an id or by a symbol that the agent holds.
    pub fn resolve_lease(&self, target: &str, agent: &str) -> (r: Result<String, StoreError>)
        ensures
            seen(r) == self@.lease_meant(target@, agent@),
    {
        if let Some(l) = self.lease(target) {
            return Ok(l.id);
        }
        let s = match self.resolve(target) {
            Ok(s) => s,
            Err(e) => {
                return Err(e);
            },
        };
        let who = Some(agent.to_owned());
        let held = self.active_leases(&who);
        proof {
            let f = |l: LeaseRowV|
                l.state is Active && (who.deep_view() matches Some(a) ==> l.agent == a);
            let g = |l: LeaseRowV| l.state is Active && l.agent == agent@;
            assert(f =~= g);
        }
        let on = |l: &Lease| -> (b: bool)
            ensures b == (l.deep_view().symbol_id == s.deep_view().id)
        {
            same(l.symbol_id.as_str(), s.id.as_str())
        };
        match find_row(&held, on, Ghost(|l: LeaseV| l.symbol_id == s.deep_view().id)) {
            Some(i) => Ok(held[i].id.clone()),
            None => Err(
                fail(
                    ErrorKind::NoSuchLease,
                    cat3(agent, " holds no lease on ", s.handle().as_str()),
                ),
            ),
        }
    }

    /// Hand back one lease, or all of them.
    pub fn release_meant(&mut self, target: &Option<String>, all: bool, agent: &str, now: i64) -> (r: Result<
        Vec<Lease>,
        StoreError,
    >)
        requires
            old(self)@.wf(),
            sane_time(now),
        ensures
            (final(self)@, seen(r)) == old(self)@.release_meant(
                target.deep_view(),
                all,
                agent@,
                now,
            ),
            final(self)@.wf(),
    {
        if all {
            return Ok(self.release_all(agent, now));
        }
        let id = match target {
            None => {
                return Err(
                    fail(
                        ErrorKind::NothingNamed,
                        "pass a lease id, a symbol, or --all".to_owned(),
                    ),
                );
            },
            Some(x) => match self.resolve_lease(x.as_str(), agent) {
                Ok(id) => id,
                Err(e) => {
                    return Err(e);
                },
            },
        };
        match self.release(id.as_str(), agent, now) {
            Ok(l) => {
                let ghost lv = l.deep_view();
                let mut out: Vec<Lease> = no_rows();
                append(&mut out, l);
                assert(out.deep_view() =~= seq![lv]);
                Ok(out)
            },
            Err(e) => Err(e),
        }
    }

    /// Hand a lease to somebody else.
    pub fn transfer_meant(&mut self, target: &str, agent: &str, to: &str, now: i64) -> (r: Result<
        Lease,
        StoreError,
    >)
        requires
            old(self)@.wf(),
            sane_time(now),
        ensures
            (final(self)@, seen(r)) == old(self)@.transfer_meant(target@, agent@, to@, now),
            final(self)@.wf(),
    {
        match self.resolve_lease(target, agent) {
            Ok(id) => self.transfer_lease(id.as_str(), agent, to, now),
            Err(e) => Err(e),
        }
    }
}

/// What to do after an attempt to take a lease.
#[derive(Debug, Clone, Copy, PartialEq, Eq, Structural)]
pub enum Step {
    /// Stop, and exit this way.
    Stop(Exit),
    /// Wait a little and try again.
    Again,
}

/// After an attempt to take a lease: a grant ends it, and so does a denial once the
/// time to wait is up.
pub fn after_attempt(outcome: &AcquireOutcome, time_left: bool) -> (r: Step)
    ensures
        r == (match outcome {
            AcquireOutcome::Denied { .. } => if time_left {
                Step::Again
            } else {
                Step::Stop(Exit::Denied)
            },
            _ => Step::Stop(Exit::Success),
        }),
{
    if outcome.is_granted() {
        Step::Stop(Exit::Success)
    } else if time_left {
        Step::Again
    } else {
        Step::Stop(Exit::Denied)
    }
}

/// After a look at a request that is waited for: only one that was fulfilled is a
/// success.
pub fn after_look(state: RequestState, time_left: bool) -> (r: Step)
    ensures
        r == (if state is Fulfilled {
            Step::Stop(Exit::Success)
        } else if !state.live() || !time_left {
            Step::Stop(Exit::Denied)
        } else {
            Step::Again
        }),
{
    if state == RequestState::Fulfilled {
        Step::Stop(Exit::Success)
    } else if !state.is_live() || !time_left {
        Step::Stop(Exit::Denied)
    } else {
        Step::Again
    }
}

// --------------------------------------------------------------- agents and work

impl StoreV {
    /// Joining, with a role where one is given by its word.
    pub open spec fn join(self, name: Seq<char>, kind: Seq<char>, capability: Option<Seq<char>>, now: i64) -> (
        StoreV,
        Result<AgentV, StoreErrorV>,
    ) {
        let s = self.register_agent(name, kind, now);
        match capability {
            None => (
                s,
                match s.agent(name) {
                    Some(a) => Ok(a),
                    None => Err(failure(ErrorKind::NoSuchAgent, "no such agent: "@ + name)),
                },
            ),
            Some(w) => match capability_of(w) {
                Err(e) => (s, Err(e)),
                Ok(c) => s.change_agent(name, |a: AgentV| AgentV { capability: Some(c), ..a }),
            },
        }
    }

    /// The task that an agent is working on.
    pub open spec fn current_task(self, agent: Seq<char>) -> Option<TaskViewV> {
        first_where(
            self.tasks_listed(),
            |t: TaskViewV| t.task.state is Running && t.task.assignee == Some(agent),
        )
    }

    /// Adding a task with what it will touch and what it takes to do it.
    pub open spec fn add_scoped_task(
        self,
        title: Seq<char>,
        priority: i64,
        deps: Seq<Seq<char>>,
        symbols: Seq<Seq<char>>,
        capability: Option<Seq<char>>,
        now: i64,
    ) -> (StoreV, Result<ScopedV, StoreErrorV>) {
        let (s, r) = self.add_task(title, priority, deps, now);
        match r {
            Err(e) => (s, Err(e)),
            Ok(task) => {
                let (s, r) = if symbols.len() == 0 {
                    (s, Ok::<Seq<SymbolV>, StoreErrorV>(Seq::empty()))
                } else {
                    s.set_task_scope(task.id, symbols, now)
                };
                match r {
                    Err(e) => (s, Err(e)),
                    Ok(scope) => {
                        let (s, r) = s.need(task, capability, now);
                        match r {
                            Err(e) => (s, Err(e)),
                            Ok(task) => (s, Ok(ScopedV { task, scope })),
                        }
                    },
                }
            },
        }
    }

    /// Saying what it takes to do a task, where that is given by its word.
    pub open spec fn need(self, task: TaskV, capability: Option<Seq<char>>, now: i64) -> (
        StoreV,
        Result<TaskV, StoreErrorV>,
    ) {
        match capability {
            None => (self, Ok(task)),
            Some(w) => match capability_of(w) {
                Err(e) => (self, Err(e)),
                Ok(c) => {
                    let (s, r) = self.set_task_required_capability(task.id, Some(c), now);
                    match r {
                        Ok(t) => (s, Ok(t.task)),
                        Err(e) => (s, Err(e)),
                    }
                },
            },
        }
    }

    /// Adding a task under a goal, with what it takes to do it.
    pub open spec fn decompose(
        self,
        goal: Seq<char>,
        title: Seq<char>,
        priority: i64,
        deps: Seq<Seq<char>>,
        symbols: Seq<Seq<char>>,
        capability: Option<Seq<char>>,
        now: i64,
    ) -> (StoreV, Result<TaskV, StoreErrorV>) {
        let (s, r) = self.goal_decompose(goal, title, priority, deps, symbols, now);
        match r {
            Err(e) => (s, Err(e)),
            Ok(task) => s.need(task, capability, now),
        }
    }

    /// Making tasks of suggestions, until one cannot be made.
    pub open spec fn apply_suggestions(self, goal: Seq<char>, some: Seq<TaskSuggestionV>, now: i64) -> (
        StoreV,
        Result<Seq<TaskV>, StoreErrorV>,
    )
        decreases some.len(),
    {
        if some.len() == 0 {
            (self, Ok(Seq::empty()))
        } else {
            let (s, r) = self.apply_suggestions(goal, some.drop_last(), now);
            match r {
                Err(e) => (s, Err(e)),
                Ok(made) => {
                    let x = some.last();
                    let (s, r) = s.goal_decompose(goal, x.title, 0, Seq::empty(), x.symbols, now);
                    match r {
                        Ok(t) => (s, Ok(made.push(t))),
                        Err(e) => (s, Err(e)),
                    }
                },
            }
        }
    }

    /// The suggestions for a goal near a symbol.
    pub open spec fn suggest(self, goal: Seq<char>, near: Seq<char>, depth: nat) -> Result<
        Seq<TaskSuggestionV>,
        StoreErrorV,
    > {
        if self.goal(goal) is None {
            Err(failure(ErrorKind::NoSuchGoal, "no such goal: "@ + goal))
        } else {
            match self.resolve(near) {
                Err(e) => Err(e),
                Ok(s) => Ok(self.cluster(seq![s], depth)),
            }
        }
    }

    /// The task that an id means where work is handed out: a goal means its first
    /// task that can start.
    pub open spec fn task_meant(self, id: Seq<char>) -> Result<Seq<char>, StoreErrorV> {
        if "G"@.is_prefix_of(id) && self.goal(id) is Some {
            match first_where(self.goal_tasks(id), |t: TaskViewV| t.ready) {
                Some(t) => Ok(t.task.id),
                None => Err(
                    failure(ErrorKind::NothingStartable, "no startable task under "@ + id),
                ),
            }
        } else {
            Ok(id)
        }
    }

    /// Handing a task, or the next one under a goal, to an agent.
    pub open spec fn assign(
        self,
        id: Seq<char>,
        to: Seq<char>,
        actor: Option<Seq<char>>,
        preempt: bool,
        priority: i64,
        t: Tick,
    ) -> (StoreV, Result<TaskViewV, StoreErrorV>) {
        match self.task_meant(id) {
            Err(e) => (self, Err(e)),
            Ok(task) => self.assign_task_opts(task, to, actor, preempt, priority, t),
        }
    }

    /// Going on: whoever has work renews it, anybody else is given some.
    pub open spec fn go_on(self, agent: Seq<char>, ttl_secs: i64, goal: Option<Seq<char>>, t: Tick) -> (
        StoreV,
        Result<ContinuedV, StoreErrorV>,
    ) {
        match self.current_task(agent) {
            Some(task) => (
                self.heartbeat(agent, None, t.now),
                Ok(
                    ContinuedV::Renewed {
                        task: task.task.id,
                        leases: self.expire_due(t.now).beating(agent, None).map_values(
                            |l: LeaseRowV| self.lease_of(renewed(l, t.now)),
                        ),
                    },
                ),
            ),
            None => {
                let (s, r) = self.claim_next_in(agent, ttl_secs, goal, t);
                (
                    s,
                    match r {
                        Err(e) => Err(e),
                        Ok(Some(x)) => Ok(ContinuedV::Claimed { next: x }),
                        Ok(None) => Ok(ContinuedV::Nothing),
                    },
                )
            },
        }
    }

    /// Reporting progress, about a symbol where one is named.
    pub open spec fn report(
        self,
        agent: Seq<char>,
        task: Option<Seq<char>>,
        symbol: Option<Seq<char>>,
        percent: Option<i64>,
        eta_secs: Option<i64>,
        note: Option<Seq<char>>,
        now: i64,
    ) -> (StoreV, Result<ProgressUpdateV, StoreErrorV>) {
        match self.symbol_meant(symbol) {
            Err(e) => (self, Err(e)),
            Ok(symbol_id) => {
                let row = ProgressRowV {
                    id: next_progress_id(self.progress),
                    agent,
                    task,
                    symbol_id,
                    percent: match percent {
                        Some(p) => Some(clamped(p)),
                        None => None,
                    },
                    eta_secs,
                    note,
                    ts: now,
                };
                (self.noted(row).heartbeat(agent, None, now), Ok(self.progress_of(row)))
            },
        }
    }

    /// The symbol that a reference names, where there is one.
    pub open spec fn symbol_meant(self, symbol: Option<Seq<char>>) -> Result<
        Option<Seq<char>>,
        StoreErrorV,
    > {
        match symbol {
            None => Ok(None),
            Some(q) => match self.resolve(q) {
                Ok(s) => Ok(Some(s.id)),
                Err(e) => Err(e),
            },
        }
    }
}

/// What came of going on.
#[derive(Debug)]
pub enum Continued {
    /// There was work already; its leases are renewed.
    Renewed { task: String, leases: Vec<Lease> },
    /// There is new work.
    Claimed { next: ScheduledTask },
    /// There is nothing to do.
    Nothing,
}

/// The contents of a [`Continued`].
pub enum ContinuedV {
    Renewed { task: Seq<char>, leases: Seq<LeaseV> },
    Claimed { next: ScheduledTaskV },
    Nothing,
}

impl DeepView for Continued {
    type V = ContinuedV;

    open spec fn deep_view(&self) -> ContinuedV {
        match self {
            Continued::Renewed { task, leases } => ContinuedV::Renewed {
                task: task@,
                leases: leases.deep_view(),
            },
            Continued::Claimed { next } => ContinuedV::Claimed { next: next.deep_view() },
            Continued::Nothing => ContinuedV::Nothing,
        }
    }
}

impl Continued {
    /// How a command that went on ends: having nothing to do is a denial.
    pub fn exit(&self) -> (r: Exit)
        ensures
            r == (if self is Nothing {
                Exit::Denied
            } else {
                Exit::Success
            }),
    {
        match self {
            Continued::Nothing => Exit::Denied,
            _ => Exit::Success,
        }
    }
}

impl Store {
    /// Join the workspace, with a role where one is named.
    pub fn join(&mut self, name: &str, kind: &str, capability: &Option<String>, now: i64) -> (r: Result<
        Agent,
        StoreError,
    >)
        ensures
            (final(self)@, seen(r)) == old(self)@.join(name@, kind@, capability.deep_view(), now),
    {
        let agent = self.register_agent(name, kind, now);
        match capability {
            None => Ok(agent),
            Some(w) => match capability_named(w.as_str()) {
                Err(e) => Err(e),
                Ok(c) => {
                    proof {
                        lemma_capability(c);
                    }
                    let ghost s = self@;
                    let r = self.set_agent_capability(name, Some(c));
                    proof {
                        let cap = Some(c);
                        let f = |a: AgentV| AgentV { capability: cap, ..a };
                        let g = |a: AgentV| AgentV { capability: Some(c), ..a };
                        assert(f =~= g);
                        assert((self@, seen(r)) == s.change_agent(name@, g));
                    }
                    r
                },
            },
        }
    }

    /// The task that an agent is working on.
    pub fn current_task(&self, agent: &str) -> (r: Option<TaskView>)
        ensures
            r.deep_view() == self@.current_task(agent@),
    {
        let all = self.tasks();
        let mine = |t: &TaskView| -> (b: bool)
            ensures b == (t.deep_view().task.state is Running && t.deep_view().task.assignee == Some(agent@))
        {
            t.task.state == TaskState::Running && crate::text::same_opt(
                &t.task.assignee,
                &Some(agent.to_owned()),
            )
        };
        match find_row(
            &all,
            mine,
            Ghost(
                |t: TaskViewV| t.task.state is Running && t.task.assignee == Some(agent@),
            ),
        ) {
            Some(i) => Some(all[i].clone()),
            None => None,
        }
    }

    fn need(&mut self, task: Task, capability: &Option<String>, now: i64) -> (r: Result<Task, StoreError>)
        ensures
            (final(self)@, seen(r)) == old(self)@.need(task.deep_view(), capability.deep_view(), now),
            old(self)@.wf() ==> final(self)@.wf(),
    {
        match capability {
            None => Ok(task),
            Some(w) => match capability_named(w.as_str()) {
                Err(e) => Err(e),
                Ok(c) => {
                    proof {
                        lemma_capability(c);
                    }
                    match self.set_task_required_capability(task.id.as_str(), Some(c), now) {
                        Ok(t) => Ok(t.task),
                        Err(e) => Err(e),
                    }
                },
            },
        }
    }

    /// Add a task with what it will touch and what it takes to do it.
    pub fn add_scoped_task(
        &mut self,
        title: &str,
        priority: i64,
        deps: &Vec<String>,
        symbols: &Vec<String>,
        capability: &Option<String>,
        now: i64,
    ) -> (r: Result<Scoped, StoreError>)
        requires
            old(self).tasks@.len() < u64::MAX,
        ensures
            (final(self)@, seen(r)) == old(self)@.add_scoped_task(
                title@,
                priority,
                deps.deep_view(),
                symbols.deep_view(),
                capability.deep_view(),
                now,
            ),
            old(self)@.wf() ==> final(self)@.wf(),
    {
        let task = match self.add_task(title, priority, deps, now) {
            Ok(t) => t,
            Err(e) => {
                return Err(e);
            },
        };
        assert(symbols@.len() == symbols.deep_view().len());
        let scope: Vec<Symbol> = if symbols.len() == 0 {
            no_rows()
        } else {
            match self.set_task_scope(task.id.as_str(), symbols, now) {
                Ok(s) => s,
                Err(e) => {
                    return Err(e);
                },
            }
        };
        match self.need(task, capability, now) {
            Ok(task) => Ok(Scoped { task, scope }),
            Err(e) => Err(e),
        }
    }

    /// Add a task under a goal, with what it takes to do it.
    pub fn decompose(
        &mut self,
        goal: &str,
        title: &str,
        priority: i64,
        deps: &Vec<String>,
        symbols: &Vec<String>,
        capability: &Option<String>,
        now: i64,
    ) -> (r: Result<Task, StoreError>)
        requires
            old(self).tasks@.len() < u64::MAX,
        ensures
            (final(self)@, seen(r)) == old(self)@.decompose(
                goal@,
                title@,
                priority,
                deps.deep_view(),
                symbols.deep_view(),
                capability.deep_view(),
                now,
            ),
            old(self)@.wf() ==> final(self)@.wf(),
    {
        match self.goal_decompose(goal, title, priority, deps, symbols, now) {
            Ok(task) => self.need(task, capability, now),
            Err(e) => Err(e),
        }
    }

    /// Suggest tasks for a goal from what a change near a symbol reaches.
    pub fn suggest(&self, goal: &str, near: &str, depth: usize) -> (r: Result<
        Vec<TaskSuggestion>,
        StoreError,
    >)
        ensures
            seen(r) == self@.suggest(goal@, near@, depth as nat),
    {
        if self.goal(goal).is_none() {
            return Err(fail_about(ErrorKind::NoSuchGoal, "no such goal: ", goal));
        }
        self.suggest_decomposition(near, depth)
    }

    /// Make tasks of suggestions, until one cannot be made.
    pub fn apply_suggestions(&mut self, goal: &str, some: &Vec<TaskSuggestion>, now: i64) -> (r: Result<
        Vec<Task>,
        StoreError,
    >)
        requires
            old(self).tasks@.len() + some@.len() < u64::MAX,
        ensures
            (final(self)@, seen(r)) == old(self)@.apply_suggestions(goal@, some.deep_view(), now),
            old(self)@.wf() ==> final(self)@.wf(),
    {
        let ghost s0 = self@;
        let ghost all = some.deep_view();
        let none: Vec<String> = no_rows();
        let mut made: Vec<Task> = no_rows();
        let mut i: usize = 0;
        let count = some.len();
        while i < count
            invariant
                s0 == old(self)@,
                all == some.deep_view(),
                count == some@.len(),
                none.deep_view() == Seq::<Seq<char>>::empty(),
                i <= count,
                s0.wf() ==> self@.wf(),
                self.tasks@.len() + (count - i) < u64::MAX,
                (self@, Ok::<Seq<TaskV>, StoreErrorV>(made.deep_view())) == s0.apply_suggestions(
                    goal@,
                    all.take(i as int),
                    now,
                ),
            decreases count - i,
        {
            proof {
                assert(all.take(i + 1).drop_last() =~= all.take(i as int));
                assert(all.take(i + 1).last() == some@[i as int].deep_view());
            }
            let ghost before = self@;
            let x = &some[i];
            let r = self.goal_decompose(
                goal,
                x.title.as_str(),
                0,
                &none,
                &x.symbols,
                now,
            );
            proof {
                lemma_decompose_adds_one(
                    before,
                    goal@,
                    x.title@,
                    0,
                    Seq::empty(),
                    x.symbols.deep_view(),
                    now,
                );
                assert(self.tasks@.len() == self@.tasks.len());
            }
            match r {
                Ok(t) => {
                    append(&mut made, t);
                },
                Err(e) => {
                    proof {
                        lemma_apply_stops(s0, goal@, all, now, i + 1);
                    }
                    return Err(e);
                },
            }
            i += 1;
        }
        assert(all.take(i as int) =~= all);
        Ok(made)
    }

    /// Hand a task, or the next one under a goal, to an agent.
    pub fn assign(&mut self, id: &str, to: &str, actor: &Option<String>, preempt: bool, priority: i64, t: Tick) -> (r:
        Result<TaskView, StoreError>)
        requires
            old(self)@.wf(),
            t.ok(),
            old(self).task_symbols@.len() <= i64::MAX,
            old(self).leases@.len() <= i64::MAX,
        ensures
            (final(self)@, seen(r)) == old(self)@.assign(
                id@,
                to@,
                actor.deep_view(),
                preempt,
                priority,
                t,
            ),
            final(self)@.wf(),
    {
        let task = if starts_with(id, "G") && self.goal(id).is_some() {
            let all = self.goal_tasks(id);
            let ready = |x: &TaskView| -> (b: bool)
                ensures b == x.deep_view().ready
            {
                x.ready
            };
            match find_row(&all, ready, Ghost(|x: TaskViewV| x.ready)) {
                Some(i) => all[i].task.id.clone(),
                None => {
                    return Err(
                        fail_about(ErrorKind::NothingStartable, "no startable task under ", id),
                    );
                },
            }
        } else {
            id.to_owned()
        };
        self.assign_task_opts(task.as_str(), to, actor, preempt, priority, t)
    }

    /// Go on: renew what there is, or claim the next thing to do.
    pub fn go_on(&mut self, agent: &str, ttl_secs: i64, goal: &Option<String>, t: Tick) -> (r: Result<
        Continued,
        StoreError,
    >)
        requires
            old(self)@.wf(),
            t.ok(),
            sane_ttl(ttl_secs),
            old(self).task_symbols@.len() <= i64::MAX,
        ensures
            (final(self)@, seen(r)) == old(self)@.go_on(agent@, ttl_secs, goal.deep_view(), t),
            final(self)@.wf(),
    {
        if let Some(x) = self.current_task(agent) {
            let none: Option<String> = None;
            let leases = self.heartbeat(agent, &none, t.now);
            return Ok(Continued::Renewed { task: x.task.id, leases });
        }
        match self.claim_next_in(agent, ttl_secs, goal, t) {
            Err(e) => Err(e),
            Ok(Some(x)) => Ok(Continued::Claimed { next: x }),
            Ok(None) => Ok(Continued::Nothing),
        }
    }

    /// Report progress, about a symbol where one is named.
    pub fn report(
        &mut self,
        agent: &str,
        task: &Option<String>,
        symbol: &Option<String>,
        percent: Option<i64>,
        eta_secs: Option<i64>,
        note: &Option<String>,
        now: i64,
    ) -> (r: Result<ProgressUpdate, StoreError>)
        requires
            old(self)@.wf(),
            sane_time(now),
        ensures
            (final(self)@, seen(r)) == old(self)@.report(
                agent@,
                task.deep_view(),
                symbol.deep_view(),
                percent,
                eta_secs,
                note.deep_view(),
                now,
            ),
            final(self)@.wf(),
    {
        match self.symbol_meant(symbol) {
            Err(e) => Err(e),
            Ok(id) => Ok(self.record_progress(agent, task, &id, percent, eta_secs, note, now)),
        }
    }

    fn symbol_meant(&self, symbol: &Option<String>) -> (r: Result<Option<String>, StoreError>)
        ensures
            seen(r) == self@.symbol_meant(symbol.deep_view()),
    {
        match symbol {
            None => Ok(None),
            Some(q) => match self.resolve(q.as_str()) {
                Ok(s) => Ok(Some(s.id)),
                Err(e) => Err(e),
            },
        }
    }
}

/// Decomposing adds at most one task.
proof fn lemma_decompose_adds_one(
    s: StoreV,
    goal: Seq<char>,
    title: Seq<char>,
    priority: i64,
    deps: Seq<Seq<char>>,
    symbols: Seq<Seq<char>>,
    now: i64,
)
    ensures
        s.goal_decompose(goal, title, priority, deps, symbols, now).0.tasks.len() <= s.tasks.len() + 1,
{
}

/// Once a suggestion cannot be made into a task, nothing more is made.
proof fn lemma_apply_stops(s: StoreV, goal: Seq<char>, some: Seq<TaskSuggestionV>, now: i64, n: int)
    requires
        0 <= n <= some.len(),
        s.apply_suggestions(goal, some.take(n), now).1 is Err,
    ensures
        s.apply_suggestions(goal, some, now) == s.apply_suggestions(goal, some.take(n), now),
    decreases some.len() - n,
{
    if n < some.len() {
        assert(some.take(n + 1).drop_last() =~= some.take(n));
        lemma_apply_stops(s, goal, some, now, n + 1);
    } else {
        assert(some.take(n) =~= some);
    }
}

/// Why an agent was given nothing.
pub open spec fn idle_of(plan: PlanV) -> Seq<char> {
    let contended = if plan.waves.len() > 0 {
        plan.waves[0].tasks.filter(|t: ScheduledTaskV| t.contended_by is Some).len()
    } else {
        0
    };
    if contended > 0 {
        "nothing you can start — "@ + decimal(contended)
            + " ready task(s) are held by other agents"@
    } else {
        "nothing is ready — every task is blocked, taken or done"@
    }
}

/// Why an agent was given nothing.
pub fn idle_reason(plan: &Plan) -> (r: String)
    ensures
        r@ == idle_of(plan.deep_view()),
{
    assert(plan.waves@.len() == plan.waves.deep_view().len());
    if plan.waves.len() > 0 {
        assert(plan.waves.deep_view()[0] == plan.waves@[0].deep_view());
        let held = |t: &ScheduledTask| -> (b: bool)
            ensures b == (t.deep_view().contended_by is Some)
        {
            t.contended_by.is_some()
        };
        let rows = keep(
            &plan.waves[0].tasks,
            held,
            Ghost(|t: ScheduledTaskV| t.contended_by is Some),
        );
        assert(rows@.len() == rows.deep_view().len());
        if rows.len() > 0 {
            return cat3(
                "nothing you can start — ",
                decimal_of(rows.len() as u64).as_str(),
                " ready task(s) are held by other agents",
            );
        }
    }
    "nothing is ready — every task is blocked, taken or done".to_owned()
}

/// What everyone is doing, what is blocked, and what can run at once.
#[derive(Debug)]
pub struct Observed {
    pub agents: Vec<Agent>,
    pub tasks: Vec<TaskView>,
    pub plan: Plan,
}

/// The contents of an [`Observed`].
pub struct ObservedV {
    pub agents: Seq<AgentV>,
    pub tasks: Seq<TaskViewV>,
    pub plan: PlanV,
}

impl DeepView for Observed {
    type V = ObservedV;

    open spec fn deep_view(&self) -> ObservedV {
        ObservedV {
            agents: self.agents.deep_view(),
            tasks: self.tasks.deep_view(),
            plan: self.plan.deep_view(),
        }
    }
}

impl StoreV {
    /// What there is to see, of one goal or of everything.
    pub open spec fn observed(self, goal: Option<Seq<char>>, now: i64) -> ObservedV {
        ObservedV {
            agents: self.agents,
            tasks: match goal {
                Some(g) => self.goal_tasks(g),
                None => self.tasks_listed(),
            },
            plan: self.plan(now),
        }
    }
}

/// A plan in one line.
pub open spec fn plan_line_of(plan: PlanV) -> Seq<char> {
    decimal(plan.running.len()) + " running, "@ + decimal(plan.in_review.len()) + " in review, "@
        + decimal(plan.startable_now as nat) + " can start now"@
}

/// A plan in one line.
pub fn plan_line(plan: &Plan) -> (r: String)
    ensures
        r@ == plan_line_of(plan.deep_view()),
{
    assert(plan.running@.len() == plan.running.deep_view().len());
    assert(plan.in_review@.len() == plan.in_review.deep_view().len());
    let running = cat(decimal_of(plan.running.len() as u64).as_str(), " running, ");
    let review = cat3(
        running.as_str(),
        decimal_of(plan.in_review.len() as u64).as_str(),
        " in review, ",
    );
    cat3(review.as_str(), decimal_of(plan.startable_now as u64).as_str(), " can start now")
}

impl Store {
    /// What everyone is doing, what is blocked, and what can run at once, once what is
    /// over its time has lapsed.
    pub fn observe(&mut self, goal: &Option<String>, now: i64) -> (r: Observed)
        requires
            old(self)@.wf(),
            sane_time(now),
        ensures
            final(self)@ == old(self)@.expire_due(now).expire_requests(now),
            r.deep_view() == final(self)@.observed(goal.deep_view(), now),
            final(self)@.wf(),
    {
        self.sweep(now);
        let tasks = match goal {
            Some(g) => self.goal_tasks(g.as_str()),
            None => self.tasks(),
        };
        let copy = |a: &Agent| -> (b: Agent)
            ensures b.deep_view() == a.deep_view()
        {
            a.clone()
        };
        let agents = each(&self.agents, copy, Ghost(|a: AgentV| a));
        assert(agents.deep_view() =~= self@.agents);
        Observed { agents, tasks, plan: self.plan(now) }
    }
}

// ------------------------------------------------------------------ the requests

/// The request for an interface.
pub open spec fn interface_request(agent: Seq<char>, a: InterfaceAskV) -> NewRequestV {
    NewRequestV {
        kind: request_kind::INTERFACE@,
        from: agent,
        to: a.to,
        subject: "need interface "@ + a.resource,
        body: JsonV::Obj(
            seq![
                ("resource"@, JsonV::Str(a.resource)),
                ("methods"@, JsonV::Arr(a.methods.map_values(|s: Seq<char>| JsonV::Str(s)))),
            ],
        ),
        resource_symbol: None,
        resource_task: None,
        task: a.task,
        priority: a.priority,
        deadline_secs: Some(a.deadline),
    }
}

/// The request of somebody who waits for a task.
pub open spec fn depend_request(
    agent: Seq<char>,
    on: Seq<char>,
    to: Option<Seq<char>>,
    note: Option<Seq<char>>,
    deadline: i64,
) -> NewRequestV {
    NewRequestV {
        kind: request_kind::DEPENDENCY@,
        from: agent,
        to,
        subject: "blocked on "@ + on,
        body: JsonV::Obj(seq![("note"@, crate::json::opt_text(note))]),
        resource_symbol: None,
        resource_task: Some(on),
        task: None,
        priority: 0,
        deadline_secs: Some(deadline),
    }
}

impl StoreV {
    /// Asking to be told when a task is done. The task has to be there.
    pub open spec fn depend(
        self,
        agent: Seq<char>,
        on: Seq<char>,
        to: Option<Seq<char>>,
        note: Option<Seq<char>>,
        deadline: i64,
        t: Tick,
    ) -> (StoreV, Result<RequestV, StoreErrorV>) {
        if self.task(on) is None {
            (self, Err(failure(ErrorKind::NoSuchTask, "no such task: "@ + on)))
        } else {
            self.open_request(depend_request(agent, on, to, note, deadline), t)
        }
    }

    /// Asking anything, about a symbol where one is named.
    pub open spec fn ask(self, q: NewRequestV, symbol: Option<Seq<char>>, t: Tick) -> (
        StoreV,
        Result<RequestV, StoreErrorV>,
    ) {
        match self.symbol_meant(symbol) {
            Err(e) => (self, Err(e)),
            Ok(id) => self.open_request(NewRequestV { resource_symbol: id, ..q }, t),
        }
    }

    /// Asking the holder of what a reference names to hand it over.
    pub open spec fn ask_for_lease(
        self,
        symbol: Seq<char>,
        agent: Seq<char>,
        reason: Option<Seq<char>>,
        deadline: i64,
        priority: i64,
        task: Option<Seq<char>>,
        t: Tick,
    ) -> (StoreV, Result<RequestV, StoreErrorV>) {
        match self.resolve(symbol) {
            Err(e) => (self, Err(e)),
            Ok(s) => self.request_lease_transfer(
                s.id,
                agent,
                reason,
                Some(deadline),
                priority,
                task,
                t,
            ),
        }
    }
}

impl Store {
    /// Ask for an interface.
    pub fn ask_for_interface(&mut self, agent: &str, a: &InterfaceAsk, t: Tick) -> (r: Result<
        Request,
        StoreError,
    >)
        requires
            t.ok(),
            sane_ttl(a.deadline),
        ensures
            (final(self)@, seen(r)) == old(self)@.open_request(
                interface_request(agent@, a.deep_view()),
                t,
            ),
    {
        let subject = cat("need interface ", a.resource.as_str());
        let mut q = NewRequest::new(request_kind::INTERFACE, agent, subject.as_str());
        q.to = a.to.clone();
        q.body = Json::object().with("resource", Json::str(a.resource.as_str())).with(
            "methods",
            Json::strings(&a.methods),
        );
        q.task = a.task.clone();
        q.priority = a.priority;
        q.deadline_secs = Some(a.deadline);
        proof {
            let want = interface_request(agent@, a.deep_view());
            assert(q.deep_view().body->Obj_0 =~= want.body->Obj_0);
            assert(q.deep_view() == want);
        }
        self.open_request(&q, t)
    }

    /// Declare that an agent is blocked until a task finishes.
    pub fn depend(
        &mut self,
        agent: &str,
        on: &str,
        to: &Option<String>,
        note: &Option<String>,
        deadline: i64,
        t: Tick,
    ) -> (r: Result<Request, StoreError>)
        requires
            t.ok(),
            sane_ttl(deadline),
        ensures
            (final(self)@, seen(r)) == old(self)@.depend(
                agent@,
                on@,
                to.deep_view(),
                note.deep_view(),
                deadline,
                t,
            ),
    {
        if self.task(on).is_none() {
            return Err(fail_about(ErrorKind::NoSuchTask, "no such task: ", on));
        }
        let subject = cat("blocked on ", on);
        let mut q = NewRequest::new(request_kind::DEPENDENCY, agent, subject.as_str());
        q.to = to.clone();
        q.body = Json::object().with("note", Json::opt(note));
        q.resource_task = Some(on.to_owned());
        q.deadline_secs = Some(deadline);
        proof {
            let want = depend_request(agent@, on@, to.deep_view(), note.deep_view(), deadline);
            assert(q.deep_view().body->Obj_0 =~= want.body->Obj_0);
            assert(q.deep_view() == want);
        }
        self.open_request(&q, t)
    }

    /// Ask anything, about a symbol where one is named.
    pub fn ask(&mut self, q: &NewRequest, symbol: &Option<String>, t: Tick) -> (r: Result<
        Request,
        StoreError,
    >)
        requires
            t.ok(),
            q.deadline_secs matches Some(d) ==> sane_ttl(d),
        ensures
            (final(self)@, seen(r)) == old(self)@.ask(q.deep_view(), symbol.deep_view(), t),
    {
        match self.symbol_meant(symbol) {
            Err(e) => Err(e),
            Ok(id) => {
                let mut full = q.clone();
                full.resource_symbol = id;
                self.open_request(&full, t)
            },
        }
    }

    /// Ask the holder of what a reference names to hand it over.
    pub fn ask_for_lease(
        &mut self,
        symbol: &str,
        agent: &str,
        reason: &Option<String>,
        deadline: i64,
        priority: i64,
        task: &Option<String>,
        t: Tick,
    ) -> (r: Result<Request, StoreError>)
        requires
            old(self)@.wf(),
            t.ok(),
            sane_ttl(deadline),
        ensures
            (final(self)@, seen(r)) == old(self)@.ask_for_lease(
                symbol@,
                agent@,
                reason.deep_view(),
                deadline,
                priority,
                task.deep_view(),
                t,
            ),
            final(self)@.wf(),
    {
        match self.resolve(symbol) {
            Err(e) => Err(e),
            Ok(s) => self.request_lease_transfer(
                s.id.as_str(),
                agent,
                reason,
                Some(deadline),
                priority,
                task,
                t,
            ),
        }
    }

    /// Lets everything that is over its time lapse: leases first, then requests.
    pub fn sweep(&mut self, now: i64)
        requires
            old(self)@.wf(),
            sane_time(now),
        ensures
            final(self)@ == old(self)@.expire_due(now).expire_requests(now),
            final(self)@.wf(),
    {
        self.expire_due(now);
        let ghost s = self@;
        proof {
            crate::lease::lemma_resolve_keeps(
                s,
                s.overdue_requests(now),
                RequestState::Expired,
                true,
                JsonV::Obj(seq![("reason"@, JsonV::Str("deadline passed with no answer"@))]),
                now,
            );
        }
        self.expire_requests(now);
    }
}

// ------------------------------------------------------------------- installing

/// Which integrations an installation is about.
#[derive(Debug, Clone, Copy, PartialEq, Eq, Structural)]
pub struct Targets {
    pub git: bool,
    pub editor: bool,
    pub mcp: bool,
}

impl Targets {
    /// What was asked for; where nothing was, the git hook.
    pub fn of(git: bool, editor: bool, mcp: bool) -> (r: Targets)
        ensures
            r == (Targets { git: git || !(editor || mcp), editor, mcp }),
    {
        Targets { git: git || !(editor || mcp), editor, mcp }
    }
}

/// The script of the git hook.
pub open spec fn git_script(exe: Seq<char>) -> Seq<char> {
    "#!/bin/sh\n# installed by `golab hook install`\n# Refuses commits that touch symbols this agent has not leased.\n# Set GOLAB_SKIP=1 to bypass for one commit.\n[ -n \"$GOLAB_SKIP\" ] && exit 0\nexec \""@
        + exe + "\" check\n"@
}

/// The script of the git hook.
pub fn git_hook_script(exe: &str) -> (r: String)
    ensures
        r@ == git_script(exe@),
{
    cat3(
        "#!/bin/sh\n# installed by `golab hook install`\n# Refuses commits that touch symbols this agent has not leased.\n# Set GOLAB_SKIP=1 to bypass for one commit.\n[ -n \"$GOLAB_SKIP\" ] && exit 0\nexec \"",
        exe,
        "\" check\n",
    )
}

/// The arguments with which a client launches the server.
pub fn mcp_args(as_agent: &Option<String>) -> (r: Vec<String>)
    ensures
        r.deep_view() == (match as_agent.deep_view() {
            Some(a) => seq!["mcp"@, "--as"@, a],
            None => seq!["mcp"@],
        }),
{
    let mut out: Vec<String> = no_rows();
    append(&mut out, "mcp".to_owned());
    match as_agent {
        Some(a) => {
            append(&mut out, "--as".to_owned());
            append(&mut out, a.clone());
            assert(out.deep_view() =~= seq!["mcp"@, "--as"@, a@]);
        },
        None => {
            assert(out.deep_view() =~= seq!["mcp"@]);
        },
    }
    out
}

// ------------------------------------------------------------------------ laws

/// A named agent is who acts, whatever else is set.
pub proof fn law_a_named_agent_acts(name: Seq<char>, variable: Option<Seq<char>>, remembered: Option<Seq<char>>)
    ensures
        acting(Some(name), variable, remembered) == Some(name),
{
}

/// Whoever has work goes on with it: nothing new is claimed, and no task changes
/// hands.
pub proof fn law_going_on_keeps_the_work(
    s: StoreV,
    agent: Seq<char>,
    ttl_secs: i64,
    goal: Option<Seq<char>>,
    t: Tick,
)
    requires
        s.current_task(agent) is Some,
    ensures
        s.go_on(agent, ttl_secs, goal, t).0 == s.heartbeat(agent, None, t.now),
        s.go_on(agent, ttl_secs, goal, t).1 matches Ok(ContinuedV::Renewed { task, .. }) && task
            == (s.current_task(agent)->Some_0).task.id,
{
}

/// A lease can be named by its id or by the symbol that it is on: both mean the same
/// lease.
pub proof fn law_a_lease_by_its_id(s: StoreV, id: Seq<char>, agent: Seq<char>)
    requires
        s.lease(id) is Some,
    ensures
        s.lease_meant(id, agent) == Ok::<Seq<char>, StoreErrorV>(id),
{
    crate::store::law_first_where(s.leases, |l: LeaseRowV| l.id == id);
}

} // verus!
