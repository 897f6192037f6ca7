//! Core data types shared by the whole library.
//!
//! A type that holds strings has a companion whose name ends in `V`: the same
//! fields as sequences of characters. Contracts speak of the companion, which
//! `deep_view` gives.

use vstd::prelude::*;

use crate::json::{Json, JsonV};
use crate::text::{cat3, decimal_of, same};

verus! {

/// What kind of thing a symbol is. These are the leasable units of work.
#[derive(Debug, Clone, Copy, PartialEq, Eq, Structural)]
pub enum SymbolKind {
    /// A deployable or publishable unit, discovered from a manifest. Parent of its files.
    Service,
    File,
    Module,
    Class,
    Interface,
    Trait,
    Function,
    Method,
    Type,
    Constant,
    Macro,
    /// A database table, from DDL in a `.sql` file.
    Table,
}

impl SymbolKind {
    /// The word for this value.
    pub open spec fn word(self) -> Seq<char> {
        match self {
            SymbolKind::Service => "service"@,
            SymbolKind::File => "file"@,
            SymbolKind::Module => "module"@,
            SymbolKind::Class => "class"@,
            SymbolKind::Interface => "interface"@,
            SymbolKind::Trait => "trait"@,
            SymbolKind::Function => "function"@,
            SymbolKind::Method => "method"@,
            SymbolKind::Type => "type"@,
            SymbolKind::Constant => "constant"@,
            SymbolKind::Macro => "macro"@,
            SymbolKind::Table => "table"@,
        }
    }

    pub fn as_str(self) -> (r: &'static str)
        ensures
            r@ == self.word(),
    {
        match self {
            SymbolKind::Service => "service",
            SymbolKind::File => "file",
            SymbolKind::Module => "module",
            SymbolKind::Class => "class",
            SymbolKind::Interface => "interface",
            SymbolKind::Trait => "trait",
            SymbolKind::Function => "function",
            SymbolKind::Method => "method",
            SymbolKind::Type => "type",
            SymbolKind::Constant => "constant",
            SymbolKind::Macro => "macro",
            SymbolKind::Table => "table",
        }
    }

    /// The value with the word `s`, if there is one.
    pub fn parse(s: &str) -> (r: Option<SymbolKind>)
        ensures
            match r {
                Some(v) => v.word() == s@,
                None => forall|v: SymbolKind| #[trigger] v.word() != s@,
            },
    {
        if same(s, "service") {
            Some(SymbolKind::Service)
        } else if same(s, "file") {
            Some(SymbolKind::File)
        } else if same(s, "module") {
            Some(SymbolKind::Module)
        } else if same(s, "class") {
            Some(SymbolKind::Class)
        } else if same(s, "interface") {
            Some(SymbolKind::Interface)
        } else if same(s, "trait") {
            Some(SymbolKind::Trait)
        } else if same(s, "function") {
            Some(SymbolKind::Function)
        } else if same(s, "method") {
            Some(SymbolKind::Method)
        } else if same(s, "type") {
            Some(SymbolKind::Type)
        } else if same(s, "constant") {
            Some(SymbolKind::Constant)
        } else if same(s, "macro") {
            Some(SymbolKind::Macro)
        } else if same(s, "table") {
            Some(SymbolKind::Table)
        } else {
            None
        }
    }
}

/// No two values of [`SymbolKind`] share a word, so that a value read back from its own
/// word is that value.
pub proof fn law_symbol_kind_words(a: SymbolKind, b: SymbolKind)
    requires
        a.word() == b.word(),
    ensures
        a == b,
{
    reveal_strlit("service");
    reveal_strlit("file");
    reveal_strlit("module");
    reveal_strlit("class");
    reveal_strlit("interface");
    reveal_strlit("trait");
    reveal_strlit("function");
    reveal_strlit("method");
    reveal_strlit("type");
    reveal_strlit("constant");
    reveal_strlit("macro");
    reveal_strlit("table");
    assert("service"@.len() == 7 && "service"@[0] == 's');
    assert("file"@.len() == 4 && "file"@[0] == 'f');
    assert("module"@.len() == 6 && "module"@[0] == 'm');
    assert("class"@.len() == 5 && "class"@[0] == 'c');
    assert("interface"@.len() == 9 && "interface"@[0] == 'i');
    assert("trait"@.len() == 5 && "trait"@[0] == 't');
    assert("function"@.len() == 8 && "function"@[0] == 'f');
    assert("method"@.len() == 6 && "method"@[0] == 'm');
    assert("type"@.len() == 4 && "type"@[0] == 't');
    assert("constant"@.len() == 8 && "constant"@[0] == 'c');
    assert("macro"@.len() == 5 && "macro"@[0] == 'm');
    assert("table"@.len() == 5 && "table"@[0] == 't');
    let x = a.word();
    let y = b.word();
    assert(x.len() == y.len());
    assert(x[0] == y[0]);
    assert(x[1] == y[1]);
}

impl SymbolKind {
    /// Containers that exist to group other nodes rather than to be edited.
    pub fn is_container(self) -> (r: bool)
        ensures
            r == (self is Service || self is File),
    {
        matches!(self, SymbolKind::Service | SymbolKind::File)
    }

    /// Kinds that hold executable bodies.
    pub fn is_callable(self) -> (r: bool)
        ensures
            r == (self is Function || self is Method || self is Macro),
    {
        matches!(self, SymbolKind::Function | SymbolKind::Method | SymbolKind::Macro)
    }
}

/// Directed edge in the repository knowledge graph.
#[derive(Debug, Clone, Copy, PartialEq, Eq, Structural)]
pub enum EdgeKind {
    /// Caller invokes callee.
    Calls,
    /// Structural containment (service -> file -> class -> method).
    Contains,
    /// Type or interface reference.
    Uses,
    /// File imports file; service depends on service.
    Imports,
    /// Code reads or writes a database table.
    Queries,
    /// A test exercises a symbol.
    Tests,
}

impl EdgeKind {
    /// The word for this value.
    pub open spec fn word(self) -> Seq<char> {
        match self {
            EdgeKind::Calls => "calls"@,
            EdgeKind::Contains => "contains"@,
            EdgeKind::Uses => "uses"@,
            EdgeKind::Imports => "imports"@,
            EdgeKind::Queries => "queries"@,
            EdgeKind::Tests => "tests"@,
        }
    }

    pub fn as_str(self) -> (r: &'static str)
        ensures
            r@ == self.word(),
    {
        match self {
            EdgeKind::Calls => "calls",
            EdgeKind::Contains => "contains",
            EdgeKind::Uses => "uses",
            EdgeKind::Imports => "imports",
            EdgeKind::Queries => "queries",
            EdgeKind::Tests => "tests",
        }
    }

    /// The value with the word `s`, if there is one.
    pub fn parse(s: &str) -> (r: Option<EdgeKind>)
        ensures
            match r {
                Some(v) => v.word() == s@,
                None => forall|v: EdgeKind| #[trigger] v.word() != s@,
            },
    {
        if same(s, "calls") {
            Some(EdgeKind::Calls)
        } else if same(s, "contains") {
            Some(EdgeKind::Contains)
        } else if same(s, "uses") {
            Some(EdgeKind::Uses)
        } else if same(s, "imports") {
            Some(EdgeKind::Imports)
        } else if same(s, "queries") {
            Some(EdgeKind::Queries)
        } else if same(s, "tests") {
            Some(EdgeKind::Tests)
        } else {
            None
        }
    }
}

/// No two values of [`EdgeKind`] share a word, so that a value read back from its own
/// word is that value.
pub proof fn law_edge_kind_words(a: EdgeKind, b: EdgeKind)
    requires
        a.word() == b.word(),
    ensures
        a == b,
{
    reveal_strlit("calls");
    reveal_strlit("contains");
    reveal_strlit("uses");
    reveal_strlit("imports");
    reveal_strlit("queries");
    reveal_strlit("tests");
    assert("calls"@.len() == 5 && "calls"@[0] == 'c');
    assert("contains"@.len() == 8 && "contains"@[0] == 'c');
    assert("uses"@.len() == 4 && "uses"@[0] == 'u');
    assert("imports"@.len() == 7 && "imports"@[0] == 'i');
    assert("queries"@.len() == 7 && "queries"@[0] == 'q');
    assert("tests"@.len() == 5 && "tests"@[0] == 't');
    let x = a.word();
    let y = b.word();
    assert(x.len() == y.len());
    assert(x[0] == y[0]);
}

impl EdgeKind {
    /// Edges that describe behaviour rather than structure.
    pub fn is_semantic(self) -> (r: bool)
        ensures
            r == !(self is Contains),
    {
        self != EdgeKind::Contains
    }
}

/// What a symbol is for, layered on top of what it structurally is.
#[derive(Debug, Clone, Copy, PartialEq, Eq, Structural)]
pub enum Role {
    /// An HTTP route handler. `meta` carries method and path.
    Api,
    /// A test, or a file full of them.
    Test,
    /// Schema or migration.
    Schema,
    /// A deployable unit.
    Service,
}

impl Role {
    /// The word for this value.
    pub open spec fn word(self) -> Seq<char> {
        match self {
            Role::Api => "api"@,
            Role::Test => "test"@,
            Role::Schema => "schema"@,
            Role::Service => "service"@,
        }
    }

    pub fn as_str(self) -> (r: &'static str)
        ensures
            r@ == self.word(),
    {
        match self {
            Role::Api => "api",
            Role::Test => "test",
            Role::Schema => "schema",
            Role::Service => "service",
        }
    }

    /// The value with the word `s`, if there is one.
    pub fn parse(s: &str) -> (r: Option<Role>)
        ensures
            match r {
                Some(v) => v.word() == s@,
                None => forall|v: Role| #[trigger] v.word() != s@,
            },
    {
        if same(s, "api") {
            Some(Role::Api)
        } else if same(s, "test") {
            Some(Role::Test)
        } else if same(s, "schema") {
            Some(Role::Schema)
        } else if same(s, "service") {
            Some(Role::Service)
        } else {
            None
        }
    }
}

/// No two values of [`Role`] share a word, so that a value read back from its own
/// word is that value.
pub proof fn law_role_words(a: Role, b: Role)
    requires
        a.word() == b.word(),
    ensures
        a == b,
{
    reveal_strlit("api");
    reveal_strlit("test");
    reveal_strlit("schema");
    reveal_strlit("service");
    assert("api"@.len() == 3 && "api"@[0] == 'a');
    assert("test"@.len() == 4 && "test"@[0] == 't');
    assert("schema"@.len() == 6 && "schema"@[0] == 's');
    assert("service"@.len() == 7 && "service"@[0] == 's');
    let x = a.word();
    let y = b.word();
    assert(x.len() == y.len());
}

/// How a lease stands.
#[derive(Debug, Clone, Copy, PartialEq, Eq, Structural)]
pub enum LeaseState {
    Active,
    Released,
    /// The TTL ran out without a heartbeat.
    Expired,
    /// Taken away by a strictly higher-priority request.
    Preempted,
}

impl LeaseState {
    /// The word for this value.
    pub open spec fn word(self) -> Seq<char> {
        match self {
            LeaseState::Active => "active"@,
            LeaseState::Released => "released"@,
            LeaseState::Expired => "expired"@,
            LeaseState::Preempted => "preempted"@,
        }
    }

    pub fn as_str(self) -> (r: &'static str)
        ensures
            r@ == self.word(),
    {
        match self {
            LeaseState::Active => "active",
            LeaseState::Released => "released",
            LeaseState::Expired => "expired",
            LeaseState::Preempted => "preempted",
        }
    }

    /// The value with the word `s`, if there is one.
    pub fn parse(s: &str) -> (r: Option<LeaseState>)
        ensures
            match r {
                Some(v) => v.word() == s@,
                None => forall|v: LeaseState| #[trigger] v.word() != s@,
            },
    {
        if same(s, "active") {
            Some(LeaseState::Active)
        } else if same(s, "released") {
            Some(LeaseState::Released)
        } else if same(s, "expired") {
            Some(LeaseState::Expired)
        } else if same(s, "preempted") {
            Some(LeaseState::Preempted)
        } else {
            None
        }
    }
}

/// No two values of [`LeaseState`] share a word, so that a value read back from its own
/// word is that value.
pub proof fn law_lease_state_words(a: LeaseState, b: LeaseState)
    requires
        a.word() == b.word(),
    ensures
        a == b,
{
    reveal_strlit("active");
    reveal_strlit("released");
    reveal_strlit("expired");
    reveal_strlit("preempted");
    assert("active"@.len() == 6 && "active"@[0] == 'a');
    assert("released"@.len() == 8 && "released"@[0] == 'r');
    assert("expired"@.len() == 7 && "expired"@[0] == 'e');
    assert("preempted"@.len() == 9 && "preempted"@[0] == 'p');
    let x = a.word();
    let y = b.word();
    assert(x.len() == y.len());
}

/// How a task stands.
#[derive(Debug, Clone, Copy, PartialEq, Eq, Structural)]
pub enum TaskState {
    Pending,
    Running,
    Blocked,
    /// Submitted for approval. Leases are kept: the work is not merged yet.
    Review,
    Done,
    Failed,
}

impl TaskState {
    /// The word for this value.
    pub open spec fn word(self) -> Seq<char> {
        match self {
            TaskState::Pending => "pending"@,
            TaskState::Running => "running"@,
            TaskState::Blocked => "blocked"@,
            TaskState::Review => "review"@,
            TaskState::Done => "done"@,
            TaskState::Failed => "failed"@,
        }
    }

    pub fn as_str(self) -> (r: &'static str)
        ensures
            r@ == self.word(),
    {
        match self {
            TaskState::Pending => "pending",
            TaskState::Running => "running",
            TaskState::Blocked => "blocked",
            TaskState::Review => "review",
            TaskState::Done => "done",
            TaskState::Failed => "failed",
        }
    }

    /// The value with the word `s`, if there is one.
    pub fn parse(s: &str) -> (r: Option<TaskState>)
        ensures
            match r {
                Some(v) => v.word() == s@,
                None => forall|v: TaskState| #[trigger] v.word() != s@,
            },
    {
        if same(s, "pending") {
            Some(TaskState::Pending)
        } else if same(s, "running") {
            Some(TaskState::Running)
        } else if same(s, "blocked") {
            Some(TaskState::Blocked)
        } else if same(s, "review") {
            Some(TaskState::Review)
        } else if same(s, "done") {
            Some(TaskState::Done)
        } else if same(s, "failed") {
            Some(TaskState::Failed)
        } else {
            None
        }
    }
}

/// No two values of [`TaskState`] share a word, so that a value read back from its own
/// word is that value.
pub proof fn law_task_state_words(a: TaskState, b: TaskState)
    requires
        a.word() == b.word(),
    ensures
        a == b,
{
    reveal_strlit("pending");
    reveal_strlit("running");
    reveal_strlit("blocked");
    reveal_strlit("review");
    reveal_strlit("done");
    reveal_strlit("failed");
    assert("pending"@.len() == 7 && "pending"@[0] == 'p');
    assert("running"@.len() == 7 && "running"@[0] == 'r');
    assert("blocked"@.len() == 7 && "blocked"@[0] == 'b');
    assert("review"@.len() == 6 && "review"@[0] == 'r');
    assert("done"@.len() == 4 && "done"@[0] == 'd');
    assert("failed"@.len() == 6 && "failed"@[0] == 'f');
    let x = a.word();
    let y = b.word();
    assert(x.len() == y.len());
    assert(x[0] == y[0]);
}

/// How a goal stands.
#[derive(Debug, Clone, Copy, PartialEq, Eq, Structural)]
pub enum GoalState {
    Open,
    Done,
    Abandoned,
}

impl GoalState {
    /// The word for this value.
    pub open spec fn word(self) -> Seq<char> {
        match self {
            GoalState::Open => "open"@,
            GoalState::Done => "done"@,
            GoalState::Abandoned => "abandoned"@,
        }
    }

    pub fn as_str(self) -> (r: &'static str)
        ensures
            r@ == self.word(),
    {
        match self {
            GoalState::Open => "open",
            GoalState::Done => "done",
            GoalState::Abandoned => "abandoned",
        }
    }

    /// The value with the word `s`, if there is one.
    pub fn parse(s: &str) -> (r: Option<GoalState>)
        ensures
            match r {
                Some(v) => v.word() == s@,
                None => forall|v: GoalState| #[trigger] v.word() != s@,
            },
    {
        if same(s, "open") {
            Some(GoalState::Open)
        } else if same(s, "done") {
            Some(GoalState::Done)
        } else if same(s, "abandoned") {
            Some(GoalState::Abandoned)
        } else {
            None
        }
    }
}

/// No two values of [`GoalState`] share a word, so that a value read back from its own
/// word is that value.
pub proof fn law_goal_state_words(a: GoalState, b: GoalState)
    requires
        a.word() == b.word(),
    ensures
        a == b,
{
    reveal_strlit("open");
    reveal_strlit("done");
    reveal_strlit("abandoned");
    assert("open"@.len() == 4 && "open"@[0] == 'o');
    assert("done"@.len() == 4 && "done"@[0] == 'd');
    assert("abandoned"@.len() == 9 && "abandoned"@[0] == 'a');
    let x = a.word();
    let y = b.word();
    assert(x.len() == y.len());
    assert(x[0] == y[0]);
}

/// A role an agent can specialize in, and a task can require.
#[derive(Debug, Clone, Copy, PartialEq, Eq, Structural)]
pub enum Capability {
    Planner,
    Backend,
    Frontend,
    Database,
    Testing,
    Security,
    Documentation,
    Reviewer,
}

impl Capability {
    /// The word for this value.
    pub open spec fn word(self) -> Seq<char> {
        match self {
            Capability::Planner => "planner"@,
            Capability::Backend => "backend"@,
            Capability::Frontend => "frontend"@,
            Capability::Database => "database"@,
            Capability::Testing => "testing"@,
            Capability::Security => "security"@,
            Capability::Documentation => "documentation"@,
            Capability::Reviewer => "review"@,
        }
    }

    pub fn as_str(self) -> (r: &'static str)
        ensures
            r@ == self.word(),
    {
        match self {
            Capability::Planner => "planner",
            Capability::Backend => "backend",
            Capability::Frontend => "frontend",
            Capability::Database => "database",
            Capability::Testing => "testing",
            Capability::Security => "security",
            Capability::Documentation => "documentation",
            Capability::Reviewer => "review",
        }
    }

    /// The value with the word `s`, if there is one.
    pub fn parse(s: &str) -> (r: Option<Capability>)
        ensures
            match r {
                Some(v) => v.word() == s@,
                None => forall|v: Capability| #[trigger] v.word() != s@,
            },
    {
        if same(s, "planner") {
            Some(Capability::Planner)
        } else if same(s, "backend") {
            Some(Capability::Backend)
        } else if same(s, "frontend") {
            Some(Capability::Frontend)
        } else if same(s, "database") {
            Some(Capability::Database)
        } else if same(s, "testing") {
            Some(Capability::Testing)
        } else if same(s, "security") {
            Some(Capability::Security)
        } else if same(s, "documentation") {
            Some(Capability::Documentation)
        } else if same(s, "review") {
            Some(Capability::Reviewer)
        } else {
            None
        }
    }
}

/// No two values of [`Capability`] share a word, so that a value read back from its own
/// word is that value.
pub proof fn law_capability_words(a: Capability, b: Capability)
    requires
        a.word() == b.word(),
    ensures
        a == b,
{
    reveal_strlit("planner");
    reveal_strlit("backend");
    reveal_strlit("frontend");
    reveal_strlit("database");
    reveal_strlit("testing");
    reveal_strlit("security");
    reveal_strlit("documentation");
    reveal_strlit("review");
    assert("planner"@.len() == 7 && "planner"@[0] == 'p');
    assert("backend"@.len() == 7 && "backend"@[0] == 'b');
    assert("frontend"@.len() == 8 && "frontend"@[0] == 'f');
    assert("database"@.len() == 8 && "database"@[0] == 'd');
    assert("testing"@.len() == 7 && "testing"@[0] == 't');
    assert("security"@.len() == 8 && "security"@[0] == 's');
    assert("documentation"@.len() == 13 && "documentation"@[0] == 'd');
    assert("review"@.len() == 6 && "review"@[0] == 'r');
    let x = a.word();
    let y = b.word();
    assert(x.len() == y.len());
    assert(x[0] == y[0]);
}

/// How a request stands.
#[derive(Debug, Clone, Copy, PartialEq, Eq, Structural)]
pub enum RequestState {
    /// Awaiting an answer.
    Open,
    /// The recipient committed to it but has not delivered yet.
    Accepted,
    /// Answered no.
    Declined,
    /// Delivered. This is what a waiting agent is looking for.
    Fulfilled,
    /// Withdrawn by the requester.
    Cancelled,
    /// The deadline passed with no answer.
    Expired,
}

impl RequestState {
    /// The word for this value.
    pub open spec fn word(self) -> Seq<char> {
        match self {
            RequestState::Open => "open"@,
            RequestState::Accepted => "accepted"@,
            RequestState::Declined => "declined"@,
            RequestState::Fulfilled => "fulfilled"@,
            RequestState::Cancelled => "cancelled"@,
            RequestState::Expired => "expired"@,
        }
    }

    pub fn as_str(self) -> (r: &'static str)
        ensures
            r@ == self.word(),
    {
        match self {
            RequestState::Open => "open",
            RequestState::Accepted => "accepted",
            RequestState::Declined => "declined",
            RequestState::Fulfilled => "fulfilled",
            RequestState::Cancelled => "cancelled",
            RequestState::Expired => "expired",
        }
    }

    /// The value with the word `s`, if there is one.
    pub fn parse(s: &str) -> (r: Option<RequestState>)
        ensures
            match r {
                Some(v) => v.word() == s@,
                None => forall|v: RequestState| #[trigger] v.word() != s@,
            },
    {
        if same(s, "open") {
            Some(RequestState::Open)
        } else if same(s, "accepted") {
            Some(RequestState::Accepted)
        } else if same(s, "declined") {
            Some(RequestState::Declined)
        } else if same(s, "fulfilled") {
            Some(RequestState::Fulfilled)
        } else if same(s, "cancelled") {
            Some(RequestState::Cancelled)
        } else if same(s, "expired") {
            Some(RequestState::Expired)
        } else {
            None
        }
    }
}

/// No two values of [`RequestState`] share a word, so that a value read back from its own
/// word is that value.
pub proof fn law_request_state_words(a: RequestState, b: RequestState)
    requires
        a.word() == b.word(),
    ensures
        a == b,
{
    reveal_strlit("open");
    reveal_strlit("accepted");
    reveal_strlit("declined");
    reveal_strlit("fulfilled");
    reveal_strlit("cancelled");
    reveal_strlit("expired");
    assert("open"@.len() == 4 && "open"@[0] == 'o');
    assert("accepted"@.len() == 8 && "accepted"@[0] == 'a');
    assert("declined"@.len() == 8 && "declined"@[0] == 'd');
    assert("fulfilled"@.len() == 9 && "fulfilled"@[0] == 'f');
    assert("cancelled"@.len() == 9 && "cancelled"@[0] == 'c');
    assert("expired"@.len() == 7 && "expired"@[0] == 'e');
    let x = a.word();
    let y = b.word();
    assert(x.len() == y.len());
    assert(x[0] == y[0]);
}

impl RequestState {
    /// Is an answer still due?
    pub open spec fn live(self) -> bool {
        self is Open || self is Accepted
    }

    /// Still worth polling.
    pub fn is_live(self) -> (r: bool)
        ensures
            r == self.live(),
    {
        matches!(self, RequestState::Open | RequestState::Accepted)
    }
}

/// How the blocking symbol lies to the requested one.
#[derive(Debug, Clone, Copy, PartialEq, Eq, Structural)]
pub enum ConflictRelation {
    /// The same symbol.
    Same,
    /// Someone holds a scope that contains the requested symbol.
    Ancestor,
    /// Someone holds something inside the requested scope.
    Descendant,
    /// Nobody holds it, but another agent is ahead in the wait queue.
    Queued,
}

impl ConflictRelation {
    /// The word for this value.
    pub open spec fn word(self) -> Seq<char> {
        match self {
            ConflictRelation::Same => "same"@,
            ConflictRelation::Ancestor => "ancestor"@,
            ConflictRelation::Descendant => "descendant"@,
            ConflictRelation::Queued => "queued"@,
        }
    }

    pub fn as_str(self) -> (r: &'static str)
        ensures
            r@ == self.word(),
    {
        match self {
            ConflictRelation::Same => "same",
            ConflictRelation::Ancestor => "ancestor",
            ConflictRelation::Descendant => "descendant",
            ConflictRelation::Queued => "queued",
        }
    }
}

/// No two values of [`ConflictRelation`] share a word.
pub proof fn law_conflict_relation_words(a: ConflictRelation, b: ConflictRelation)
    requires
        a.word() == b.word(),
    ensures
        a == b,
{
    reveal_strlit("same");
    reveal_strlit("ancestor");
    reveal_strlit("descendant");
    reveal_strlit("queued");
    assert("same"@.len() == 4 && "same"@[0] == 's');
    assert("ancestor"@.len() == 8 && "ancestor"@[0] == 'a');
    assert("descendant"@.len() == 10 && "descendant"@[0] == 'd');
    assert("queued"@.len() == 6 && "queued"@[0] == 'q');
    let x = a.word();
    let y = b.word();
    assert(x.len() == y.len());
}

/// How a symbol differs between the indexed snapshot and the working tree.
#[derive(Debug, Clone, Copy, PartialEq, Eq, Structural)]
pub enum ChangeKind {
    Added,
    Modified,
    Removed,
}

impl ChangeKind {
    /// The word for this value.
    pub open spec fn word(self) -> Seq<char> {
        match self {
            ChangeKind::Added => "added"@,
            ChangeKind::Modified => "modified"@,
            ChangeKind::Removed => "removed"@,
        }
    }

    pub fn as_str(self) -> (r: &'static str)
        ensures
            r@ == self.word(),
    {
        match self {
            ChangeKind::Added => "added",
            ChangeKind::Modified => "modified",
            ChangeKind::Removed => "removed",
        }
    }
}

/// No two values of [`ChangeKind`] share a word.
pub proof fn law_change_kind_words(a: ChangeKind, b: ChangeKind)
    requires
        a.word() == b.word(),
    ensures
        a == b,
{
    reveal_strlit("added");
    reveal_strlit("modified");
    reveal_strlit("removed");
    assert("added"@.len() == 5 && "added"@[0] == 'a');
    assert("modified"@.len() == 8 && "modified"@[0] == 'm');
    assert("removed"@.len() == 7 && "removed"@[0] == 'r');
    let x = a.word();
    let y = b.word();
    assert(x.len() == y.len());
}

/// A node in the repository symbol graph.
#[derive(Debug)]
pub struct Symbol {
    pub id: String,
    pub path: String,
    pub lang: String,
    pub kind: SymbolKind,
    /// Name as written in source.
    pub name: String,
    /// Name qualified by enclosing scopes.
    pub fqn: String,
    pub parent_id: Option<String>,
    pub start_byte: usize,
    pub end_byte: usize,
    pub start_line: usize,
    pub end_line: usize,
    /// Hash of the symbol's source text, nested symbols included.
    pub body_hash: String,
    /// Hash of the symbol's text without nested symbols.
    pub own_hash: String,
    /// What this symbol is for, if the indexer could tell.
    pub role: Option<Role>,
    /// Role-specific detail.
    pub meta: Json,
    /// Which registered repository this symbol belongs to.
    pub repo_id: String,
}

/// The contents of a [`Symbol`].
pub struct SymbolV {
    pub id: Seq<char>,
    pub path: Seq<char>,
    pub lang: Seq<char>,
    pub kind: SymbolKind,
    pub name: Seq<char>,
    pub fqn: Seq<char>,
    pub parent_id: Option<Seq<char>>,
    pub start_byte: usize,
    pub end_byte: usize,
    pub start_line: usize,
    pub end_line: usize,
    pub body_hash: Seq<char>,
    pub own_hash: Seq<char>,
    pub role: Option<Role>,
    pub meta: JsonV,
    pub repo_id: Seq<char>,
}

impl DeepView for Symbol {
    type V = SymbolV;

    open spec fn deep_view(&self) -> SymbolV {
        SymbolV {
            id: self.id@,
            path: self.path@,
            lang: self.lang@,
            kind: self.kind,
            name: self.name@,
            fqn: self.fqn@,
            parent_id: self.parent_id.deep_view(),
            start_byte: self.start_byte,
            end_byte: self.end_byte,
            start_line: self.start_line,
            end_line: self.end_line,
            body_hash: self.body_hash@,
            own_hash: self.own_hash@,
            role: self.role,
            meta: self.meta.deep_view(),
            repo_id: self.repo_id@,
        }
    }
}

impl Clone for Symbol {
    fn clone(&self) -> (r: Self)
        ensures
            r.deep_view() == self.deep_view(),
    {
        let r = Symbol {
            id: self.id.clone(),
            path: self.path.clone(),
            lang: self.lang.clone(),
            kind: self.kind,
            name: self.name.clone(),
            fqn: self.fqn.clone(),
            parent_id: self.parent_id.clone(),
            start_byte: self.start_byte,
            end_byte: self.end_byte,
            start_line: self.start_line,
            end_line: self.end_line,
            body_hash: self.body_hash.clone(),
            own_hash: self.own_hash.clone(),
            role: self.role,
            meta: self.meta.clone(),
            repo_id: self.repo_id.clone(),
        };
        r
    }
}

impl SymbolV {
    /// The handle that people and agents type: the path of a file, the name of
    /// a service, path and qualified name of anything else.
    pub open spec fn handle(self) -> Seq<char> {
        match self.kind {
            SymbolKind::File => self.path,
            SymbolKind::Service => "service:"@ + self.name,
            _ => self.path + ":"@ + self.fqn,
        }
    }

    /// The handle that the lease, request and progress tables show: only a
    /// file is special there.
    pub open spec fn row_handle(self) -> Seq<char> {
        match self.kind {
            SymbolKind::File => self.path,
            _ => self.path + ":"@ + self.fqn,
        }
    }

    /// Method and path of an HTTP endpoint.
    pub open spec fn route(self) -> Option<Seq<char>> {
        match (self.role, self.meta.text_at("method"@), self.meta.text_at("path"@)) {
            (Some(Role::Api), Some(m), Some(p)) => Some(m + " "@ + p),
            _ => None,
        }
    }
}

impl Symbol {
    /// `src/pay.ts:PaymentService.processPayment`: what one types.
    pub fn handle(&self) -> (r: String)
        ensures
            r@ == self.deep_view().handle(),
    {
        match self.kind {
            SymbolKind::File => self.path.clone(),
            SymbolKind::Service => crate::text::cat("service:", self.name.as_str()),
            _ => cat3(self.path.as_str(), ":", self.fqn.as_str()),
        }
    }

    /// The handle as the lease, request and progress tables show it.
    pub fn row_handle(&self) -> (r: String)
        ensures
            r@ == self.deep_view().row_handle(),
    {
        match self.kind {
            SymbolKind::File => self.path.clone(),
            _ => cat3(self.path.as_str(), ":", self.fqn.as_str()),
        }
    }

    /// `GET /payments/{id}` for an endpoint, otherwise `None`.
    pub fn route(&self) -> (r: Option<String>)
        ensures
            r.deep_view() == self.deep_view().route(),
    {
        match self.role {
            Some(Role::Api) => {},
            _ => {
                return None;
            },
        }
        let method = match self.meta.text("method") {
            Some(m) => m,
            None => {
                return None;
            },
        };
        let path = match self.meta.text("path") {
            Some(p) => p,
            None => {
                return None;
            },
        };
        Some(cat3(method.as_str(), " ", path.as_str()))
    }

    /// Path and line, counted from one.
    pub fn location(&self) -> (r: String)
        requires
            self.start_line < usize::MAX,
        ensures
            r@ == self.path@ + ":"@ + crate::text::decimal((self.start_line + 1) as nat),
    {
        cat3(self.path.as_str(), ":", decimal_of((self.start_line + 1) as u64).as_str())
    }
}

/// An edge between two symbols.
#[derive(Debug)]
pub struct Edge {
    pub src: String,
    pub dst: String,
    pub kind: EdgeKind,
}

/// The contents of a [`Edge`].
pub struct EdgeV {
    pub src: Seq<char>,
    pub dst: Seq<char>,
    pub kind: EdgeKind,
}

impl DeepView for Edge {
    type V = EdgeV;

    open spec fn deep_view(&self) -> EdgeV {
        EdgeV {
            src: self.src@,
            dst: self.dst@,
            kind: self.kind,
        }
    }
}

impl Clone for Edge {
    fn clone(&self) -> (r: Self)
        ensures
            r.deep_view() == self.deep_view(),
    {
        let r = Edge {
            src: self.src.clone(),
            dst: self.dst.clone(),
            kind: self.kind,
        };
        r
    }
}

/// A time-bounded claim on a symbol. Unlike a lock, it always expires.
#[derive(Debug)]
pub struct Lease {
    pub id: String,
    pub symbol_id: String,
    pub symbol_handle: String,
    pub agent: String,
    pub task: Option<String>,
    pub priority: i64,
    pub ttl_secs: i64,
    pub acquired_at: i64,
    pub heartbeat_at: i64,
    pub expires_at: i64,
    pub state: LeaseState,
    pub note: Option<String>,
}

/// The contents of a [`Lease`].
pub struct LeaseV {
    pub id: Seq<char>,
    pub symbol_id: Seq<char>,
    pub symbol_handle: Seq<char>,
    pub agent: Seq<char>,
    pub task: Option<Seq<char>>,
    pub priority: i64,
    pub ttl_secs: i64,
    pub acquired_at: i64,
    pub heartbeat_at: i64,
    pub expires_at: i64,
    pub state: LeaseState,
    pub note: Option<Seq<char>>,
}

impl DeepView for Lease {
    type V = LeaseV;

    open spec fn deep_view(&self) -> LeaseV {
        LeaseV {
            id: self.id@,
            symbol_id: self.symbol_id@,
            symbol_handle: self.symbol_handle@,
            agent: self.agent@,
            task: self.task.deep_view(),
            priority: self.priority,
            ttl_secs: self.ttl_secs,
            acquired_at: self.acquired_at,
            heartbeat_at: self.heartbeat_at,
            expires_at: self.expires_at,
            state: self.state,
            note: self.note.deep_view(),
        }
    }
}

impl Clone for Lease {
    fn clone(&self) -> (r: Self)
        ensures
            r.deep_view() == self.deep_view(),
    {
        let r = Lease {
            id: self.id.clone(),
            symbol_id: self.symbol_id.clone(),
            symbol_handle: self.symbol_handle.clone(),
            agent: self.agent.clone(),
            task: self.task.clone(),
            priority: self.priority,
            ttl_secs: self.ttl_secs,
            acquired_at: self.acquired_at,
            heartbeat_at: self.heartbeat_at,
            expires_at: self.expires_at,
            state: self.state,
            note: self.note.clone(),
        };
        r
    }
}

/// Whole seconds from `now` to `then`, rounded down.
pub open spec fn seconds_between(now: int, then: int) -> int {
    (then - now) / 1000
}

/// `(then - now)` in whole seconds, rounded down.
pub(crate) fn seconds_until(now: i64, then: i64) -> (r: i64)
    requires
        i64::MIN <= then - now <= i64::MAX,
    ensures
        r == seconds_between(now as int, then as int),
{
    match (then - now).checked_div_euclid(1000) {
        Some(s) => s,
        None => 0,
    }
}

impl Lease {
    /// Seconds until the lease expires, rounded down; negative once it has.
    pub fn seconds_left(&self, now_ms: i64) -> (r: i64)
        requires
            i64::MIN <= self.expires_at - now_ms <= i64::MAX,
        ensures
            r == seconds_between(now_ms as int, self.expires_at as int),
    {
        seconds_until(now_ms, self.expires_at)
    }
}

/// A participant: a person, a coding tool or a job.
#[derive(Debug)]
pub struct Agent {
    pub name: String,
    /// Free-form.
    pub kind: String,
    pub joined_at: i64,
    pub heartbeat_at: i64,
    pub status: String,
    /// Holds what it has, but the scheduler gives it nothing new.
    pub paused: bool,
    /// `None` is a generalist.
    pub capability: Option<Capability>,
}

/// The contents of a [`Agent`].
pub struct AgentV {
    pub name: Seq<char>,
    pub kind: Seq<char>,
    pub joined_at: i64,
    pub heartbeat_at: i64,
    pub status: Seq<char>,
    pub paused: bool,
    pub capability: Option<Capability>,
}

impl DeepView for Agent {
    type V = AgentV;

    open spec fn deep_view(&self) -> AgentV {
        AgentV {
            name: self.name@,
            kind: self.kind@,
            joined_at: self.joined_at,
            heartbeat_at: self.heartbeat_at,
            status: self.status@,
            paused: self.paused,
            capability: self.capability,
        }
    }
}

impl Clone for Agent {
    fn clone(&self) -> (r: Self)
        ensures
            r.deep_view() == self.deep_view(),
    {
        let r = Agent {
            name: self.name.clone(),
            kind: self.kind.clone(),
            joined_at: self.joined_at,
            heartbeat_at: self.heartbeat_at,
            status: self.status.clone(),
            paused: self.paused,
            capability: self.capability,
        };
        r
    }
}

/// A node in the task graph.
#[derive(Debug)]
pub struct Task {
    pub id: String,
    pub title: String,
    pub state: TaskState,
    pub priority: i64,
    pub assignee: Option<String>,
    pub deps: Vec<String>,
    pub created_at: i64,
    pub updated_at: i64,
    /// `None` means that anyone can take it.
    pub required_capability: Option<Capability>,
}

/// The contents of a [`Task`].
pub struct TaskV {
    pub id: Seq<char>,
    pub title: Seq<char>,
    pub state: TaskState,
    pub priority: i64,
    pub assignee: Option<Seq<char>>,
    pub deps: Seq<Seq<char>>,
    pub created_at: i64,
    pub updated_at: i64,
    pub required_capability: Option<Capability>,
}

impl DeepView for Task {
    type V = TaskV;

    open spec fn deep_view(&self) -> TaskV {
        TaskV {
            id: self.id@,
            title: self.title@,
            state: self.state,
            priority: self.priority,
            assignee: self.assignee.deep_view(),
            deps: self.deps.deep_view(),
            created_at: self.created_at,
            updated_at: self.updated_at,
            required_capability: self.required_capability,
        }
    }
}

impl Clone for Task {
    fn clone(&self) -> (r: Self)
        ensures
            r.deep_view() == self.deep_view(),
    {
        let r = Task {
            id: self.id.clone(),
            title: self.title.clone(),
            state: self.state,
            priority: self.priority,
            assignee: self.assignee.clone(),
            deps: self.deps.clone(),
            created_at: self.created_at,
            updated_at: self.updated_at,
            required_capability: self.required_capability,
        };
        assert(r.deps.deep_view() =~= self.deps.deep_view());
        r
    }
}

/// What a person actually asks for. Tasks serve it.
#[derive(Debug)]
pub struct Goal {
    pub id: String,
    pub title: String,
    pub description: Option<String>,
    pub state: GoalState,
    pub priority: i64,
    pub created_at: i64,
    pub updated_at: i64,
    pub created_by: Option<String>,
}

/// The contents of a [`Goal`].
pub struct GoalV {
    pub id: Seq<char>,
    pub title: Seq<char>,
    pub description: Option<Seq<char>>,
    pub state: GoalState,
    pub priority: i64,
    pub created_at: i64,
    pub updated_at: i64,
    pub created_by: Option<Seq<char>>,
}

impl DeepView for Goal {
    type V = GoalV;

    open spec fn deep_view(&self) -> GoalV {
        GoalV {
            id: self.id@,
            title: self.title@,
            description: self.description.deep_view(),
            state: self.state,
            priority: self.priority,
            created_at: self.created_at,
            updated_at: self.updated_at,
            created_by: self.created_by.deep_view(),
        }
    }
}

impl Clone for Goal {
    fn clone(&self) -> (r: Self)
        ensures
            r.deep_view() == self.deep_view(),
    {
        let r = Goal {
            id: self.id.clone(),
            title: self.title.clone(),
            description: self.description.clone(),
            state: self.state,
            priority: self.priority,
            created_at: self.created_at,
            updated_at: self.updated_at,
            created_by: self.created_by.clone(),
        };
        r
    }
}

/// How a goal's tasks are doing. The share that is done is `done` of `total`.
#[derive(Debug)]
pub struct GoalProgress {
    pub total: i64,
    pub done: i64,
    pub running: i64,
    pub in_review: i64,
    pub pending: i64,
    pub contributing_agents: Vec<String>,
}

/// The contents of a [`GoalProgress`].
pub struct GoalProgressV {
    pub total: i64,
    pub done: i64,
    pub running: i64,
    pub in_review: i64,
    pub pending: i64,
    pub contributing_agents: Seq<Seq<char>>,
}

impl DeepView for GoalProgress {
    type V = GoalProgressV;

    open spec fn deep_view(&self) -> GoalProgressV {
        GoalProgressV {
            total: self.total,
            done: self.done,
            running: self.running,
            in_review: self.in_review,
            pending: self.pending,
            contributing_agents: self.contributing_agents.deep_view(),
        }
    }
}

impl Clone for GoalProgress {
    fn clone(&self) -> (r: Self)
        ensures
            r.deep_view() == self.deep_view(),
    {
        let r = GoalProgress {
            total: self.total,
            done: self.done,
            running: self.running,
            in_review: self.in_review,
            pending: self.pending,
            contributing_agents: self.contributing_agents.clone(),
        };
        assert(r.contributing_agents.deep_view() =~= self.contributing_agents.deep_view());
        r
    }
}

/// A proposed cluster of symbols and a name for the task that would cover them.
#[derive(Debug)]
pub struct TaskSuggestion {
    pub title: String,
    pub symbols: Vec<String>,
}

/// The contents of a [`TaskSuggestion`].
pub struct TaskSuggestionV {
    pub title: Seq<char>,
    pub symbols: Seq<Seq<char>>,
}

impl DeepView for TaskSuggestion {
    type V = TaskSuggestionV;

    open spec fn deep_view(&self) -> TaskSuggestionV {
        TaskSuggestionV {
            title: self.title@,
            symbols: self.symbols.deep_view(),
        }
    }
}

impl Clone for TaskSuggestion {
    fn clone(&self) -> (r: Self)
        ensures
            r.deep_view() == self.deep_view(),
    {
        let r = TaskSuggestion {
            title: self.title.clone(),
            symbols: self.symbols.clone(),
        };
        assert(r.symbols.deep_view() =~= self.symbols.deep_view());
        r
    }
}

/// A repository registered under this workspace.
#[derive(Debug)]
pub struct Repo {
    pub id: String,
    pub name: String,
    /// Relative to the workspace root.
    pub root_path: String,
    pub added_at: i64,
}

/// The contents of a [`Repo`].
pub struct RepoV {
    pub id: Seq<char>,
    pub name: Seq<char>,
    pub root_path: Seq<char>,
    pub added_at: i64,
}

impl DeepView for Repo {
    type V = RepoV;

    open spec fn deep_view(&self) -> RepoV {
        RepoV {
            id: self.id@,
            name: self.name@,
            root_path: self.root_path@,
            added_at: self.added_at,
        }
    }
}

impl Clone for Repo {
    fn clone(&self) -> (r: Self)
        ensures
            r.deep_view() == self.deep_view(),
    {
        let r = Repo {
            id: self.id.clone(),
            name: self.name.clone(),
            root_path: self.root_path.clone(),
            added_at: self.added_at,
        };
        r
    }
}

/// One entry of the event log.
#[derive(Debug)]
pub struct Event {
    pub id: i64,
    pub ts: i64,
    pub kind: String,
    pub agent: Option<String>,
    pub symbol_handle: Option<String>,
    pub task: Option<String>,
    pub detail: Json,
}

/// The contents of a [`Event`].
pub struct EventV {
    pub id: i64,
    pub ts: i64,
    pub kind: Seq<char>,
    pub agent: Option<Seq<char>>,
    pub symbol_handle: Option<Seq<char>>,
    pub task: Option<Seq<char>>,
    pub detail: JsonV,
}

impl DeepView for Event {
    type V = EventV;

    open spec fn deep_view(&self) -> EventV {
        EventV {
            id: self.id,
            ts: self.ts,
            kind: self.kind@,
            agent: self.agent.deep_view(),
            symbol_handle: self.symbol_handle.deep_view(),
            task: self.task.deep_view(),
            detail: self.detail.deep_view(),
        }
    }
}

impl Clone for Event {
    fn clone(&self) -> (r: Self)
        ensures
            r.deep_view() == self.deep_view(),
    {
        let r = Event {
            id: self.id,
            ts: self.ts,
            kind: self.kind.clone(),
            agent: self.agent.clone(),
            symbol_handle: self.symbol_handle.clone(),
            task: self.task.clone(),
            detail: self.detail.clone(),
        };
        r
    }
}

/// Shared memory entry: architecture decisions, conventions, interfaces.
#[derive(Debug)]
pub struct MemoryEntry {
    pub key: String,
    pub value: String,
    pub author: Option<String>,
    pub tags: Vec<String>,
    pub updated_at: i64,
}

/// The contents of a [`MemoryEntry`].
pub struct MemoryEntryV {
    pub key: Seq<char>,
    pub value: Seq<char>,
    pub author: Option<Seq<char>>,
    pub tags: Seq<Seq<char>>,
    pub updated_at: i64,
}

impl DeepView for MemoryEntry {
    type V = MemoryEntryV;

    open spec fn deep_view(&self) -> MemoryEntryV {
        MemoryEntryV {
            key: self.key@,
            value: self.value@,
            author: self.author.deep_view(),
            tags: self.tags.deep_view(),
            updated_at: self.updated_at,
        }
    }
}

impl Clone for MemoryEntry {
    fn clone(&self) -> (r: Self)
        ensures
            r.deep_view() == self.deep_view(),
    {
        let r = MemoryEntry {
            key: self.key.clone(),
            value: self.value.clone(),
            author: self.author.clone(),
            tags: self.tags.clone(),
            updated_at: self.updated_at,
        };
        assert(r.tags.deep_view() =~= self.tags.deep_view());
        r
    }
}

/// Structured agent-to-agent message.
#[derive(Debug)]
pub struct Message {
    pub id: i64,
    pub from: String,
    pub to: String,
    pub subject: String,
    pub body: Json,
    pub sent_at: i64,
    pub read_at: Option<i64>,
    pub reply_to: Option<i64>,
}

/// The contents of a [`Message`].
pub struct MessageV {
    pub id: i64,
    pub from: Seq<char>,
    pub to: Seq<char>,
    pub subject: Seq<char>,
    pub body: JsonV,
    pub sent_at: i64,
    pub read_at: Option<i64>,
    pub reply_to: Option<i64>,
}

impl DeepView for Message {
    type V = MessageV;

    open spec fn deep_view(&self) -> MessageV {
        MessageV {
            id: self.id,
            from: self.from@,
            to: self.to@,
            subject: self.subject@,
            body: self.body.deep_view(),
            sent_at: self.sent_at,
            read_at: self.read_at,
            reply_to: self.reply_to,
        }
    }
}

impl Clone for Message {
    fn clone(&self) -> (r: Self)
        ensures
            r.deep_view() == self.deep_view(),
    {
        let r = Message {
            id: self.id,
            from: self.from.clone(),
            to: self.to.clone(),
            subject: self.subject.clone(),
            body: self.body.clone(),
            sent_at: self.sent_at,
            read_at: self.read_at,
            reply_to: self.reply_to,
        };
        r
    }
}

/// A structured ask from one agent to another: the unit of negotiation.
#[derive(Debug)]
pub struct Request {
    pub id: String,
    pub kind: String,
    pub from: String,
    /// `None` is a broadcast: whoever can answer, may.
    pub to: Option<String>,
    pub subject: String,
    pub body: Json,
    /// The symbol being negotiated over.
    pub resource_symbol: Option<String>,
    pub resource_handle: Option<String>,
    /// The task being waited on.
    pub resource_task: Option<String>,
    /// The requester's own task.
    pub task: Option<String>,
    pub priority: i64,
    pub state: RequestState,
    pub created_at: i64,
    pub deadline_at: Option<i64>,
    pub resolved_at: Option<i64>,
    pub resolver: Option<String>,
    pub response: Option<Json>,
}

/// The contents of a [`Request`].
pub struct RequestV {
    pub id: Seq<char>,
    pub kind: Seq<char>,
    pub from: Seq<char>,
    pub to: Option<Seq<char>>,
    pub subject: Seq<char>,
    pub body: JsonV,
    pub resource_symbol: Option<Seq<char>>,
    pub resource_handle: Option<Seq<char>>,
    pub resource_task: Option<Seq<char>>,
    pub task: Option<Seq<char>>,
    pub priority: i64,
    pub state: RequestState,
    pub created_at: i64,
    pub deadline_at: Option<i64>,
    pub resolved_at: Option<i64>,
    pub resolver: Option<Seq<char>>,
    pub response: Option<JsonV>,
}

impl DeepView for Request {
    type V = RequestV;

    open spec fn deep_view(&self) -> RequestV {
        RequestV {
            id: self.id@,
            kind: self.kind@,
            from: self.from@,
            to: self.to.deep_view(),
            subject: self.subject@,
            body: self.body.deep_view(),
            resource_symbol: self.resource_symbol.deep_view(),
            resource_handle: self.resource_handle.deep_view(),
            resource_task: self.resource_task.deep_view(),
            task: self.task.deep_view(),
            priority: self.priority,
            state: self.state,
            created_at: self.created_at,
            deadline_at: self.deadline_at,
            resolved_at: self.resolved_at,
            resolver: self.resolver.deep_view(),
            response: self.response.deep_view(),
        }
    }
}

impl Clone for Request {
    fn clone(&self) -> (r: Self)
        ensures
            r.deep_view() == self.deep_view(),
    {
        let r = Request {
            id: self.id.clone(),
            kind: self.kind.clone(),
            from: self.from.clone(),
            to: self.to.clone(),
            subject: self.subject.clone(),
            body: self.body.clone(),
            resource_symbol: self.resource_symbol.clone(),
            resource_handle: self.resource_handle.clone(),
            resource_task: self.resource_task.clone(),
            task: self.task.clone(),
            priority: self.priority,
            state: self.state,
            created_at: self.created_at,
            deadline_at: self.deadline_at,
            resolved_at: self.resolved_at,
            resolver: self.resolver.clone(),
            response: self.response.clone(),
        };
        r
    }
}

impl RequestV {
    /// What the request is about, as well as it can be said.
    pub open spec fn resource_label(self) -> Seq<char> {
        match (self.resource_handle, self.resource_symbol) {
            (Some(h), _) => h,
            (None, Some(s)) => s,
            (None, None) => "the resource"@,
        }
    }
}

impl Request {
    /// Seconds until the deadline, rounded down, if there is one.
    pub fn seconds_until_deadline(&self, now_ms: i64) -> (r: Option<i64>)
        requires
            self.deadline_at matches Some(d) ==> i64::MIN <= d - now_ms <= i64::MAX,
        ensures
            match self.deadline_at {
                Some(d) => r matches Some(s) && s == seconds_between(now_ms as int, d as int),
                None => r is None,
            },
    {
        match self.deadline_at {
            Some(d) => Some(seconds_until(now_ms, d)),
            None => None,
        }
    }

    /// What the request is about, as well as it can be said.
    pub fn resource_label(&self) -> (r: String)
        ensures
            r@ == self.deep_view().resource_label(),
    {
        match (&self.resource_handle, &self.resource_symbol) {
            (Some(h), _) => h.clone(),
            (None, Some(s)) => s.clone(),
            (None, None) => "the resource".to_owned(),
        }
    }
}

/// Where an agent is, so that nobody has to ask.
#[derive(Debug)]
pub struct ProgressUpdate {
    pub id: i64,
    pub agent: String,
    pub task: Option<String>,
    pub symbol_id: Option<String>,
    pub symbol_handle: Option<String>,
    pub percent: Option<i64>,
    pub eta_secs: Option<i64>,
    pub note: Option<String>,
    pub ts: i64,
}

/// The contents of a [`ProgressUpdate`].
pub struct ProgressUpdateV {
    pub id: i64,
    pub agent: Seq<char>,
    pub task: Option<Seq<char>>,
    pub symbol_id: Option<Seq<char>>,
    pub symbol_handle: Option<Seq<char>>,
    pub percent: Option<i64>,
    pub eta_secs: Option<i64>,
    pub note: Option<Seq<char>>,
    pub ts: i64,
}

impl DeepView for ProgressUpdate {
    type V = ProgressUpdateV;

    open spec fn deep_view(&self) -> ProgressUpdateV {
        ProgressUpdateV {
            id: self.id,
            agent: self.agent@,
            task: self.task.deep_view(),
            symbol_id: self.symbol_id.deep_view(),
            symbol_handle: self.symbol_handle.deep_view(),
            percent: self.percent,
            eta_secs: self.eta_secs,
            note: self.note.deep_view(),
            ts: self.ts,
        }
    }
}

impl Clone for ProgressUpdate {
    fn clone(&self) -> (r: Self)
        ensures
            r.deep_view() == self.deep_view(),
    {
        let r = ProgressUpdate {
            id: self.id,
            agent: self.agent.clone(),
            task: self.task.clone(),
            symbol_id: self.symbol_id.clone(),
            symbol_handle: self.symbol_handle.clone(),
            percent: self.percent,
            eta_secs: self.eta_secs,
            note: self.note.clone(),
            ts: self.ts,
        };
        r
    }
}

/// Why an acquire request could not be granted.
#[derive(Debug)]
pub struct Conflict {
    /// The symbol whose lease blocks, maybe an ancestor or a descendant.
    pub blocking_symbol: String,
    pub relation: ConflictRelation,
    pub holder: String,
    pub task: Option<String>,
    pub priority: i64,
    pub expires_at: i64,
    pub seconds_until_free: i64,
    pub lease_id: String,
}

/// The contents of a [`Conflict`].
pub struct ConflictV {
    pub blocking_symbol: Seq<char>,
    pub relation: ConflictRelation,
    pub holder: Seq<char>,
    pub task: Option<Seq<char>>,
    pub priority: i64,
    pub expires_at: i64,
    pub seconds_until_free: i64,
    pub lease_id: Seq<char>,
}

impl DeepView for Conflict {
    type V = ConflictV;

    open spec fn deep_view(&self) -> ConflictV {
        ConflictV {
            blocking_symbol: self.blocking_symbol@,
            relation: self.relation,
            holder: self.holder@,
            task: self.task.deep_view(),
            priority: self.priority,
            expires_at: self.expires_at,
            seconds_until_free: self.seconds_until_free,
            lease_id: self.lease_id@,
        }
    }
}

impl Clone for Conflict {
    fn clone(&self) -> (r: Self)
        ensures
            r.deep_view() == self.deep_view(),
    {
        let r = Conflict {
            blocking_symbol: self.blocking_symbol.clone(),
            relation: self.relation,
            holder: self.holder.clone(),
            task: self.task.clone(),
            priority: self.priority,
            expires_at: self.expires_at,
            seconds_until_free: self.seconds_until_free,
            lease_id: self.lease_id.clone(),
        };
        r
    }
}

/// What came of asking for a lease.
#[derive(Debug)]
pub enum AcquireOutcome {
    /// Fresh lease.
    Granted { lease: Lease },
    /// The caller already held it; its TTL is extended instead.
    Extended { lease: Lease },
    /// Blocked. `conflicts` is not empty and tells what to wait for.
    Denied { conflicts: Vec<Conflict> },
}

/// The contents of an [`AcquireOutcome`].
pub enum AcquireOutcomeV {
    Granted { lease: LeaseV },
    Extended { lease: LeaseV },
    Denied { conflicts: Seq<ConflictV> },
}

impl DeepView for AcquireOutcome {
    type V = AcquireOutcomeV;

    open spec fn deep_view(&self) -> AcquireOutcomeV {
        match self {
            AcquireOutcome::Granted { lease } => AcquireOutcomeV::Granted { lease: lease.deep_view() },
            AcquireOutcome::Extended { lease } => AcquireOutcomeV::Extended { lease: lease.deep_view() },
            AcquireOutcome::Denied { conflicts } => AcquireOutcomeV::Denied {
                conflicts: conflicts.deep_view(),
            },
        }
    }
}

impl AcquireOutcome {
    /// The lease, unless the request was denied.
    pub fn lease(&self) -> (r: Option<&Lease>)
        ensures
            match self {
                AcquireOutcome::Granted { lease } => r == Some(lease),
                AcquireOutcome::Extended { lease } => r == Some(lease),
                AcquireOutcome::Denied { .. } => r is None,
            },
    {
        match self {
            AcquireOutcome::Granted { lease } => Some(lease),
            AcquireOutcome::Extended { lease } => Some(lease),
            AcquireOutcome::Denied { .. } => None,
        }
    }

    pub fn is_granted(&self) -> (r: bool)
        ensures
            r == !(self is Denied),
    {
        self.lease().is_some()
    }
}

/// One difference between the index and the working tree.
#[derive(Debug)]
pub struct SymbolChange {
    pub handle: String,
    pub path: String,
    pub fqn: String,
    pub kind: SymbolKind,
    pub change: ChangeKind,
    /// The symbol id, when it exists in the index.
    pub symbol_id: Option<String>,
    /// Nearest indexed ancestor.
    pub covering_id: Option<String>,
}

/// The contents of a [`SymbolChange`].
pub struct SymbolChangeV {
    pub handle: Seq<char>,
    pub path: Seq<char>,
    pub fqn: Seq<char>,
    pub kind: SymbolKind,
    pub change: ChangeKind,
    pub symbol_id: Option<Seq<char>>,
    pub covering_id: Option<Seq<char>>,
}

impl DeepView for SymbolChange {
    type V = SymbolChangeV;

    open spec fn deep_view(&self) -> SymbolChangeV {
        SymbolChangeV {
            handle: self.handle@,
            path: self.path@,
            fqn: self.fqn@,
            kind: self.kind,
            change: self.change,
            symbol_id: self.symbol_id.deep_view(),
            covering_id: self.covering_id.deep_view(),
        }
    }
}

impl Clone for SymbolChange {
    fn clone(&self) -> (r: Self)
        ensures
            r.deep_view() == self.deep_view(),
    {
        let r = SymbolChange {
            handle: self.handle.clone(),
            path: self.path.clone(),
            fqn: self.fqn.clone(),
            kind: self.kind,
            change: self.change,
            symbol_id: self.symbol_id.clone(),
            covering_id: self.covering_id.clone(),
        };
        r
    }
}

/// A change that no lease of the agent covers.
#[derive(Debug)]
pub struct Violation {
    pub change: SymbolChange,
    /// `None` when nobody holds it.
    pub held_by: Option<Conflict>,
}

/// The contents of a [`Violation`].
pub struct ViolationV {
    pub change: SymbolChangeV,
    pub held_by: Option<ConflictV>,
}

impl DeepView for Violation {
    type V = ViolationV;

    open spec fn deep_view(&self) -> ViolationV {
        ViolationV {
            change: self.change.deep_view(),
            held_by: self.held_by.deep_view(),
        }
    }
}

impl Clone for Violation {
    fn clone(&self) -> (r: Self)
        ensures
            r.deep_view() == self.deep_view(),
    {
        let r = Violation {
            change: self.change.clone(),
            held_by: self.held_by.clone(),
        };
        r
    }
}

/// A change that a lease of the agent covers.
#[derive(Debug)]
pub struct CoveredChange {
    pub change: SymbolChange,
    /// `None` for changes nothing could own yet.
    pub lease_id: Option<String>,
    /// Which symbol the satisfying lease is on.
    pub via: String,
}

/// The contents of a [`CoveredChange`].
pub struct CoveredChangeV {
    pub change: SymbolChangeV,
    pub lease_id: Option<Seq<char>>,
    pub via: Seq<char>,
}

impl DeepView for CoveredChange {
    type V = CoveredChangeV;

    open spec fn deep_view(&self) -> CoveredChangeV {
        CoveredChangeV {
            change: self.change.deep_view(),
            lease_id: self.lease_id.deep_view(),
            via: self.via@,
        }
    }
}

impl Clone for CoveredChange {
    fn clone(&self) -> (r: Self)
        ensures
            r.deep_view() == self.deep_view(),
    {
        let r = CoveredChange {
            change: self.change.clone(),
            lease_id: self.lease_id.clone(),
            via: self.via.clone(),
        };
        r
    }
}

/// Result of enforcing that one only edits what one leases.
#[derive(Debug)]
pub struct CheckReport {
    pub agent: String,
    pub changes: Vec<SymbolChange>,
    pub violations: Vec<Violation>,
    pub covered: Vec<CoveredChange>,
    pub unparsed: Vec<String>,
}

/// The contents of a [`CheckReport`].
pub struct CheckReportV {
    pub agent: Seq<char>,
    pub changes: Seq<SymbolChangeV>,
    pub violations: Seq<ViolationV>,
    pub covered: Seq<CoveredChangeV>,
    pub unparsed: Seq<Seq<char>>,
}

impl DeepView for CheckReport {
    type V = CheckReportV;

    open spec fn deep_view(&self) -> CheckReportV {
        CheckReportV {
            agent: self.agent@,
            changes: self.changes.deep_view(),
            violations: self.violations.deep_view(),
            covered: self.covered.deep_view(),
            unparsed: self.unparsed.deep_view(),
        }
    }
}

impl Clone for CheckReport {
    fn clone(&self) -> (r: Self)
        ensures
            r.deep_view() == self.deep_view(),
    {
        let r = CheckReport {
            agent: self.agent.clone(),
            changes: self.changes.clone(),
            violations: self.violations.clone(),
            covered: self.covered.clone(),
            unparsed: self.unparsed.clone(),
        };
        assert(r.changes.deep_view() =~= self.changes.deep_view());
        assert(r.violations.deep_view() =~= self.violations.deep_view());
        assert(r.covered.deep_view() =~= self.covered.deep_view());
        assert(r.unparsed.deep_view() =~= self.unparsed.deep_view());
        r
    }
}

impl CheckReport {
    pub fn ok(&self) -> (r: bool)
        ensures
            r == (self.violations@.len() == 0),
    {
        self.violations.len() == 0
    }
}

} // verus!
