//! A coordination layer that lets several people and agents work on one codebase
//! without stepping on each other.
//!
//! The unit of ownership is a *symbol*: a function, a method, a class, a file, a
//! table, a service. Whoever wants to change one takes a lease on it. Around the
//! leases there are tasks and goals that say what is to be done, requests by which
//! agents negotiate, and a scheduler that hands out work which does not collide.
//!
//! The pieces, bottom up:
//!
//! - [`text`], [`order`], [`json`], [`members`], [`rows`]: texts, sorting, structured
//!   values and lists of rows, each with the mathematical function it computes.
//! - [`ids`], [`model`]: identities, and the types everything else speaks of.
//! - [`lang`], [`parse`], [`imports`], [`sql`]: files become symbols, references,
//!   imports and tables.
//! - [`store`], [`graph`], [`repo`]: the shared state, and finding one's way in it.
//! - [`index`], [`edges`], [`scan`]: keeping the graph in step with the files.
//! - [`lease`], [`protocol`], [`negotiate`], [`request_kind`]: ownership for a time,
//!   and asking for it.
//! - [`work`], [`depends`], [`schedule`], [`goal`], [`review`]: agents, tasks, what
//!   runs when, and what it is for.
//! - [`walk`], [`arch`], [`notice`], [`guard`]: the picture, the news, and whether an
//!   edit may happen.
//! - [`workspace`], [`command`], [`hooks`], [`session`], [`settings`]: what the
//!   commands and the callbacks of an editor do.
//!
//! The state is a value: every operation is a function from a state, its arguments
//! and a moment to the next state and an answer, and its contract says which. The
//! modules that end in `_laws` hold what follows for whole runs of operations, such
//! as that no two agents ever hold the same thing.

pub mod arch;
pub mod arch_laws;
pub mod claim_laws;
pub mod command;
pub mod command_laws;
pub mod depends;
pub mod depends_laws;
pub mod edge_laws;
pub mod edges;
pub mod goal;
pub mod goal_laws;
pub mod graph;
pub mod graph_laws;
pub mod guard;
pub mod guard_laws;
pub mod holding_laws;
pub mod hook_laws;
pub mod hooks;
pub mod ids;
pub mod import_laws;
pub mod imports;
pub mod index;
pub mod index_laws;
pub mod inference_laws;
pub mod json;
pub mod lang;
pub mod lang_laws;
pub mod lease;
pub mod lease_laws;
pub mod lookup_laws;
pub mod map_laws;
pub mod members;
pub mod model;
pub mod module_path_laws;
pub mod negotiate;
pub mod notice;
pub mod notice_laws;
pub mod order;
pub mod parse;
pub mod parse_laws;
pub mod plan_laws;
pub mod progress_laws;
pub mod protocol;
pub mod queue_laws;
pub mod repo;
pub mod request_kind;
pub mod request_laws;
pub mod review;
pub mod rows;
pub mod scan;
pub mod scan_laws;
pub mod schedule;
pub mod schedule_laws;
pub mod scope_laws;
pub mod session;
pub mod settings;
pub mod specifier_laws;
pub mod sql;
pub mod sql_laws;
pub mod store;
pub mod symbol_laws;
pub mod task_laws;
pub mod text;
pub mod waiting_laws;
pub mod walk;
pub mod word_laws;
pub mod wording_laws;
pub mod work;
pub mod workspace;

pub use ids::now_ms;
pub use model::{
    AcquireOutcome, Agent, Capability, ChangeKind, CheckReport, Conflict, ConflictRelation, CoveredChange, Edge,
    EdgeKind, Event, Goal, GoalProgress, GoalState, Lease, LeaseState, MemoryEntry, Message, ProgressUpdate,
    Repo, Request, RequestState, Role, Symbol, SymbolChange, SymbolKind, Task, TaskState, TaskSuggestion,
    Violation,
};
pub use store::Store;
pub use workspace::{db_path, find_workspace, DB_FILE, RUNTIME_DIR};
