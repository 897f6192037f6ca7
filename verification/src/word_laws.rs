//! The words by which kinds and states are known outside.

use vstd::prelude::*;
use vstd::string::*;

use crate::arch::ArchKind;
use crate::guard::GuardVerdict;
use crate::model::{
    Capability, ChangeKind, ConflictRelation, EdgeKind, GoalState, LeaseState, RequestState, Role, SymbolKind, TaskState,
};
use crate::notice::Severity;

verus! {

broadcast use vstd::string::group_string_axioms;

/// The words for kinds of symbols.
pub proof fn law_words_for_symbol_kinds(x: SymbolKind, w: Seq<char>)
    requires
        x.word() == w,
    ensures
        x is Service ==> w == "service"@,
        x is File ==> w == "file"@,
        x is Module ==> w == "module"@,
        x is Class ==> w == "class"@,
        x is Interface ==> w == "interface"@,
        x is Trait ==> w == "trait"@,
        x is Function ==> w == "function"@,
        x is Method ==> w == "method"@,
        x is Type ==> w == "type"@,
        x is Constant ==> w == "constant"@,
        x is Macro ==> w == "macro"@,
        x is Table ==> w == "table"@,
{
}

/// The words for kinds of edges.
pub proof fn law_words_for_edge_kinds(x: EdgeKind, w: Seq<char>)
    requires
        x.word() == w,
    ensures
        x is Calls ==> w == "calls"@,
        x is Contains ==> w == "contains"@,
        x is Uses ==> w == "uses"@,
        x is Imports ==> w == "imports"@,
        x is Queries ==> w == "queries"@,
        x is Tests ==> w == "tests"@,
{
}

/// The words for roles of symbols.
pub proof fn law_words_for_roles(x: Role, w: Seq<char>)
    requires
        x.word() == w,
    ensures
        x is Api ==> w == "api"@,
        x is Test ==> w == "test"@,
        x is Schema ==> w == "schema"@,
        x is Service ==> w == "service"@,
{
}

/// The words for states of leases.
pub proof fn law_words_for_lease_states(x: LeaseState, w: Seq<char>)
    requires
        x.word() == w,
    ensures
        x is Active ==> w == "active"@,
        x is Released ==> w == "released"@,
        x is Expired ==> w == "expired"@,
        x is Preempted ==> w == "preempted"@,
{
}

/// The words for states of tasks.
pub proof fn law_words_for_task_states(x: TaskState, w: Seq<char>)
    requires
        x.word() == w,
    ensures
        x is Pending ==> w == "pending"@,
        x is Running ==> w == "running"@,
        x is Blocked ==> w == "blocked"@,
        x is Review ==> w == "review"@,
        x is Done ==> w == "done"@,
        x is Failed ==> w == "failed"@,
{
}

/// The words for states of goals.
pub proof fn law_words_for_goal_states(x: GoalState, w: Seq<char>)
    requires
        x.word() == w,
    ensures
        x is Open ==> w == "open"@,
        x is Done ==> w == "done"@,
        x is Abandoned ==> w == "abandoned"@,
{
}

/// The words for capabilities of agents.
pub proof fn law_words_for_capabilities(x: Capability, w: Seq<char>)
    requires
        x.word() == w,
    ensures
        x is Planner ==> w == "planner"@,
        x is Backend ==> w == "backend"@,
        x is Frontend ==> w == "frontend"@,
        x is Database ==> w == "database"@,
        x is Testing ==> w == "testing"@,
        x is Security ==> w == "security"@,
        x is Documentation ==> w == "documentation"@,
{
}

/// The words for states of requests.
pub proof fn law_words_for_request_states(x: RequestState, w: Seq<char>)
    requires
        x.word() == w,
    ensures
        x is Open ==> w == "open"@,
        x is Accepted ==> w == "accepted"@,
        x is Declined ==> w == "declined"@,
        x is Fulfilled ==> w == "fulfilled"@,
        x is Cancelled ==> w == "cancelled"@,
        x is Expired ==> w == "expired"@,
{
}

/// The words for ways in which leases conflict.
pub proof fn law_words_for_conflict_relations(x: ConflictRelation, w: Seq<char>)
    requires
        x.word() == w,
    ensures
        x is Same ==> w == "same"@,
        x is Ancestor ==> w == "ancestor"@,
        x is Descendant ==> w == "descendant"@,
        x is Queued ==> w == "queued"@,
{
}

/// The words for kinds of changes.
pub proof fn law_words_for_change_kinds(x: ChangeKind, w: Seq<char>)
    requires
        x.word() == w,
    ensures
        x is Added ==> w == "added"@,
        x is Modified ==> w == "modified"@,
        x is Removed ==> w == "removed"@,
{
}

/// The words for kinds of boxes on the map.
pub proof fn law_words_for_box_kinds(x: ArchKind, w: Seq<char>)
    requires
        x.word() == w,
    ensures
        x is Repo ==> w == "repo"@,
        x is Service ==> w == "service"@,
        x is Dir ==> w == "dir"@,
        x is File ==> w == "file"@,
        x is Table ==> w == "table"@,
{
}

/// The words for severities of notices.
pub proof fn law_words_for_severities(x: Severity, w: Seq<char>)
    requires
        x.word() == w,
    ensures
        x is Info ==> w == "info"@,
        x is Warn ==> w == "warn"@,
        x is Blocking ==> w == "blocking"@,
{
}

/// The words for verdicts on edits.
pub proof fn law_words_for_verdicts(x: GuardVerdict, w: Seq<char>)
    requires
        x.word() == w,
    ensures
        x is Allowed ==> w == "allowed"@,
        x is Warn ==> w == "warn"@,
        x is Denied ==> w == "denied"@,
{
}

} // verus!
