use golab::model::{Capability, GoalState, TaskState};

/// `parse()` has a catch-all `_ => None`, so a forgotten arm compiles
/// fine and only fails at runtime (e.g. the daemon rejecting a state
/// string nothing told it about). Every variant round-tripping through
/// its own `as_str()` is cheap insurance against that, for this and any
/// future variant.
#[test]
fn task_state_strings_round_trip() {
    for s in [
        TaskState::Pending,
        TaskState::Running,
        TaskState::Blocked,
        TaskState::Review,
        TaskState::Done,
        TaskState::Failed,
    ] {
        assert_eq!(TaskState::parse(s.as_str()), Some(s), "{s:?}");
    }
}

#[test]
fn goal_state_strings_round_trip() {
    for s in [GoalState::Open, GoalState::Done, GoalState::Abandoned] {
        assert_eq!(GoalState::parse(s.as_str()), Some(s), "{s:?}");
    }
}

#[test]
fn capability_strings_round_trip() {
    for c in [
        Capability::Planner,
        Capability::Backend,
        Capability::Frontend,
        Capability::Database,
        Capability::Testing,
        Capability::Security,
        Capability::Documentation,
        Capability::Reviewer,
    ] {
        assert_eq!(Capability::parse(c.as_str()), Some(c), "{c:?}");
    }
}
