//! Work that somebody else looks at before it counts as done.
//!
//! Submitted work keeps its leases: nothing is merged yet. Approving it finishes the
//! task like any other; turning it down hands it back to its assignee, who is told
//! why and keeps what they hold.

use vstd::prelude::*;
use vstd::string::*;

use crate::json::{opt_text, Json, JsonV};
use crate::model::TaskState;
use crate::protocol::{NewRequest, NewRequestV};
use crate::request_kind;
use crate::rows::keep;
use crate::store::{
    fail, fail_about, failure, seen, sane_time, ErrorKind, Store, StoreError, StoreErrorV, StoreV, TaskRow,
    TaskRowV, Tick,
};
use crate::text::{cat, cat3, same};
use crate::work::{in_state, TaskView, TaskViewV};

verus! {

broadcast use vstd::string::group_string_axioms;

/// The request that tells an assignee why their work was turned down.
pub open spec fn complaint(from: Seq<char>, to: Seq<char>, task: Seq<char>, reason: Option<Seq<char>>) -> NewRequestV {
    NewRequestV {
        kind: request_kind::REVIEW@,
        from,
        to: Some(to),
        subject: "changes requested on "@ + task,
        body: JsonV::Obj(seq![("reason"@, opt_text(reason))]),
        resource_symbol: None,
        resource_task: None,
        task: Some(task),
        priority: 0,
        deadline_secs: None,
    }
}

impl StoreV {
    /// The task, where it has been submitted.
    pub open spec fn submitted(self, id: Seq<char>) -> Result<TaskRowV, StoreErrorV> {
        match self.task_row(id) {
            None => Err(failure(ErrorKind::NoSuchTask, "no such task: "@ + id)),
            Some(row) => if row.state is Review {
                Ok(row)
            } else {
                Err(failure(ErrorKind::NotInReview, "task "@ + id + " is not in review"@))
            },
        }
    }

    /// Accepting submitted work: it is done. Nobody accepts their own, unless that
    /// is overridden.
    pub open spec fn approve_review(self, id: Seq<char>, agent: Seq<char>, force: bool, now: i64) -> (
        StoreV,
        Result<TaskViewV, StoreErrorV>,
    ) {
        match self.submitted(id) {
            Err(e) => (self, Err(e)),
            Ok(row) => if !force && row.assignee == Some(agent) {
                (
                    self,
                    Err(failure(ErrorKind::OwnWork, agent + " cannot approve their own "@ + id)),
                )
            } else {
                self.set_task_state(id, TaskState::Done, Some(agent), None, true, now)
            },
        }
    }

    /// Turning submitted work down: it goes on where it was, and its assignee is told
    /// why.
    pub open spec fn reject_review(self, id: Seq<char>, agent: Seq<char>, reason: Option<Seq<char>>, t: Tick) -> (
        StoreV,
        Result<TaskViewV, StoreErrorV>,
    ) {
        match self.submitted(id) {
            Err(e) => (self, Err(e)),
            Ok(row) => {
                let s = self.with_task(
                    id,
                    |r: TaskRowV| in_state(r, TaskState::Running, t.now),
                ).emit(
                    t.now,
                    "review.rejected"@,
                    Some(agent),
                    None,
                    Some(id),
                    JsonV::Obj(seq![("reason"@, opt_text(reason))]),
                );
                let s = match row.assignee {
                    Some(to) => s.open_request(complaint(agent, to, id, reason), t).0,
                    None => s,
                };
                (s, Ok(s.view_of(in_state(row, TaskState::Running, t.now))))
            },
        }
    }
}

impl Store {
    fn submitted(&self, id: &str) -> (r: Result<TaskRow, StoreError>)
        ensures
            seen(r) == self@.submitted(id@),
    {
        match self.task_at(id) {
            None => Err(fail_about(ErrorKind::NoSuchTask, "no such task: ", id)),
            Some(i) => if self.tasks[i].state == TaskState::Review {
                Ok(self.tasks[i].clone())
            } else {
                Err(fail(ErrorKind::NotInReview, cat3("task ", id, " is not in review")))
            },
        }
    }

    /// Accept submitted work: it is done, its leases are released, and whoever waited
    /// for it is answered.
    pub fn approve_review(&mut self, id: &str, agent: &str, force: bool, now: i64) -> (r: Result<
        TaskView,
        StoreError,
    >)
        requires
            old(self)@.wf(),
            sane_time(now),
        ensures
            (final(self)@, seen(r)) == old(self)@.approve_review(id@, agent@, force, now),
            final(self)@.wf(),
    {
        let row = match self.submitted(id) {
            Ok(row) => row,
            Err(e) => {
                return Err(e);
            },
        };
        if !force {
            if let Some(a) = &row.assignee {
                if same(a.as_str(), agent) {
                    return Err(
                        fail(ErrorKind::OwnWork, cat3(agent, " cannot approve their own ", id)),
                    );
                }
            }
        }
        let who = Some(agent.to_owned());
        let none: Option<String> = None;
        self.set_task_state(id, TaskState::Done, &who, &none, true, now)
    }

    /// Turn submitted work down. The assignee keeps the task and its leases, and is
    /// told why.
    pub fn reject_review(&mut self, id: &str, agent: &str, reason: &Option<String>, t: Tick) -> (r: Result<
        TaskView,
        StoreError,
    >)
        requires
            old(self)@.wf(),
            t.ok(),
        ensures
            (final(self)@, seen(r)) == old(self)@.reject_review(id@, agent@, reason.deep_view(), t),
            final(self)@.wf(),
    {
        let row = match self.submitted(id) {
            Ok(row) => row,
            Err(e) => {
                return Err(e);
            },
        };
        self.move_task(id, TaskState::Running, t.now);
        let detail = Json::object().with("reason", Json::opt(reason));
        assert(detail.deep_view()->Obj_0 =~= seq![("reason"@, opt_text(reason.deep_view()))]);
        self.emit(
            t.now,
            "review.rejected",
            Some(agent.to_owned()),
            None,
            Some(id.to_owned()),
            detail,
        );
        if let Some(to) = &row.assignee {
            let subject = cat("changes requested on ", id);
            let mut q = NewRequest::new(request_kind::REVIEW, agent, subject.as_str());
            q.to = Some(to.clone());
            q.body = Json::object().with("reason", Json::opt(reason));
            q.task = Some(id.to_owned());
            proof {
                let want = complaint(agent@, to@, id@, reason.deep_view());
                assert(q.deep_view().body->Obj_0 =~= want.body->Obj_0);
                assert(q.deep_view() == want);
            }
            let _told = self.open_request(&q, t);
        }
        let mut moved = row;
        moved.state = TaskState::Running;
        moved.updated_at = t.now;
        Ok(self.view_of(&moved))
    }

    /// The tasks that wait to be looked at.
    pub fn tasks_in_review(&self) -> (r: Vec<TaskView>)
        ensures
            r.deep_view() == self@.tasks_listed().filter(|t: TaskViewV| t.task.state is Review),
    {
        let test = |t: &TaskView| -> (b: bool)
            ensures b == (t.deep_view().task.state is Review)
        {
            t.task.state == TaskState::Review
        };
        keep(&self.tasks(), test, Ghost(|t: TaskViewV| t.task.state is Review))
    }
}

/// Nobody accepts their own work, and a refused approval changes nothing.
pub proof fn law_nobody_approves_their_own(s: StoreV, id: Seq<char>, agent: Seq<char>, now: i64)
    requires
        s.task_row(id) matches Some(row) && row.assignee == Some(agent),
    ensures
        s.approve_review(id, agent, false, now).1 is Err,
        s.approve_review(id, agent, false, now).0 == s,
{
}

/// Turning work down takes no lease from anybody.
pub proof fn law_rejection_keeps_leases(s: StoreV, id: Seq<char>, agent: Seq<char>, reason: Option<Seq<char>>, t: Tick)
    ensures
        s.reject_review(id, agent, reason, t).0.leases == s.leases,
{
}

} // verus!
