//! What a session of an editor does to the shared state.
//!
//! The callbacks fire whether or not the model thinks of it: joining when a session
//! starts, asking before an edit, reporting after it, and leaving at the end. That
//! is where being alive stops depending on the model.

use vstd::prelude::*;
use vstd::string::*;

use crate::guard::{GuardReport, GuardReportV};
use crate::hooks::{
    answer_guard, answer_start, brief, brief_of, context_of, edit_window, edited_paths, guard_answer, paths_edited,
    window_of, worst, worst_of, BriefTask, BriefTaskV, Briefing, BriefingV, EditWindow, EditWindowV, HookAnswer,
    HookAnswerV, Note, NoteV, EDITED,
};
use crate::ids::file_symbol_id;
use crate::index::file_id_of;
use crate::json::Json;
use crate::lease::{due, held, lemma_finish_each_keeps, renewed};
use crate::lease_laws::law_heartbeat_renews;
use crate::model::{AgentV, LeaseState, ProgressUpdate, Symbol, SymbolV};
use crate::negotiate::next_progress_id;
use crate::order::{rank, sorted};
use crate::protocol::{listed, Direction};
use crate::rows::each;
use crate::store::{append, law_first_where, no_rows, sane_time, ProgressRowV, RequestRow, RequestRowV, Store, StoreV};

verus! {

broadcast use vstd::string::group_string_axioms;

impl StoreV {
    /// The reports on the files that a call touches, those outside every repository
    /// left aside.
    pub open spec fn judged_each(
        self,
        root: Seq<char>,
        agent: Seq<char>,
        paths: Seq<Seq<char>>,
        now: i64,
    ) -> Seq<GuardReportV>
        decreases paths.len(),
    {
        if paths.len() == 0 {
            Seq::empty()
        } else {
            let before = self.judged_each(root, agent, paths.drop_last(), now);
            match self.locate(root, paths.last()) {
                None => before,
                Some((repo, rel)) => match self.guard(agent, repo, rel, None, now) {
                    Ok(r) => before.push(r),
                    Err(_) => before,
                },
            }
        }
    }

    /// The edit window that asking before a call opens: that of the file that fares
    /// worst.
    pub open spec fn opened(self, root: Seq<char>, agent: Seq<char>, paths: Seq<Seq<char>>, now: i64) -> Option<
        EditWindowV,
    > {
        match worst_of(self.judged_each(root, agent, paths, now)) {
            Some(r) => Some(window_of(agent, r)),
            None => None,
        }
    }

    /// The edit windows that a call leaves once it landed: one for every file that a
    /// repository owns. A symbol is named only where the file is indexed.
    pub open spec fn landed(self, root: Seq<char>, agent: Seq<char>, paths: Seq<Seq<char>>) -> Seq<EditWindowV>
        decreases paths.len(),
    {
        if paths.len() == 0 {
            Seq::empty()
        } else {
            let before = self.landed(root, agent, paths.drop_last());
            match self.locate(root, paths.last()) {
                None => before,
                Some((repo, rel)) => before.push(self.landed_in(agent, repo, rel)),
            }
        }
    }

    /// The edit window of one file that was changed.
    pub open spec fn landed_in(self, agent: Seq<char>, repo: Seq<char>, rel: Seq<char>) -> EditWindowV {
        let id = file_id_of(repo, rel);
        let indexed = self.symbol(id) is Some;
        EditWindowV {
            agent,
            repo_id: repo,
            path: rel,
            kind: EDITED@,
            symbol_id: if indexed {
                Some(id)
            } else {
                None
            },
            symbol_handle: if indexed {
                Some(rel)
            } else {
                None
            },
            task: self.current_task_id(agent),
            verdict: None,
        }
    }

    /// The task that an agent is working on, by its id.
    pub open spec fn current_task_id(self, agent: Seq<char>) -> Option<Seq<char>> {
        match self.current_task(agent) {
            Some(t) => Some(t.task.id),
            None => None,
        }
    }

    /// What an agent is told when a session opens.
    pub open spec fn briefing(self, agent: Seq<char>, memory: Seq<NoteV>, now: i64) -> BriefingV {
        BriefingV {
            task: match self.current_task(agent) {
                Some(t) => Some(
                    BriefTaskV {
                        id: t.task.id,
                        title: t.task.title,
                        scope: self.task_scope(t.task.id).map_values(|s: SymbolV| s.handle()),
                    },
                ),
                None => None,
            },
            startable: self.plan(now).startable_now,
            notices: self.requests.filter(
                |q: RequestRowV| listed(q, Some(agent), Direction::Inbox, true),
            ).len() as usize,
            memory,
        }
    }

    /// The row that reports an edit.
    pub open spec fn edit_row(self, root: Seq<char>, agent: Seq<char>, paths: Seq<Seq<char>>, now: i64) -> ProgressRowV {
        let (symbol_id, note) = self.edit_note(root, paths);
        ProgressRowV {
            id: next_progress_id(self.progress),
            agent,
            task: self.current_task_id(agent),
            symbol_id,
            percent: None,
            eta_secs: None,
            note: Some(note),
            ts: now,
        }
    }
}

impl Store {
    /// Answers an editor that asks before it makes a call: one denied file refuses
    /// the call, a payload without files or files that nobody can judge do not. Gives
    /// the answer, and the edit window that asking opens.
    pub fn pre_tool(&self, root: &str, agent: &str, mode: &str, payload: &Json, now: i64) -> (r: (
        HookAnswer,
        Option<EditWindow>,
    ))
        requires
            self@.wf(),
            sane_time(now),
        ensures
            r.0.deep_view() == guard_answer(
                mode@,
                self@.judged_each(root@, agent@, paths_edited(payload.deep_view()), now),
            ),
            r.1.deep_view() == self@.opened(root@, agent@, paths_edited(payload.deep_view()), now),
    {
        let paths = edited_paths(payload);
        let reports = self.judge_each(root, agent, &paths, now);
        let window = match worst(&reports) {
            Some(w) => Some(edit_window(agent, &w)),
            None => None,
        };
        (answer_guard(mode, &reports), window)
    }

    fn landed(&self, root: &str, agent: &str, paths: &Vec<String>) -> (r: Vec<EditWindow>)
        ensures
            r.deep_view() == self@.landed(root@, agent@, paths.deep_view()),
    {
        let ghost all = paths.deep_view();
        let task = self.current_task_id(agent);
        let mut out: Vec<EditWindow> = no_rows();
        let count = paths.len();
        let mut i: usize = 0;
        while i < count
            invariant
                all == paths.deep_view(),
                count == paths@.len(),
                i <= count,
                task.deep_view() == self@.current_task_id(agent@),
                out.deep_view() == self@.landed(root@, agent@, all.take(i as int)),
            decreases count - i,
        {
            proof {
                assert(all.take(i + 1).drop_last() =~= all.take(i as int));
                assert(all.take(i + 1).last() == paths@[i as int]@);
            }
            if let Some((repo, rel)) = self.locate(root, paths[i].as_str()) {
                let id = file_symbol_id(repo.as_str(), rel.as_str());
                let indexed = self.symbol_at(id.as_str()).is_some();
                let (symbol_id, symbol_handle) = if indexed {
                    (Some(id), Some(rel.clone()))
                } else {
                    (None, None)
                };
                let window = EditWindow {
                    agent: agent.to_owned(),
                    repo_id: repo,
                    path: rel,
                    kind: EDITED.to_owned(),
                    symbol_id,
                    symbol_handle,
                    task: task.clone(),
                    verdict: None,
                };
                append(&mut out, window);
            }
            i += 1;
        }
        assert(all.take(i as int) =~= all);
        out
    }

    fn current_task_id(&self, agent: &str) -> (r: Option<String>)
        ensures
            r.deep_view() == self@.current_task_id(agent@),
    {
        match self.current_task(agent) {
            Some(t) => Some(t.task.id),
            None => None,
        }
    }

    fn judge_each(&self, root: &str, agent: &str, paths: &Vec<String>, now: i64) -> (r: Vec<GuardReport>)
        requires
            self@.wf(),
            sane_time(now),
        ensures
            r.deep_view() == self@.judged_each(root@, agent@, paths.deep_view(), now),
    {
        let ghost all = paths.deep_view();
        let none: Option<String> = None;
        let mut out: Vec<GuardReport> = no_rows();
        let count = paths.len();
        let mut i: usize = 0;
        while i < count
            invariant
                self@.wf(),
                sane_time(now),
                none.deep_view() == None::<Seq<char>>,
                all == paths.deep_view(),
                count == paths@.len(),
                i <= count,
                out.deep_view() == self@.judged_each(root@, agent@, all.take(i as int), now),
            decreases count - i,
        {
            proof {
                assert(all.take(i + 1).drop_last() =~= all.take(i as int));
                assert(all.take(i + 1).last() == paths@[i as int]@);
            }
            if let Some((repo, rel)) = self.locate(root, paths[i].as_str()) {
                if let Ok(report) = self.guard(agent, repo.as_str(), rel.as_str(), &none, now) {
                    append(&mut out, report);
                }
            }
            i += 1;
        }
        assert(all.take(i as int) =~= all);
        out
    }

    fn briefing(&self, agent: &str, memory: Vec<Note>, now: i64) -> (r: Briefing)
        requires
            self@.wf(),
            sane_time(now),
        ensures
            r.deep_view() == self@.briefing(agent@, memory.deep_view(), now),
    {
        let task = match self.current_task(agent) {
            None => None,
            Some(t) => {
                let name = |s: &Symbol| -> (h: String)
                    ensures h.deep_view() == s.deep_view().handle()
                {
                    s.handle()
                };
                let scope = each(
                    &self.task_scope(t.task.id.as_str()),
                    name,
                    Ghost(|s: SymbolV| s.handle()),
                );
                Some(BriefTask { id: t.task.id, title: t.task.title, scope })
            },
        };
        let who = Some(agent.to_owned());
        let asked = self.requests(&who, Direction::Inbox, true);
        proof {
            let p = |q: RequestRowV| listed(q, who.deep_view(), Direction::Inbox, true);
            let g = |q: RequestRowV| listed(q, Some(agent@), Direction::Inbox, true);
            assert(p =~= g);
            crate::order::law_sorted_keeps(self@.requests.filter(p), rank::<RequestRow>());
            assert(asked@.len() == asked.deep_view().len());
            assert(sorted(self@.requests.filter(p), rank::<RequestRow>()).len()
                == self@.requests.filter(p).len());
        }
        let plan = self.plan(now);
        Briefing { task, startable: plan.startable_now, notices: asked.len(), memory }
    }

    /// A session starts: its agent joins, and is told where things stand.
    pub fn session_start(&mut self, agent: &str, kind: &str, memory: Vec<Note>, now: i64) -> (r: HookAnswer)
        requires
            old(self)@.wf(),
            sane_time(now),
        ensures
            final(self)@ == old(self)@.register_agent(agent@, kind@, now),
            r.deep_view() == (HookAnswerV {
                out: Some(
                    context_of(
                        brief_of(agent@, final(self)@.briefing(agent@, memory.deep_view(), now)),
                    ),
                ),
                err: None,
                code: 0,
            }),
            final(self)@.wf(),
    {
        let _joined = self.register_agent(agent, kind, now);
        assert(self@.leases == old(self)@.leases);
        let packet = self.briefing(agent, memory, now);
        let text = Some(brief(agent, &packet));
        answer_start(&text)
    }

    /// An edit landed: it is reported, which renews what the agent holds. Gives the
    /// report, and the edit windows of every file that the call touched.
    pub fn post_tool(&mut self, root: &str, agent: &str, payload: &Json, now: i64) -> (r: (
        ProgressUpdate,
        Vec<EditWindow>,
    ))
        requires
            old(self)@.wf(),
            sane_time(now),
        ensures
            ({
                let row = old(self)@.edit_row(root@, agent@, paths_edited(payload.deep_view()), now);
                &&& final(self)@ == old(self)@.noted(row).heartbeat(agent@, None, now)
                &&& r.0.deep_view() == old(self)@.progress_of(row)
            }),
            r.1.deep_view() == old(self)@.landed(root@, agent@, paths_edited(payload.deep_view())),
            final(self)@.wf(),
    {
        let paths = edited_paths(payload);
        let windows = self.landed(root, agent, &paths);
        let (symbol, note) = self.edit_note(root, &paths);
        let task = self.current_task_id(agent);
        (self.record_progress(agent, &task, &symbol, None, None, &Some(note), now), windows)
    }

    /// A session ends: whatever its agent held is free.
    pub fn session_end(&mut self, agent: &str, now: i64)
        requires
            old(self)@.wf(),
            sane_time(now),
        ensures
            final(self)@ == old(self)@.finish_each(
                old(self)@.held_by(agent@),
                LeaseState::Released,
                "released"@,
                now,
            ),
            final(self)@.wf(),
    {
        let _freed = self.release_all(agent, now);
    }
}

/// Leaving other files of a call reading as being edited would be a lie: once the call
/// landed, every file of it that a repository owns has its window.
pub proof fn law_every_landed_file_has_its_window(
    s: StoreV,
    root: Seq<char>,
    agent: Seq<char>,
    paths: Seq<Seq<char>>,
)
    ensures
        forall|i: int|
            0 <= i < paths.len() && s.locate(root, #[trigger] paths[i]) is Some ==> exists|k: int|
                0 <= k < s.landed(root, agent, paths).len() && (#[trigger] s.landed(
                    root,
                    agent,
                    paths,
                )[k]) == s.landed_in(
                    agent,
                    s.locate(root, paths[i])->Some_0.0,
                    s.locate(root, paths[i])->Some_0.1,
                ),
        s.landed(root, agent, paths).len() <= paths.len(),
    decreases paths.len(),
{
    if paths.len() > 0 {
        let init = paths.drop_last();
        law_every_landed_file_has_its_window(s, root, agent, init);
        let all = s.landed(root, agent, paths);
        let some = s.landed(root, agent, init);
        assert forall|i: int| 0 <= i < paths.len() && s.locate(root, #[trigger] paths[i]) is Some implies exists|
            k: int,
        |
            0 <= k < all.len() && (#[trigger] all[k]) == s.landed_in(
                agent,
                s.locate(root, paths[i])->Some_0.0,
                s.locate(root, paths[i])->Some_0.1,
            ) by {
            if i < init.len() {
                assert(init[i] == paths[i]);
                let k = choose|k: int|
                    0 <= k < some.len() && (#[trigger] some[k]) == s.landed_in(
                        agent,
                        s.locate(root, paths[i])->Some_0.0,
                        s.locate(root, paths[i])->Some_0.1,
                    );
                assert(all[k] == some[k]);
            } else {
                assert(all[some.len() as int] == all.last());
            }
        }
    }
}

/// An agent that is editing is not taken for dead: at the time of an edit its work
/// is nobody's to give back, however short the silence that is allowed.
pub proof fn law_editing_is_being_alive(
    s: StoreV,
    root: Seq<char>,
    agent: Seq<char>,
    paths: Seq<Seq<char>>,
    now: i64,
    cutoff: int,
    i: int,
)
    requires
        cutoff <= now,
        0 <= i < s.tasks.len(),
        s.tasks[i].assignee == Some(agent),
        exists|k: int| 0 <= k < s.agents.len() && (#[trigger] s.agents[k]).name == agent,
    ensures
        ({
            let after = s.noted(s.edit_row(root, agent, paths, now)).heartbeat(agent, None, now);
            after.tasks == s.tasks && !after.orphaned(after.tasks[i], cutoff)
        }),
{
    let n = s.noted(s.edit_row(root, agent, paths, now));
    lemma_finish_each_keeps(n, n.due_leases(now), LeaseState::Expired, "ttl expired"@, now);
    let after = n.heartbeat(agent, None, now);
    let k = choose|k: int| 0 <= k < s.agents.len() && (#[trigger] s.agents[k]).name == agent;
    assert(after.agents[k].name == agent);
    let p = |a: AgentV| a.name == agent;
    law_first_where(after.agents, p);
    assert(p(after.agents[k]));
}

/// An edit renews what its agent holds: a lease that has not run out runs out no
/// earlier than a lifetime from now.
pub proof fn law_editing_keeps_leases(
    s: StoreV,
    root: Seq<char>,
    agent: Seq<char>,
    paths: Seq<Seq<char>>,
    now: i64,
    i: int,
)
    requires
        s.wf(),
        sane_time(now),
        0 <= i < s.leases.len(),
        held(s.leases[i], agent),
        !due(s.leases[i], now),
    ensures
        ({
            let after = s.noted(s.edit_row(root, agent, paths, now)).heartbeat(agent, None, now);
            after.leases[i] == renewed(s.leases[i], now) && after.leases[i].expires_at == now
                + s.leases[i].ttl_secs * 1000
        }),
{
    law_heartbeat_renews(s.noted(s.edit_row(root, agent, paths, now)), agent, now, i);
}

} // verus!
