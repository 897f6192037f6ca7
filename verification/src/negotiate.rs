//! Negotiation: handing leases over on request, and saying how far one is.

use vstd::prelude::*;
use vstd::string::*;

use crate::graph::first_rows;
use crate::json::{opt_int, opt_text, Json, JsonV};
use crate::lease::{active_lease, held, lemma_resolve_keeps, wait_secs};
use crate::model::{LeaseState, ProgressUpdate, ProgressUpdateV, Request, RequestState, RequestV, TaskState};
use crate::order::{rank, sorted, stable_sort, Ranked};
use crate::protocol::{answered, merge, merged, overdue, refusal, wants_symbol, wants_task, NewRequest, NewRequestV};
use crate::request_kind;
use crate::rows::{each, find_row, keep, law_filter_has};
use crate::store::{
    append, fail, fail_about, failure, first_where, lease_ok, law_first_where, sane_time, sane_ttl, seen,
    ErrorKind, LeaseRow, LeaseRowV, ProgressRow, ProgressRowV, RequestRowV, Store, StoreError, StoreErrorV,
    StoreV, TaskRowV, Tick,
};
use crate::text::{cat, cat3, same};
use crate::work::{in_state, over};

verus! {

broadcast use vstd::string::group_string_axioms;

impl Ranked for ProgressRow {
    /// The latest first.
    open spec fn before(a: ProgressRowV, b: ProgressRowV) -> bool {
        a.ts > b.ts
    }

    fn is_before(&self, other: &Self) -> (r: bool) {
        self.ts > other.ts
    }
}

/// A percentage as it is kept.
pub open spec fn clamped(p: i64) -> i64 {
    if p < 0 {
        0
    } else if p > 100 {
        100
    } else {
        p
    }
}

/// The number of the next update.
pub open spec fn next_progress_id(rows: Seq<ProgressRowV>) -> i64 {
    if rows.len() == 0 {
        1
    } else if rows.last().id < i64::MAX {
        (rows.last().id + 1) as i64
    } else {
        i64::MAX
    }
}

/// Is the row the last word of its agent?
pub open spec fn last_word(rows: Seq<ProgressRowV>, p: ProgressRowV) -> bool {
    forall|i: int| 0 <= i < rows.len() && (#[trigger] rows[i]).agent == p.agent ==> rows[i].id <= p.id
}

impl StoreV {
    /// The lease that a symbol is held by, the oldest first.
    pub open spec fn holder_of(self, symbol: Seq<char>) -> Option<LeaseRowV> {
        first_where(
            sorted(self.leases.filter(|l: LeaseRowV| l.state is Active), rank::<LeaseRow>()),
            |l: LeaseRowV| l.symbol_id == symbol,
        )
    }

    /// Asking whoever holds a symbol to hand it over.
    pub open spec fn request_lease_transfer(
        self,
        symbol: Seq<char>,
        from: Seq<char>,
        reason: Option<Seq<char>>,
        deadline_secs: Option<i64>,
        priority: i64,
        task: Option<Seq<char>>,
        t: Tick,
    ) -> (StoreV, Result<RequestV, StoreErrorV>) {
        match self.holder_of(symbol) {
            None => (
                self,
                Err(
                    failure(
                        ErrorKind::NobodyHolds,
                        "nobody holds that symbol — just acquire it"@,
                    ),
                ),
            ),
            Some(l) => if l.agent == from {
                (self, Err(failure(ErrorKind::AlreadyHolds, from + " already holds that lease"@)))
            } else {
                match self.symbol(symbol) {
                    None => (
                        self,
                        Err(failure(ErrorKind::UnknownSymbol, "unknown symbol: "@ + symbol)),
                    ),
                    Some(sym) => self.open_request(
                        NewRequestV {
                            kind: request_kind::LEASE_TRANSFER@,
                            from,
                            to: Some(l.agent),
                            subject: "hand over "@ + sym.handle(),
                            body: JsonV::Obj(
                                seq![
                                    ("reason"@, opt_text(reason)),
                                    ("current_task"@, opt_text(l.task)),
                                    (
                                        "holder_expires_in_secs"@,
                                        JsonV::Int(wait_secs(t.now, l.expires_at) as int),
                                    ),
                                ],
                            ),
                            resource_symbol: Some(symbol),
                            resource_task: None,
                            task,
                            priority,
                            deadline_secs,
                        },
                        t,
                    ),
                }
            },
        }
    }

    /// Saying yes. For a transfer this is the handover itself.
    pub open spec fn accept_request(
        self,
        id: Seq<char>,
        agent: Seq<char>,
        response: Option<JsonV>,
        now: i64,
    ) -> (StoreV, Result<RequestV, StoreErrorV>) {
        let s = self.expire_requests(now);
        match s.request_row(id) {
            None => (self, Err(failure(ErrorKind::NoSuchRequest, "no such request: "@ + id))),
            Some(row) => match refusal(row, agent, true) {
                Some(e) => (self, Err(e)),
                None => if row.kind == request_kind::LEASE_TRANSFER@ {
                    match s.accept_transfer(row, agent, response, now) {
                        (r, Ok(q)) => (r, Ok(q)),
                        (_, Err(e)) => (self, Err(e)),
                    }
                } else {
                    (
                        s.resolve_request(row, RequestState::Accepted, agent, response, now),
                        Ok(
                            s.request_of(
                                answered(row, RequestState::Accepted, agent, response, now),
                            ),
                        ),
                    )
                },
            },
        }
    }

    /// Handing over the lease that a request asks for.
    pub open spec fn accept_transfer(
        self,
        row: RequestRowV,
        agent: Seq<char>,
        response: Option<JsonV>,
        now: i64,
    ) -> (StoreV, Result<RequestV, StoreErrorV>) {
        match row.resource_symbol {
            None => (
                self,
                Err(
                    failure(
                        ErrorKind::NoSymbolNamed,
                        "lease-transfer request names no symbol"@,
                    ),
                ),
            ),
            Some(symbol) => match self.active_lease_for(symbol, agent) {
                None => (
                    self,
                    Err(
                        failure(
                            ErrorKind::NoLongerHolds,
                            agent + " no longer holds "@ + self.request_of(row).resource_label(),
                        ),
                    ),
                ),
                Some(l) => match self.transfer_lease(l.id, agent, row.from, now) {
                    (s, Ok(moved)) => {
                        let full = Some(
                            merged(
                                match response {
                                    Some(j) => j,
                                    None => JsonV::Obj(Seq::empty()),
                                },
                                JsonV::Obj(
                                    seq![
                                        ("lease"@, JsonV::Str(moved.id)),
                                        ("transferred_to"@, JsonV::Str(row.from)),
                                    ],
                                ),
                            ),
                        );
                        (
                            s.resolve_request(row, RequestState::Fulfilled, agent, full, now),
                            Ok(
                                s.request_of(
                                    answered(row, RequestState::Fulfilled, agent, full, now),
                                ),
                            ),
                        )
                    },
                    (s, Err(e)) => (self, Err(e)),
                },
            },
        }
    }

    /// The update that a row shows as.
    pub open spec fn progress_of(self, p: ProgressRowV) -> ProgressUpdateV {
        ProgressUpdateV {
            id: p.id,
            agent: p.agent,
            task: p.task,
            symbol_id: p.symbol_id,
            symbol_handle: self.row_handle(p.symbol_id),
            percent: p.percent,
            eta_secs: p.eta_secs,
            note: p.note,
            ts: p.ts,
        }
    }

    /// The state once an update was written down, before the agent's leases were
    /// renewed.
    pub open spec fn noted(self, p: ProgressRowV) -> StoreV {
        let s = StoreV {
            progress: self.progress.push(p),
            agents: self.agents.map_values(
                |a: crate::model::AgentV|
                    if a.name == p.agent {
                        crate::model::AgentV { heartbeat_at: p.ts, ..a }
                    } else {
                        a
                    },
            ),
            ..self
        };
        s.emit(
            p.ts,
            "agent.progress"@,
            Some(p.agent),
            self.full_handle(p.symbol_id),
            p.task,
            JsonV::Obj(
                seq![
                    ("percent"@, opt_int(p.percent)),
                    ("eta_secs"@, opt_int(p.eta_secs)),
                    ("note"@, opt_text(p.note)),
                ],
            ),
        )
    }

    /// Every agent's last word, the latest first.
    pub open spec fn latest_progress(self) -> Seq<ProgressUpdateV> {
        sorted(
            self.progress.filter(|p: ProgressRowV| last_word(self.progress, p)),
            rank::<ProgressRow>(),
        ).map_values(|p: ProgressRowV| self.progress_of(p))
    }
}

impl Store {
    /// Ask whoever currently holds the symbol to hand it over.
    pub fn request_lease_transfer(
        &mut self,
        symbol_id: &str,
        from: &str,
        reason: &Option<String>,
        deadline_secs: Option<i64>,
        priority: i64,
        task: &Option<String>,
        t: Tick,
    ) -> (r: Result<Request, StoreError>)
        requires
            old(self)@.wf(),
            t.ok(),
            deadline_secs matches Some(d) ==> sane_ttl(d),
        ensures
            (final(self)@, seen(r)) == old(self)@.request_lease_transfer(
                symbol_id@,
                from@,
                reason.deep_view(),
                deadline_secs,
                priority,
                task.deep_view(),
                t,
            ),
            final(self)@.wf(),
    {
        let active = |l: &LeaseRow| -> (b: bool)
            ensures b == (l.deep_view().state is Active)
        {
            l.state == LeaseState::Active
        };
        let rows = keep(&self.leases, active, Ghost(|l: LeaseRowV| l.state is Active));
        let rows = stable_sort(rows);
        let ghost some = self@.leases.filter(|l: LeaseRowV| l.state is Active);
        proof {
            crate::order::law_sorted_keeps(some, rank::<LeaseRow>());
        }
        let on_it = |l: &LeaseRow| -> (b: bool)
            ensures b == (l.deep_view().symbol_id == symbol_id@)
        {
            same(l.symbol_id.as_str(), symbol_id)
        };
        let l = match find_row(&rows, on_it, Ghost(|l: LeaseRowV| l.symbol_id == symbol_id@)) {
            Some(i) => rows[i].clone(),
            None => {
                return Err(
                    fail(
                        ErrorKind::NobodyHolds,
                        "nobody holds that symbol — just acquire it".to_owned(),
                    ),
                );
            },
        };
        proof {
            law_first_where(rows.deep_view(), |l: LeaseRowV| l.symbol_id == symbol_id@);
            lemma_sorted_has(some, rows.deep_view(), l.deep_view());
            self@.leases.lemma_filter_contains_rev(|l: LeaseRowV| l.state is Active, l.deep_view());
            let k = choose|k: int|
                0 <= k < self@.leases.len() && self@.leases[k] == l.deep_view();
            assert(lease_ok(self@.leases[k]));
        }
        if same(l.agent.as_str(), from) {
            return Err(fail(ErrorKind::AlreadyHolds, cat(from, " already holds that lease")));
        }
        let sym = match self.symbol(symbol_id) {
            Some(s) => s,
            None => {
                return Err(fail_about(ErrorKind::UnknownSymbol, "unknown symbol: ", symbol_id));
            },
        };
        let left = crate::lease::clamp_wait(t.now, l.expires_at);
        let body = Json::object().with("reason", Json::opt(reason)).with(
            "current_task",
            Json::opt(&l.task),
        ).with("holder_expires_in_secs", Json::Int(left));
        assert(body.deep_view()->Obj_0 =~= seq![
            ("reason"@, opt_text(reason.deep_view())),
            ("current_task"@, opt_text(l.deep_view().task)),
            ("holder_expires_in_secs"@, JsonV::Int(wait_secs(t.now, l.expires_at) as int)),
        ]);
        let req = NewRequest {
            kind: request_kind::LEASE_TRANSFER.to_owned(),
            from: from.to_owned(),
            to: Some(l.agent.clone()),
            subject: cat("hand over ", sym.handle().as_str()),
            body,
            resource_symbol: Some(symbol_id.to_owned()),
            resource_task: None,
            task: task.clone(),
            priority,
            deadline_secs,
        };
        self.open_request(&req, t)
    }

    /// Say yes. For a lease transfer this is the handover: the lease moves to the
    /// requester and the request is fulfilled. For every other kind it means that
    /// the agent has taken this on.
    pub fn accept_request(&mut self, id: &str, agent: &str, response: Option<Json>, now: i64) -> (r:
        Result<Request, StoreError>)
        requires
            old(self)@.wf(),
            sane_time(now),
        ensures
            (final(self)@, seen(r)) == old(self)@.accept_request(
                id@,
                agent@,
                response.deep_view(),
                now,
            ),
            final(self)@.wf(),
    {
        let ghost s0 = self@;
        let before = self.clone();
        proof {
            lemma_resolve_keeps(
                s0,
                s0.overdue_requests(now),
                RequestState::Expired,
                true,
                JsonV::Obj(seq![("reason"@, JsonV::Str("deadline passed with no answer"@))]),
                now,
            );
        }
        self.expire_requests(now);
        match self.acceptable(id, agent) {
            Err(e) => {
                *self = before;
                Err(e)
            },
            Ok(i) => {
                let row = self.requests[i].clone();
                if same(row.kind.as_str(), request_kind::LEASE_TRANSFER) {
                    let r = self.accept_transfer(row, agent, response, now);
                    if r.is_err() {
                        *self = before;
                    }
                    r
                } else {
                    self.settle(row, RequestState::Accepted, agent, response, now)
                }
            },
        }
    }

    fn accept_transfer(
        &mut self,
        row: crate::store::RequestRow,
        agent: &str,
        response: Option<Json>,
        now: i64,
    ) -> (r: Result<Request, StoreError>)
        requires
            old(self)@.wf(),
            sane_time(now),
            old(self)@.request_row(row.id@) == Some(row.deep_view()),
        ensures
            ({
                let (s, q) = old(self)@.accept_transfer(
                    row.deep_view(),
                    agent@,
                    response.deep_view(),
                    now,
                );
                seen(r) == q && (r is Ok ==> final(self)@ == s && s.wf())
            }),
    {
        let ghost s0 = self@;
        let symbol = match &row.resource_symbol {
            Some(s) => s.clone(),
            None => {
                return Err(
                    fail(
                        ErrorKind::NoSymbolNamed,
                        "lease-transfer request names no symbol".to_owned(),
                    ),
                );
            },
        };
        let l = match self.active_lease_for(symbol.as_str(), agent) {
            Some(l) => l,
            None => {
                let label = self.request_of(&row).resource_label();
                return Err(
                    fail(
                        ErrorKind::NoLongerHolds,
                        cat3(agent, " no longer holds ", label.as_str()),
                    ),
                );
            },
        };
        match self.transfer_lease(l.id.as_str(), agent, row.from.as_str(), now) {
            Err(e) => Err(e),
            Ok(moved) => {
                assert(self@.requests == s0.requests);
                let base = match response {
                    Some(j) => j,
                    None => Json::object(),
                };
                let extra = Json::object().with("lease", Json::str(moved.id.as_str())).with(
                    "transferred_to",
                    Json::str(row.from.as_str()),
                );
                assert(extra.deep_view()->Obj_0 =~= seq![
                    ("lease"@, JsonV::Str(moved.id@)),
                    ("transferred_to"@, JsonV::Str(row.from@)),
                ]);
                let full = merge(base, extra);
                self.settle(row, RequestState::Fulfilled, agent, Some(full), now)
            },
        }
    }

    fn progress_of(&self, p: &ProgressRow) -> (r: ProgressUpdate)
        ensures
            r.deep_view() == self@.progress_of(p.deep_view()),
    {
        let symbol_handle = self.row_handle(&p.symbol_id);
        let p = p.clone();
        ProgressUpdate {
            id: p.id,
            agent: p.agent,
            task: p.task,
            symbol_id: p.symbol_id,
            symbol_handle,
            percent: p.percent,
            eta_secs: p.eta_secs,
            note: p.note,
            ts: p.ts,
        }
    }

    /// Publish where you are. Doubles as a heartbeat: an agent that reports
    /// progress is alive, so its leases are renewed too.
    pub fn record_progress(
        &mut self,
        agent: &str,
        task: &Option<String>,
        symbol_id: &Option<String>,
        percent: Option<i64>,
        eta_secs: Option<i64>,
        note: &Option<String>,
        now: i64,
    ) -> (r: ProgressUpdate)
        requires
            old(self)@.wf(),
            sane_time(now),
        ensures
            ({
                let row = ProgressRowV {
                    id: next_progress_id(old(self)@.progress),
                    agent: agent@,
                    task: task.deep_view(),
                    symbol_id: symbol_id.deep_view(),
                    percent: match percent {
                        Some(p) => Some(clamped(p)),
                        None => None,
                    },
                    eta_secs,
                    note: note.deep_view(),
                    ts: now,
                };
                &&& final(self)@ == old(self)@.noted(row).heartbeat(agent@, None, now)
                &&& r.deep_view() == old(self)@.progress_of(row)
            }),
            final(self)@.wf(),
    {
        let ghost s0 = self@;
        let n = self.progress.len();
        assert(n == self@.progress.len());
        let id: i64 = if n == 0 {
            1
        } else {
            assert(self@.progress.last() == self.progress@[n - 1].deep_view());
            if self.progress[n - 1].id < i64::MAX {
                self.progress[n - 1].id + 1
            } else {
                i64::MAX
            }
        };
        let percent = match percent {
            Some(p) => Some(
                if p < 0 {
                    0
                } else if p > 100 {
                    100
                } else {
                    p
                },
            ),
            None => None,
        };
        let row = ProgressRow {
            id,
            agent: agent.to_owned(),
            task: task.clone(),
            symbol_id: symbol_id.clone(),
            percent,
            eta_secs,
            note: note.clone(),
            ts: now,
        };
        let shown = self.progress_of(&row);
        let handle = self.full_handle(symbol_id);
        let ghost rv = row.deep_view();
        append(&mut self.progress, row);
        self.touch_agent(agent, now);
        let detail = Json::object().with("percent", Json::opt_int(percent)).with(
            "eta_secs",
            Json::opt_int(eta_secs),
        ).with("note", Json::opt(note));
        assert(detail.deep_view()->Obj_0 =~= seq![
            ("percent"@, opt_int(percent)),
            ("eta_secs"@, opt_int(eta_secs)),
            ("note"@, opt_text(note.deep_view())),
        ]);
        self.emit(now, "agent.progress", Some(agent.to_owned()), handle, task.clone(), detail);
        assert(self@ == s0.noted(rv));
        self.heartbeat(agent, &None, now);
        shown
    }

    fn show_progress(&self, rows: &Vec<ProgressRow>) -> (r: Vec<ProgressUpdate>)
        ensures
            r.deep_view() == rows.deep_view().map_values(|p: ProgressRowV| self@.progress_of(p)),
    {
        let show = |p: &ProgressRow| -> (u: ProgressUpdate)
            ensures u.deep_view() == self@.progress_of(p.deep_view())
        {
            self.progress_of(p)
        };
        each(rows, show, Ghost(|p: ProgressRowV| self@.progress_of(p)))
    }

    fn is_last_word(&self, p: &ProgressRow) -> (r: bool)
        ensures
            r == last_word(self@.progress, p.deep_view()),
    {
        let mut i: usize = 0;
        while i < self.progress.len()
            invariant
                i <= self.progress@.len(),
                forall|k: int|
                    0 <= k < i && (#[trigger] self@.progress[k]).agent == p.agent@ ==> self@.progress[k].id
                        <= p.id,
            decreases self.progress@.len() - i,
        {
            assert(self@.progress[i as int] == self.progress@[i as int].deep_view());
            if same(self.progress[i].agent.as_str(), p.agent.as_str()) && self.progress[i].id > p.id {
                return false;
            }
            i += 1;
        }
        true
    }

    /// The most recent update of every agent.
    pub fn latest_progress(&self) -> (r: Vec<ProgressUpdate>)
        ensures
            r.deep_view() == self@.latest_progress(),
    {
        let last = |p: &ProgressRow| -> (b: bool)
            ensures b == last_word(self@.progress, p.deep_view())
        {
            self.is_last_word(p)
        };
        let rows = keep(
            &self.progress,
            last,
            Ghost(|p: ProgressRowV| last_word(self@.progress, p)),
        );
        self.show_progress(&stable_sort(rows))
    }

    /// What an agent reported, the latest first, at most `limit` updates.
    pub fn progress_for(&self, agent: &str, limit: usize) -> (r: Vec<ProgressUpdate>)
        ensures
            ({
                let all = sorted(
                    self@.progress.filter(|p: ProgressRowV| p.agent == agent@),
                    rank::<ProgressRow>(),
                );
                r.deep_view() == all.take(
                    if all.len() < limit {
                        all.len() as int
                    } else {
                        limit as int
                    },
                ).map_values(|p: ProgressRowV| self@.progress_of(p))
            }),
    {
        let mine = |p: &ProgressRow| -> (b: bool)
            ensures b == (p.deep_view().agent == agent@)
        {
            same(p.agent.as_str(), agent)
        };
        let rows = keep(&self.progress, mine, Ghost(|p: ProgressRowV| p.agent == agent@));
        self.show_progress(&first_rows(&stable_sort(rows), limit))
    }
}

proof fn lemma_sorted_has(a: Seq<LeaseRowV>, b: Seq<LeaseRowV>, x: LeaseRowV)
    requires
        a.to_multiset() == b.to_multiset(),
        b.contains(x),
    ensures
        a.contains(x),
{
    broadcast use vstd::seq_lib::group_to_multiset_ensures;

    assert(b.to_multiset().count(x) > 0);
}

// ----------------------------------------------------------------------- laws

/// Accepting a transfer is the handover: the requester holds the symbol from then
/// on, and the request is fulfilled.
pub proof fn law_accepting_hands_over(
    s: StoreV,
    id: Seq<char>,
    agent: Seq<char>,
    response: Option<JsonV>,
    now: i64,
)
    requires
        s.accept_request(id, agent, response, now).1 is Ok,
        s.expire_requests(now).request_row(id) matches Some(row) && row.kind
            == request_kind::LEASE_TRANSFER@,
    ensures
        ({
            let row = s.expire_requests(now).request_row(id)->0;
            let r = s.accept_request(id, agent, response, now).0;
            &&& row.resource_symbol matches Some(symbol) && exists|i: int|
                0 <= i < r.leases.len() && held(#[trigger] r.leases[i], row.from)
                    && r.leases[i].symbol_id == symbol
            &&& s.accept_request(id, agent, response, now).1->Ok_0.state is Fulfilled
        }),
{
    let e = s.expire_requests(now);
    let row = e.request_row(id)->0;
    let symbol = row.resource_symbol->0;
    let l = e.active_lease_for(symbol, agent)->0;
    law_first_where(e.leases, |x: LeaseRowV| active_lease(x, symbol) && x.agent == agent);
    law_first_where(e.leases, |x: LeaseRowV| x.id == l.id);
    let r = s.accept_request(id, agent, response, now).0;
    let i = choose|i: int| 0 <= i < e.leases.len() && e.leases[i] == l;
    assert(held(r.leases[i], row.from));
}

/// A request that is over stays over: whoever tries to answer it is refused, and
/// nothing changes.
pub proof fn law_answered_stays_answered(
    s: StoreV,
    id: Seq<char>,
    agent: Seq<char>,
    response: Option<JsonV>,
    now: i64,
)
    requires
        s.request_row(id) matches Some(row) && !row.state.live(),
    ensures
        s.answer(id, agent, RequestState::Declined, response, now).0 == s,
        s.answer(id, agent, RequestState::Declined, response, now).1 is Err,
        s.answer(id, agent, RequestState::Fulfilled, response, now).0 == s,
        s.answer(id, agent, RequestState::Fulfilled, response, now).1 is Err,
        s.cancel_request(id, agent, now).0 == s,
        s.cancel_request(id, agent, now).1 is Err,
{
}

/// What answering a list of requests makes of one row.
pub proof fn law_resolving_touches_only_the_listed(
    s: StoreV,
    rows: Seq<RequestRowV>,
    state: RequestState,
    by_sender: bool,
    response: JsonV,
    now: i64,
    i: int,
)
    requires
        0 <= i < s.requests.len(),
    ensures
        ({
            let r = s.resolve_each(rows, state, by_sender, response, now);
            let x = s.requests[i];
            &&& r.requests.len() == s.requests.len()
            &&& r.requests[i].id == x.id
            &&& r.requests[i].kind == x.kind
            &&& r.requests[i].resource_symbol == x.resource_symbol
            &&& r.requests[i].resource_task == x.resource_task
            &&& (exists|k: int| 0 <= k < rows.len() && (#[trigger] rows[k]).id == x.id)
                ==> r.requests[i].state == state
            &&& !(exists|k: int| 0 <= k < rows.len() && (#[trigger] rows[k]).id == x.id)
                ==> r.requests[i] == x
        }),
    decreases rows.len(),
{
    if rows.len() > 0 {
        let init = rows.drop_last();
        law_resolving_touches_only_the_listed(s, init, state, by_sender, response, now, i);
        let x = s.requests[i];
        if exists|k: int| 0 <= k < init.len() && (#[trigger] init[k]).id == x.id {
            let k = choose|k: int| 0 <= k < init.len() && (#[trigger] init[k]).id == x.id;
            assert(rows[k].id == x.id);
        }
        if rows.last().id == x.id {
            assert(rows[rows.len() - 1].id == x.id);
        }
        if exists|k: int| 0 <= k < rows.len() && (#[trigger] rows[k]).id == x.id {
            let k = choose|k: int| 0 <= k < rows.len() && (#[trigger] rows[k]).id == x.id;
            if k < init.len() {
                assert(init[k].id == x.id);
            }
        }
    }
}

/// After the sweep no live request is past its deadline, and a request that was
/// not past it is as it was.
pub proof fn law_deadlines_hold(s: StoreV, now: i64, i: int)
    requires
        0 <= i < s.requests.len(),
        s.wf(),
    ensures
        !overdue(s.expire_requests(now).requests[i], now),
        overdue(s.requests[i], now) ==> s.expire_requests(now).requests[i].state is Expired,
        !overdue(s.requests[i], now) ==> s.expire_requests(now).requests[i] == s.requests[i],
{
    let rows = s.overdue_requests(now);
    let p = |r: RequestRowV| overdue(r, now);
    law_resolving_touches_only_the_listed(
        s,
        rows,
        RequestState::Expired,
        true,
        JsonV::Obj(seq![("reason"@, JsonV::Str("deadline passed with no answer"@))]),
        now,
        i,
    );
    let x = s.requests[i];
    if overdue(x, now) {
        law_filter_has(s.requests, p, x);
        let k = choose|k: int| 0 <= k < rows.len() && rows[k] == x;
        assert(rows[k].id == x.id);
    } else if exists|k: int| 0 <= k < rows.len() && (#[trigger] rows[k]).id == x.id {
        let k = choose|k: int| 0 <= k < rows.len() && (#[trigger] rows[k]).id == x.id;
        s.requests.lemma_filter_contains_rev(p, rows[k]);
        let j = choose|j: int| 0 <= j < s.requests.len() && s.requests[j] == rows[k];
        assert(j == i);
    }
}

/// Releasing a symbol answers everybody who asked for it: no request for it is
/// left live.
pub proof fn law_release_answers_requests(s: StoreV, id: Seq<char>, agent: Seq<char>, now: i64, i: int)
    requires
        s.release(id, agent, now).1 is Ok,
        0 <= i < s.requests.len(),
        wants_symbol(s.requests[i], s.lease_row(id)->0.symbol_id),
    ensures
        s.release(id, agent, now).0.requests[i].state is Fulfilled,
{
    let l = s.lease_row(id)->0;
    let w = s.with_lease(
        l.id,
        |x: LeaseRowV| crate::lease::finished(x, LeaseState::Released, now),
    );
    let p = |r: RequestRowV| wants_symbol(r, l.symbol_id);
    let rows = w.requests.filter(p);
    law_filter_has(w.requests, p, w.requests[i]);
    let k = choose|k: int| 0 <= k < rows.len() && rows[k] == w.requests[i];
    assert(rows[k].id == w.requests[i].id);
    law_resolving_touches_only_the_listed(
        w,
        rows,
        RequestState::Fulfilled,
        false,
        JsonV::Obj(
            seq![("reason"@, JsonV::Str("released"@)), ("symbol_free"@, JsonV::Bool(true))],
        ),
        now,
        i,
    );
}

/// Releasing leases answers requests or leaves them alone.
proof fn lemma_releasing_answers(s: StoreV, rows: Seq<LeaseRowV>, reason: Seq<char>, now: i64, i: int)
    requires
        0 <= i < s.requests.len(),
    ensures
        ({
            let r = s.finish_each(rows, LeaseState::Released, reason, now);
            &&& r.requests.len() == s.requests.len()
            &&& r.requests[i].resource_task == s.requests[i].resource_task
            &&& r.requests[i].state is Fulfilled || r.requests[i] == s.requests[i]
        }),
    decreases rows.len(),
{
    if rows.len() > 0 {
        lemma_releasing_answers(s, rows.drop_last(), reason, now, i);
        let m = s.finish_each(rows.drop_last(), LeaseState::Released, reason, now);
        let l = rows.last();
        let w = m.with_lease(
            l.id,
            |x: LeaseRowV| crate::lease::finished(x, LeaseState::Released, now),
        );
        law_resolving_touches_only_the_listed(
            w,
            w.requests.filter(|r: RequestRowV| wants_symbol(r, l.symbol_id)),
            RequestState::Fulfilled,
            false,
            JsonV::Obj(
                seq![("reason"@, JsonV::Str(reason)), ("symbol_free"@, JsonV::Bool(true))],
            ),
            now,
            i,
        );
    }
}

/// Finishing a task answers everybody who waits for it: no request that waits for it
/// is left live.
pub proof fn law_finished_task_answers_requests(
    s: StoreV,
    id: Seq<char>,
    state: TaskState,
    agent: Option<Seq<char>>,
    reason: Option<Seq<char>>,
    force: bool,
    now: i64,
    i: int,
)
    requires
        over(state),
        s.set_task_state(id, state, agent, reason, force, now).1 is Ok,
        0 <= i < s.requests.len(),
    ensures
        ({
            let r = s.set_task_state(id, state, agent, reason, force, now).0;
            &&& r.requests.len() == s.requests.len()
            &&& !wants_task(r.requests[i], id)
            &&& wants_task(s.requests[i], id) ==> r.requests[i].state is Fulfilled
        }),
{
    let w = s.with_task(id, |r: TaskRowV| in_state(r, state, now));
    lemma_releasing_answers(
        w,
        w.leases.filter(|l: LeaseRowV| l.task == Some(id) && l.state is Active),
        "task finished"@,
        now,
        i,
    );
    let f = w.release_task_leases(id, now);
    let p = |r: RequestRowV| wants_task(r, id);
    let rows = f.requests.filter(p);
    if wants_task(f.requests[i], id) {
        law_filter_has(f.requests, p, f.requests[i]);
        let k = choose|k: int| 0 <= k < rows.len() && rows[k] == f.requests[i];
        assert(rows[k].id == f.requests[i].id);
    }
    law_resolving_touches_only_the_listed(
        f,
        rows,
        RequestState::Fulfilled,
        false,
        JsonV::Obj(seq![("reason"@, JsonV::Str(state.word())), ("task"@, JsonV::Str(id))]),
        now,
        i,
    );
}

/// Preempting answers nobody: the symbol has a new holder, it is not free.
pub proof fn law_preemption_answers_nobody(s: StoreV, l: LeaseRowV, now: i64)
    ensures
        s.finish_lease(l, LeaseState::Preempted, "preempted"@, now).requests == s.requests,
{
}

} // verus!
