//! Agent-to-agent coordination.
//!
//! A typed request and response protocol with deadlines, so that an agent that
//! is blocked can ask the agent blocking it. Three things make it work without
//! a person in between:
//!
//! - Accepting a `lease-transfer` performs the transfer.
//! - Requests resolve themselves: releasing a symbol somebody asked for fulfils
//!   the request, finishing a task somebody waits on clears the dependency.
//! - Deadlines expire.

use vstd::prelude::*;
use vstd::string::*;

use crate::json::{opt_int, opt_text, Json, JsonV};
use crate::members::{members_of, object_of, place_all, put_all};
use crate::model::{Request, RequestState, RequestV};
use crate::order::{rank, sorted, stable_sort, Ranked};
use crate::request_kind;
use crate::store::{
    append, fail, fail_about, failure, first_where, law_filter_step, law_first_where, lemma_request_ids_kept,
    no_rows, put, request_ids_differ, sane_ttl, seen, ErrorKind,
    RequestRow, RequestRowV, Store, StoreError, StoreErrorV, StoreV, Tick,
};
use crate::text::{cat, cat3, same};

verus! {

broadcast use vstd::string::group_string_axioms;

/// Everything needed to open a request. Only kind, sender and subject are really
/// required; the rest sharpens it.
#[derive(Debug)]
pub struct NewRequest {
    pub kind: String,
    pub from: String,
    /// `None` broadcasts to the whole workspace.
    pub to: Option<String>,
    pub subject: String,
    pub body: Json,
    pub resource_symbol: Option<String>,
    pub resource_task: Option<String>,
    pub task: Option<String>,
    pub priority: i64,
    /// Seconds from now.
    pub deadline_secs: Option<i64>,
}

/// The contents of a [`NewRequest`].
pub struct NewRequestV {
    pub kind: Seq<char>,
    pub from: Seq<char>,
    pub to: Option<Seq<char>>,
    pub subject: Seq<char>,
    pub body: JsonV,
    pub resource_symbol: Option<Seq<char>>,
    pub resource_task: Option<Seq<char>>,
    pub task: Option<Seq<char>>,
    pub priority: i64,
    pub deadline_secs: Option<i64>,
}

impl DeepView for NewRequest {
    type V = NewRequestV;

    open spec fn deep_view(&self) -> NewRequestV {
        NewRequestV {
            kind: self.kind@,
            from: self.from@,
            to: self.to.deep_view(),
            subject: self.subject@,
            body: self.body.deep_view(),
            resource_symbol: self.resource_symbol.deep_view(),
            resource_task: self.resource_task.deep_view(),
            task: self.task.deep_view(),
            priority: self.priority,
            deadline_secs: self.deadline_secs,
        }
    }
}

impl Clone for NewRequest {
    fn clone(&self) -> (r: Self)
        ensures
            r.deep_view() == self.deep_view(),
    {
        let r = NewRequest {
            kind: self.kind.clone(),
            from: self.from.clone(),
            to: self.to.clone(),
            subject: self.subject.clone(),
            body: self.body.clone(),
            resource_symbol: self.resource_symbol.clone(),
            resource_task: self.resource_task.clone(),
            task: self.task.clone(),
            priority: self.priority,
            deadline_secs: self.deadline_secs,
        };
        r
    }
}

impl NewRequest {
    /// A broadcast without body, resource or deadline.
    pub fn new(kind: &str, from: &str, subject: &str) -> (r: NewRequest)
        ensures
            r.deep_view() == (NewRequestV {
                kind: kind@,
                from: from@,
                to: None,
                subject: subject@,
                body: JsonV::Obj(Seq::empty()),
                resource_symbol: None,
                resource_task: None,
                task: None,
                priority: 0,
                deadline_secs: None,
            }),
    {
        NewRequest {
            kind: kind.to_owned(),
            from: from.to_owned(),
            to: None,
            subject: subject.to_owned(),
            body: Json::object(),
            resource_symbol: None,
            resource_task: None,
            task: None,
            priority: 0,
            deadline_secs: None,
        }
    }
}

/// Which side of the conversation to list.
#[derive(Debug, Clone, Copy, PartialEq, Eq, Structural)]
pub enum Direction {
    /// Addressed to me, plus broadcasts.
    Inbox,
    /// Opened by me.
    Outbox,
    /// Everything in the workspace.
    All,
}

// ------------------------------------------------------------------ one request

/// The event that a request's new state is reported by.
pub open spec fn state_event(state: RequestState) -> Seq<char> {
    match state {
        RequestState::Accepted => "request.accepted"@,
        RequestState::Declined => "request.declined"@,
        RequestState::Fulfilled => "request.fulfilled"@,
        RequestState::Cancelled => "request.cancelled"@,
        RequestState::Expired => "request.expired"@,
        RequestState::Open => "request.reopened"@,
    }
}

/// The row once it was answered. Accepting is no end; anything else is.
pub open spec fn answered(
    r: RequestRowV,
    state: RequestState,
    resolver: Seq<char>,
    response: Option<JsonV>,
    now: i64,
) -> RequestRowV {
    RequestRowV {
        state,
        resolver: Some(resolver),
        response: match response {
            Some(j) => Some(j),
            None => r.response,
        },
        resolved_at: if state is Accepted {
            r.resolved_at
        } else {
            Some(now)
        },
        ..r
    }
}

/// Who answers for a request that resolves itself: its addressee, or its sender
/// where it was a broadcast.
pub open spec fn answerer(r: RequestRowV) -> Seq<char> {
    match r.to {
        Some(a) => a,
        None => r.from,
    }
}

/// Is the deadline over without an answer?
pub open spec fn overdue(r: RequestRowV, now: i64) -> bool {
    r.state.live() && (r.deadline_at matches Some(d) && d <= now)
}

/// Does the request still ask for the symbol to be handed over?
pub open spec fn wants_symbol(r: RequestRowV, symbol: Seq<char>) -> bool {
    r.resource_symbol == Some(symbol) && r.state.live() && r.kind == request_kind::LEASE_TRANSFER@
}

/// Does the request still wait for the task?
pub open spec fn wants_task(r: RequestRowV, task: Seq<char>) -> bool {
    r.resource_task == Some(task) && r.state.live()
}

/// Does the request belong to a listing?
pub open spec fn listed(
    r: RequestRowV,
    agent: Option<Seq<char>>,
    direction: Direction,
    live_only: bool,
) -> bool {
    &&& match (direction, agent) {
        (Direction::Inbox, Some(a)) => (r.to == Some(a) || r.to is None) && r.from != a,
        (Direction::Outbox, Some(a)) => r.from == a,
        _ => true,
    }
    &&& live_only ==> r.state.live()
}

/// Why `agent` may not answer: the request is over, accepted already where that
/// matters, addressed to somebody else, or the agent's own.
pub open spec fn refusal(r: RequestRowV, agent: Seq<char>, require_open: bool) -> Option<
    StoreErrorV,
> {
    if !r.state.live() || (require_open && !(r.state is Open)) {
        Some(
            failure(
                ErrorKind::AlreadyAnswered,
                "request "@ + r.id + " is already "@ + r.state.word(),
            ),
        )
    } else if r.to matches Some(to) && to != agent {
        Some(
            failure(
                ErrorKind::NotAddressee,
                "request "@ + r.id + " is addressed to "@ + r.to->0 + ", not "@ + agent,
            ),
        )
    } else if r.from == agent {
        Some(failure(ErrorKind::OwnRequest, agent + " opened that request; use cancel instead"@))
    } else {
        None
    }
}

/// The largest of some sequence numbers, and zero.
pub open spec fn top_seq(rows: Seq<RequestRowV>) -> i64
    decreases rows.len(),
{
    if rows.len() == 0 {
        0
    } else if rows.last().seq > top_seq(rows.drop_last()) {
        rows.last().seq
    } else {
        top_seq(rows.drop_last())
    }
}

/// The number after `n`, if there is one.
pub open spec fn after(n: i64) -> i64 {
    if n < i64::MAX {
        (n + 1) as i64
    } else {
        i64::MAX
    }
}

pub(crate) fn next(n: i64) -> (r: i64)
    ensures
        r == after(n),
{
    if n < i64::MAX {
        n + 1
    } else {
        i64::MAX
    }
}

/// `base` with the members of `extra` put in; `extra` alone unless both are objects.
pub open spec fn merged(base: JsonV, extra: JsonV) -> JsonV {
    match (base, extra) {
        (JsonV::Obj(a), JsonV::Obj(b)) => JsonV::Obj(put_all(a, b)),
        _ => extra,
    }
}

/// `base` with the members of `extra` put in; `extra` alone unless both are objects.
pub fn merge(base: Json, extra: Json) -> (r: Json)
    ensures
        r.deep_view() == merged(base.deep_view(), extra.deep_view()),
{
    match (&base, &extra) {
        (Json::Obj(_), Json::Obj(_)) => object_of(
            place_all(members_of(Some(&base)), &members_of(Some(&extra))),
        ),
        _ => extra,
    }
}

impl StoreV {
    /// The handle of a symbol as tables show it, where the symbol exists.
    pub open spec fn row_handle(self, symbol: Option<Seq<char>>) -> Option<Seq<char>> {
        match symbol {
            Some(id) => match self.symbol(id) {
                Some(s) => Some(s.row_handle()),
                None => None,
            },
            None => None,
        }
    }

    /// The handle of a symbol as events show it, where the symbol exists.
    pub open spec fn full_handle(self, symbol: Option<Seq<char>>) -> Option<Seq<char>> {
        match symbol {
            Some(id) => match self.symbol(id) {
                Some(s) => Some(s.handle()),
                None => None,
            },
            None => None,
        }
    }

    /// The request that a row shows as.
    pub open spec fn request_of(self, r: RequestRowV) -> RequestV {
        RequestV {
            id: r.id,
            kind: r.kind,
            from: r.from,
            to: r.to,
            subject: r.subject,
            body: r.body,
            resource_symbol: r.resource_symbol,
            resource_handle: self.row_handle(r.resource_symbol),
            resource_task: r.resource_task,
            task: r.task,
            priority: r.priority,
            state: r.state,
            created_at: r.created_at,
            deadline_at: r.deadline_at,
            resolved_at: r.resolved_at,
            resolver: r.resolver,
            response: r.response,
        }
    }

    /// The row of the request with this id.
    pub open spec fn request_row(self, id: Seq<char>) -> Option<RequestRowV> {
        first_where(self.requests, |r: RequestRowV| r.id == id)
    }

    /// The request with this id.
    pub open spec fn request(self, id: Seq<char>) -> Option<RequestV> {
        match self.request_row(id) {
            Some(r) => Some(self.request_of(r)),
            None => None,
        }
    }

    /// The state once a request was answered, with the event that says so.
    pub open spec fn resolve_request(
        self,
        row: RequestRowV,
        state: RequestState,
        resolver: Seq<char>,
        response: Option<JsonV>,
        now: i64,
    ) -> StoreV {
        StoreV {
            requests: self.requests.map_values(
                |r: RequestRowV|
                    if r.id == row.id {
                        answered(r, state, resolver, response, now)
                    } else {
                        r
                    },
            ),
            ..self
        }.emit(
            now,
            state_event(state),
            Some(resolver),
            self.row_handle(row.resource_symbol),
            row.task,
            JsonV::Obj(
                seq![
                    ("request"@, JsonV::Str(row.id)),
                    ("kind"@, JsonV::Str(row.kind)),
                    ("requester"@, JsonV::Str(row.from)),
                    (
                        "response"@,
                        match response {
                            Some(j) => j,
                            None => JsonV::Null,
                        },
                    ),
                ],
            ),
        )
    }

    /// The state once every row of a list was answered in turn.
    pub open spec fn resolve_each(
        self,
        rows: Seq<RequestRowV>,
        state: RequestState,
        by_sender: bool,
        response: JsonV,
        now: i64,
    ) -> StoreV
        decreases rows.len(),
    {
        if rows.len() == 0 {
            self
        } else {
            let row = rows.last();
            let who = if by_sender {
                row.from
            } else {
                answerer(row)
            };
            self.resolve_each(rows.drop_last(), state, by_sender, response, now).resolve_request(
                row,
                state,
                who,
                Some(response),
                now,
            )
        }
    }

    /// The requests whose deadline is over.
    pub open spec fn overdue_requests(self, now: i64) -> Seq<RequestRowV> {
        self.requests.filter(|r: RequestRowV| overdue(r, now))
    }

    /// The state once overdue requests have expired.
    pub open spec fn expire_requests(self, now: i64) -> StoreV {
        self.resolve_each(
            self.overdue_requests(now),
            RequestState::Expired,
            true,
            JsonV::Obj(seq![("reason"@, JsonV::Str("deadline passed with no answer"@))]),
            now,
        )
    }

    /// The state once everybody who asked for a symbol has been answered.
    pub open spec fn resolve_symbol_requests(
        self,
        symbol: Seq<char>,
        reason: Seq<char>,
        now: i64,
    ) -> StoreV {
        self.resolve_each(
            self.requests.filter(|r: RequestRowV| wants_symbol(r, symbol)),
            RequestState::Fulfilled,
            false,
            JsonV::Obj(
                seq![("reason"@, JsonV::Str(reason)), ("symbol_free"@, JsonV::Bool(true))],
            ),
            now,
        )
    }

    /// The state once everybody who waited for a task has been answered.
    pub open spec fn resolve_task_requests(
        self,
        task: Seq<char>,
        reason: Seq<char>,
        now: i64,
    ) -> StoreV {
        self.resolve_each(
            self.requests.filter(|r: RequestRowV| wants_task(r, task)),
            RequestState::Fulfilled,
            false,
            JsonV::Obj(seq![("reason"@, JsonV::Str(reason)), ("task"@, JsonV::Str(task))]),
            now,
        )
    }

    /// The row of a request that is being opened.
    pub open spec fn new_request_row(self, q: NewRequestV, t: Tick) -> RequestRowV {
        RequestRowV {
            id: self.fresh("req"@, t),
            seq: after(top_seq(self.requests)),
            kind: q.kind,
            from: q.from,
            to: q.to,
            subject: q.subject,
            body: q.body,
            resource_symbol: q.resource_symbol,
            resource_task: q.resource_task,
            task: q.task,
            priority: q.priority,
            state: RequestState::Open,
            created_at: t.now,
            deadline_at: match q.deadline_secs {
                Some(d) => Some((t.now + d * 1000) as i64),
                None => None,
            },
            resolved_at: None,
            resolver: None,
            response: None,
        }
    }

    /// Opening a request: nobody can send one to themselves.
    pub open spec fn open_request(self, q: NewRequestV, t: Tick) -> (
        StoreV,
        Result<RequestV, StoreErrorV>,
    ) {
        let row = self.new_request_row(q, t);
        if q.to == Some(q.from) {
            (self, Err(failure(ErrorKind::ToSelf, "an agent cannot send a request to itself"@)))
        } else if self.request_row(row.id) is Some {
            (self, Err(failure(ErrorKind::Duplicate, "id is taken: "@ + row.id)))
        } else {
            let s = StoreV { requests: self.requests.push(row), ..self.counted() }.emit(
                t.now,
                "request.opened"@,
                Some(q.from),
                self.full_handle(q.resource_symbol),
                q.task,
                JsonV::Obj(
                    seq![
                        ("request"@, JsonV::Str(row.id)),
                        ("kind"@, JsonV::Str(q.kind)),
                        ("to"@, opt_text(q.to)),
                        ("subject"@, JsonV::Str(q.subject)),
                        ("deadline_at"@, opt_int(row.deadline_at)),
                    ],
                ),
            );
            (s, Ok(self.request_of(row)))
        }
    }

    /// Answering a request in one step, where `agent` may.
    pub open spec fn answer(
        self,
        id: Seq<char>,
        agent: Seq<char>,
        state: RequestState,
        response: Option<JsonV>,
        now: i64,
    ) -> (StoreV, Result<RequestV, StoreErrorV>) {
        match self.request_row(id) {
            None => (self, Err(failure(ErrorKind::NoSuchRequest, "no such request: "@ + id))),
            Some(row) => match refusal(row, agent, false) {
                Some(e) => (self, Err(e)),
                None => (
                    self.resolve_request(row, state, agent, response, now),
                    Ok(self.request_of(answered(row, state, agent, response, now))),
                ),
            },
        }
    }

    /// Withdrawing a request: only its sender may, and only while it is live.
    pub open spec fn cancel_request(self, id: Seq<char>, agent: Seq<char>, now: i64) -> (
        StoreV,
        Result<RequestV, StoreErrorV>,
    ) {
        match self.request_row(id) {
            None => (self, Err(failure(ErrorKind::NoSuchRequest, "no such request: "@ + id))),
            Some(row) => if row.from != agent {
                (
                    self,
                    Err(
                        failure(
                            ErrorKind::NotSender,
                            "only "@ + row.from + " can cancel that request"@,
                        ),
                    ),
                )
            } else if !row.state.live() {
                (
                    self,
                    Err(
                        failure(
                            ErrorKind::AlreadyAnswered,
                            "request is already "@ + row.state.word(),
                        ),
                    ),
                )
            } else {
                (
                    self.resolve_request(row, RequestState::Cancelled, agent, None, now),
                    Ok(
                        self.request_of(
                            answered(row, RequestState::Cancelled, agent, None, now),
                        ),
                    ),
                )
            },
        }
    }
}

impl Ranked for RequestRow {
    /// Higher priority first, then by arrival.
    open spec fn before(a: RequestRowV, b: RequestRowV) -> bool {
        a.priority > b.priority || (a.priority == b.priority && a.seq < b.seq)
    }

    fn is_before(&self, other: &Self) -> (r: bool) {
        self.priority > other.priority || (self.priority == other.priority && self.seq
            < other.seq)
    }
}

proof fn lemma_first_mapped(
    rows: Seq<RequestRowV>,
    id: Seq<char>,
    state: RequestState,
    resolver: Seq<char>,
    response: Option<JsonV>,
    now: i64,
)
    ensures
        ({
            let f = |r: RequestRowV|
                if r.id == id {
                    answered(r, state, resolver, response, now)
                } else {
                    r
                };
            let p = |r: RequestRowV| r.id == id;
            first_where(rows.map_values(f), p) == (match first_where(rows, p) {
                Some(r) => Some(answered(r, state, resolver, response, now)),
                None => None,
            })
        }),
    decreases rows.len(),
{
    let f = |r: RequestRowV|
        if r.id == id {
            answered(r, state, resolver, response, now)
        } else {
            r
        };
    if rows.len() > 0 {
        lemma_first_mapped(rows.drop_first(), id, state, resolver, response, now);
        assert(rows.map_values(f).drop_first() =~= rows.drop_first().map_values(f));
    }
}

impl Store {
    /// Where the request with this id stands.
    pub(crate) fn request_at(&self, id: &str) -> (r: Option<usize>)
        ensures
            match r {
                Some(i) => i < self.requests@.len() && self@.request_row(id@) == Some(
                    self.requests@[i as int].deep_view(),
                ) && self.requests@[i as int].id@ == id@,
                None => self@.request_row(id@) is None,
            },
    {
        let ghost all = self@.requests;
        let ghost p = |s: RequestRowV| s.id == id@;
        let mut i: usize = 0;
        assert(all.skip(0) =~= all);
        while i < self.requests.len()
            invariant
                all == self@.requests,
                i <= self.requests@.len(),
                p == (|s: RequestRowV| s.id == id@),
                first_where(all, p) == first_where(all.skip(i as int), p),
            decreases self.requests@.len() - i,
        {
            assert(all.skip(i as int)[0] == self.requests@[i as int].deep_view());
            assert(all.skip(i as int).drop_first() =~= all.skip(i + 1));
            if same(self.requests[i].id.as_str(), id) {
                return Some(i);
            }
            i += 1;
        }
        None
    }

    /// The handle of a symbol as tables show it.
    pub(crate) fn row_handle(&self, symbol: &Option<String>) -> (r: Option<String>)
        ensures
            r.deep_view() == self@.row_handle(symbol.deep_view()),
    {
        match symbol {
            Some(id) => match self.symbol_at(id.as_str()) {
                Some(i) => Some(self.symbols[i].row_handle()),
                None => None,
            },
            None => None,
        }
    }

    /// The handle of a symbol as events show it.
    pub(crate) fn full_handle(&self, symbol: &Option<String>) -> (r: Option<String>)
        ensures
            r.deep_view() == self@.full_handle(symbol.deep_view()),
    {
        match symbol {
            Some(id) => match self.symbol_at(id.as_str()) {
                Some(i) => Some(self.symbols[i].handle()),
                None => None,
            },
            None => None,
        }
    }

    /// The request that a row shows as.
    pub(crate) fn request_of(&self, r: &RequestRow) -> (q: Request)
        ensures
            q.deep_view() == self@.request_of(r.deep_view()),
    {
        let r = r.clone();
        Request {
            resource_handle: self.row_handle(&r.resource_symbol),
            id: r.id,
            kind: r.kind,
            from: r.from,
            to: r.to,
            subject: r.subject,
            body: r.body,
            resource_symbol: r.resource_symbol,
            resource_task: r.resource_task,
            task: r.task,
            priority: r.priority,
            state: r.state,
            created_at: r.created_at,
            deadline_at: r.deadline_at,
            resolved_at: r.resolved_at,
            resolver: r.resolver,
            response: r.response,
        }
    }

    /// Answers a request and says so in an event.
    pub(crate) fn resolve_request(
        &mut self,
        row: &RequestRow,
        state: RequestState,
        resolver: &str,
        response: Option<Json>,
        now: i64,
    )
        ensures
            final(self)@ == old(self)@.resolve_request(
                row.deep_view(),
                state,
                resolver@,
                response.deep_view(),
                now,
            ),
    {
        let handle = self.row_handle(&row.resource_symbol);
        let ghost before = self@.requests;
        let ghost s0 = self@;
        let ghost rv = response.deep_view();
        let ghost f = |r: RequestRowV|
            if r.id == row.id@ {
                answered(r, state, resolver@, rv, now)
            } else {
                r
            };
        let mut i: usize = 0;
        while i < self.requests.len()
            invariant
                i <= self.requests@.len(),
                self@ == (StoreV { requests: self@.requests, ..s0 }),
                self@.requests.len() == before.len(),
                rv == response.deep_view(),
                f == (|r: RequestRowV|
                    if r.id == row.id@ {
                        answered(r, state, resolver@, rv, now)
                    } else {
                        r
                    }),
                forall|k: int| 0 <= k < i ==> #[trigger] self@.requests[k] == f(before[k]),
                forall|k: int|
                    i <= k < before.len() ==> #[trigger] self@.requests[k] == before[k],
            decreases self.requests@.len() - i,
        {
            assert(self@.requests[i as int] == self.requests@[i as int].deep_view());
            if same(self.requests[i].id.as_str(), row.id.as_str()) {
                let mut r = self.requests[i].clone();
                r.state = state;
                r.resolver = Some(resolver.to_owned());
                if let Some(j) = &response {
                    r.response = Some(j.clone());
                }
                if state != RequestState::Accepted {
                    r.resolved_at = Some(now);
                }
                put(&mut self.requests, i, r);
            }
            i += 1;
        }
        assert(self@.requests =~= before.map_values(f));
        let kind = match state {
            RequestState::Accepted => "request.accepted",
            RequestState::Declined => "request.declined",
            RequestState::Fulfilled => "request.fulfilled",
            RequestState::Cancelled => "request.cancelled",
            RequestState::Expired => "request.expired",
            RequestState::Open => "request.reopened",
        };
        let reply = match response {
            Some(j) => j,
            None => Json::Null,
        };
        let detail = Json::object().with("request", Json::str(row.id.as_str())).with(
            "kind",
            Json::str(row.kind.as_str()),
        ).with("requester", Json::str(row.from.as_str())).with("response", reply);
        let ghost want = seq![
            ("request"@, JsonV::Str(row.id@)),
            ("kind"@, JsonV::Str(row.kind@)),
            ("requester"@, JsonV::Str(row.from@)),
            (
                "response"@,
                match rv {
                    Some(j) => j,
                    None => JsonV::Null,
                },
            ),
        ];
        assert(detail.deep_view()->Obj_0 =~= want);
        self.emit(now, kind, Some(resolver.to_owned()), handle, row.task.clone(), detail);
    }

    /// Answers every row of a list in turn.
    fn resolve_each(
        &mut self,
        rows: &Vec<RequestRow>,
        state: RequestState,
        by_sender: bool,
        response: &Json,
        now: i64,
    )
        ensures
            final(self)@ == old(self)@.resolve_each(
                rows.deep_view(),
                state,
                by_sender,
                response.deep_view(),
                now,
            ),
    {
        let ghost s0 = self@;
        let ghost all = rows.deep_view();
        let mut i: usize = 0;
        while i < rows.len()
            invariant
                i <= rows@.len(),
                all == rows.deep_view(),
                self@ == s0.resolve_each(
                    all.take(i as int),
                    state,
                    by_sender,
                    response.deep_view(),
                    now,
                ),
            decreases rows@.len() - i,
        {
            let row = &rows[i];
            proof {
                assert(all.take(i + 1).drop_last() =~= all.take(i as int));
                assert(all.take(i + 1).last() == row.deep_view());
            }
            let who = if by_sender {
                row.from.clone()
            } else {
                match &row.to {
                    Some(a) => a.clone(),
                    None => row.from.clone(),
                }
            };
            self.resolve_request(row, state, who.as_str(), Some(response.clone()), now);
            i += 1;
        }
        assert(all.take(i as int) =~= all);
    }

    fn overdue_requests(&self, now: i64) -> (r: Vec<RequestRow>)
        ensures
            r.deep_view() == self@.overdue_requests(now),
    {
        let ghost all = self@.requests;
        let ghost p = |r: RequestRowV| overdue(r, now);
        let mut out: Vec<RequestRow> = no_rows();
        let mut i: usize = 0;
        assert(all.take(0).filter(p) =~= Seq::empty());
        while i < self.requests.len()
            invariant
                all == self@.requests,
                i <= self.requests@.len(),
                p == (|r: RequestRowV| overdue(r, now)),
                out.deep_view() == all.take(i as int).filter(p),
            decreases self.requests@.len() - i,
        {
            let r = &self.requests[i];
            proof {
                assert(all[i as int] == r.deep_view());
                law_filter_step(all, p, i as int);
            }
            let late = match r.deadline_at {
                Some(d) => d <= now,
                None => false,
            };
            if r.state.is_live() && late {
                append(&mut out, r.clone());
            }
            i += 1;
        }
        assert(all.take(i as int) =~= all);
        out
    }

    /// Retires requests whose deadline passed; tells how many.
    pub fn expire_requests(&mut self, now: i64) -> (n: usize)
        ensures
            final(self)@ == old(self)@.expire_requests(now),
            n == old(self)@.overdue_requests(now).len(),
            old(self)@.wf() ==> final(self)@.wf(),
    {
        proof {
            crate::lease::lemma_resolve_keeps(
                self@,
                self@.overdue_requests(now),
                RequestState::Expired,
                true,
                JsonV::Obj(seq![("reason"@, JsonV::Str("deadline passed with no answer"@))]),
                now,
            );
        }
        let due = self.overdue_requests(now);
        let response = Json::object().with(
            "reason",
            Json::str("deadline passed with no answer"),
        );
        assert(response.deep_view()->Obj_0 =~= seq![
            ("reason"@, JsonV::Str("deadline passed with no answer"@)),
        ]);
        self.resolve_each(&due, RequestState::Expired, true, &response, now);
        due.len()
    }

    /// Answers everybody who asked for a symbol; tells how many.
    pub(crate) fn resolve_symbol_requests(&mut self, symbol: &str, reason: &str, now: i64)
        ensures
            final(self)@ == old(self)@.resolve_symbol_requests(symbol@, reason@, now),
    {
        let ghost all = self@.requests;
        let ghost p = |r: RequestRowV| wants_symbol(r, symbol@);
        let mut open: Vec<RequestRow> = no_rows();
        let mut i: usize = 0;
        assert(all.take(0).filter(p) =~= Seq::empty());
        while i < self.requests.len()
            invariant
                all == self@.requests,
                *self == *old(self),
                i <= self.requests@.len(),
                p == (|r: RequestRowV| wants_symbol(r, symbol@)),
                open.deep_view() == all.take(i as int).filter(p),
            decreases self.requests@.len() - i,
        {
            let r = &self.requests[i];
            proof {
                assert(all[i as int] == r.deep_view());
                law_filter_step(all, p, i as int);
            }
            let about = match &r.resource_symbol {
                Some(s) => same(s.as_str(), symbol),
                None => false,
            };
            if about && r.state.is_live() && same(r.kind.as_str(), request_kind::LEASE_TRANSFER) {
                append(&mut open, r.clone());
            }
            i += 1;
        }
        assert(all.take(i as int) =~= all);
        let response = Json::object().with("reason", Json::str(reason)).with(
            "symbol_free",
            Json::Bool(true),
        );
        assert(response.deep_view()->Obj_0 =~= seq![
            ("reason"@, JsonV::Str(reason@)),
            ("symbol_free"@, JsonV::Bool(true)),
        ]);
        self.resolve_each(&open, RequestState::Fulfilled, false, &response, now);
    }

    /// Answers everybody who waited for a task.
    pub(crate) fn resolve_task_requests(&mut self, task: &str, reason: &str, now: i64)
        ensures
            final(self)@ == old(self)@.resolve_task_requests(task@, reason@, now),
    {
        let ghost all = self@.requests;
        let ghost p = |r: RequestRowV| wants_task(r, task@);
        let mut open: Vec<RequestRow> = no_rows();
        let mut i: usize = 0;
        assert(all.take(0).filter(p) =~= Seq::empty());
        while i < self.requests.len()
            invariant
                all == self@.requests,
                *self == *old(self),
                i <= self.requests@.len(),
                p == (|r: RequestRowV| wants_task(r, task@)),
                open.deep_view() == all.take(i as int).filter(p),
            decreases self.requests@.len() - i,
        {
            let r = &self.requests[i];
            proof {
                assert(all[i as int] == r.deep_view());
                law_filter_step(all, p, i as int);
            }
            let about = match &r.resource_task {
                Some(s) => same(s.as_str(), task),
                None => false,
            };
            if about && r.state.is_live() {
                append(&mut open, r.clone());
            }
            i += 1;
        }
        assert(all.take(i as int) =~= all);
        let response = Json::object().with("reason", Json::str(reason)).with(
            "task",
            Json::str(task),
        );
        assert(response.deep_view()->Obj_0 =~= seq![
            ("reason"@, JsonV::Str(reason@)),
            ("task"@, JsonV::Str(task@)),
        ]);
        self.resolve_each(&open, RequestState::Fulfilled, false, &response, now);
    }

    fn top_seq(&self) -> (r: i64)
        ensures
            r == top_seq(self@.requests),
    {
        let ghost all = self@.requests;
        let mut top: i64 = 0;
        let mut i: usize = 0;
        while i < self.requests.len()
            invariant
                all == self@.requests,
                i <= self.requests@.len(),
                top == top_seq(all.take(i as int)),
            decreases self.requests@.len() - i,
        {
            proof {
                assert(all.take(i + 1).drop_last() =~= all.take(i as int));
                assert(all.take(i + 1).last() == self.requests@[i as int].deep_view());
            }
            if self.requests[i].seq > top {
                top = self.requests[i].seq;
            }
            i += 1;
        }
        assert(all.take(i as int) =~= all);
        top
    }

    /// Open a request. A broadcast is legitimate: "does anyone own the payments
    /// schema?" has no obvious recipient.
    pub fn open_request(&mut self, req: &NewRequest, t: Tick) -> (r: Result<Request, StoreError>)
        requires
            t.ok(),
            req.deadline_secs matches Some(d) ==> sane_ttl(d),
        ensures
            (final(self)@, seen(r)) == old(self)@.open_request(req.deep_view(), t),
            old(self)@.wf() ==> final(self)@.wf(),
    {
        let ghost s0 = self@;
        if let Some(to) = &req.to {
            if same(to.as_str(), req.from.as_str()) {
                return Err(
                    fail(
                        ErrorKind::ToSelf,
                        "an agent cannot send a request to itself".to_owned(),
                    ),
                );
            }
        }
        let handle = self.full_handle(&req.resource_symbol);
        let top = self.top_seq();
        let id = crate::ids::unique_id("req", t.nanos, self.counter, t.pid);
        if self.request_at(id.as_str()).is_some() {
            return Err(fail_about(ErrorKind::Duplicate, "id is taken: ", id.as_str()));
        }
        let id = self.make_id("req", t);
        let q = req.clone();
        let deadline_at = match q.deadline_secs {
            Some(d) => Some(t.now + d * 1000),
            None => None,
        };
        let detail = Json::object().with("request", Json::str(id.as_str())).with(
            "kind",
            Json::str(q.kind.as_str()),
        ).with("to", Json::opt(&q.to)).with("subject", Json::str(q.subject.as_str())).with(
            "deadline_at",
            Json::opt_int(deadline_at),
        );
        let row = RequestRow {
            id,
            seq: next(top),
            kind: q.kind,
            from: q.from,
            to: q.to,
            subject: q.subject,
            body: q.body,
            resource_symbol: q.resource_symbol,
            resource_task: q.resource_task,
            task: q.task,
            priority: q.priority,
            state: RequestState::Open,
            created_at: t.now,
            deadline_at,
            resolved_at: None,
            resolver: None,
            response: None,
        };
        proof {
            assert(row.deep_view() == s0.new_request_row(req.deep_view(), t));
            assert(detail.deep_view()->Obj_0 =~= seq![
                ("request"@, JsonV::Str(row.id@)),
                ("kind"@, JsonV::Str(req.kind@)),
                ("to"@, opt_text(req.to.deep_view())),
                ("subject"@, JsonV::Str(req.subject@)),
                ("deadline_at"@, opt_int(row.deadline_at)),
            ]);
        }
        let from = row.from.clone();
        let task = row.task.clone();
        let shown = self.request_of(&row);
        let ghost rv = row.deep_view();
        append(&mut self.requests, row);
        self.emit(t.now, "request.opened", Some(from), handle, task, detail);
        proof {
            law_first_where(s0.requests, |r: RequestRowV| r.id == rv.id);
            if request_ids_differ(s0.requests) {
                assert(request_ids_differ(s0.requests.push(rv)));
            }
        }
        Ok(shown)
    }

    /// The request with this id.
    pub fn request(&self, id: &str) -> (r: Option<Request>)
        ensures
            r.deep_view() == self@.request(id@),
    {
        match self.request_at(id) {
            Some(i) => Some(self.request_of(&self.requests[i])),
            None => None,
        }
    }

    /// List requests, higher priority first. `live_only` hides everything
    /// already answered.
    pub fn requests(&self, agent: &Option<String>, direction: Direction, live_only: bool) -> (r:
        Vec<Request>)
        ensures
            r.deep_view() == sorted(
                self@.requests.filter(
                    |q: RequestRowV| listed(q, agent.deep_view(), direction, live_only),
                ),
                rank::<RequestRow>(),
            ).map_values(|q: RequestRowV| self@.request_of(q)),
    {
        let ghost all = self@.requests;
        let ghost p = |q: RequestRowV| listed(q, agent.deep_view(), direction, live_only);
        let mut rows: Vec<RequestRow> = no_rows();
        let mut i: usize = 0;
        assert(all.take(0).filter(p) =~= Seq::empty());
        while i < self.requests.len()
            invariant
                all == self@.requests,
                i <= self.requests@.len(),
                p == (|q: RequestRowV| listed(q, agent.deep_view(), direction, live_only)),
                rows.deep_view() == all.take(i as int).filter(p),
            decreases self.requests@.len() - i,
        {
            let q = &self.requests[i];
            proof {
                assert(all[i as int] == q.deep_view());
                law_filter_step(all, p, i as int);
            }
            let side = match (direction, agent) {
                (Direction::Inbox, Some(a)) => {
                    let mine = match &q.to {
                        Some(to) => same(to.as_str(), a.as_str()),
                        None => true,
                    };
                    mine && !same(q.from.as_str(), a.as_str())
                },
                (Direction::Outbox, Some(a)) => same(q.from.as_str(), a.as_str()),
                _ => true,
            };
            if side && (!live_only || q.state.is_live()) {
                append(&mut rows, q.clone());
            }
            i += 1;
        }
        assert(all.take(i as int) =~= all);
        let rows = stable_sort(rows);
        let ghost rv = rows.deep_view();
        let ghost g = |q: RequestRowV| self@.request_of(q);
        let mut out: Vec<Request> = no_rows();
        let mut k: usize = 0;
        while k < rows.len()
            invariant
                rv == rows.deep_view(),
                k <= rows@.len(),
                g == (|q: RequestRowV| self@.request_of(q)),
                out.deep_view() =~= rv.take(k as int).map_values(g),
            decreases rows@.len() - k,
        {
            append(&mut out, self.request_of(&rows[k]));
            assert(rv.take(k + 1).map_values(g) =~= rv.take(k as int).map_values(g).push(
                g(rv[k as int]),
            ));
            k += 1;
        }
        assert(rv.take(k as int) =~= rv);
        out
    }

    /// Why `agent` may not answer, if so.
    fn guard_responder(&self, r: &RequestRow, agent: &str, require_open: bool) -> (e: Option<
        StoreError,
    >)
        ensures
            e.deep_view() == refusal(r.deep_view(), agent@, require_open),
    {
        if !r.state.is_live() || (require_open && r.state != RequestState::Open) {
            let head = cat3("request ", r.id.as_str(), " is already ");
            return Some(
                fail(ErrorKind::AlreadyAnswered, cat(head.as_str(), r.state.as_str())),
            );
        }
        if let Some(to) = &r.to {
            if !same(to.as_str(), agent) {
                let head = cat3("request ", r.id.as_str(), " is addressed to ");
                let mid = cat3(head.as_str(), to.as_str(), ", not ");
                return Some(fail(ErrorKind::NotAddressee, cat(mid.as_str(), agent)));
            }
        }
        if same(r.from.as_str(), agent) {
            return Some(
                fail(
                    ErrorKind::OwnRequest,
                    cat(agent, " opened that request; use cancel instead"),
                ),
            );
        }
        None
    }

    /// Answers a request, where `agent` may.
    fn answer(
        &mut self,
        id: &str,
        agent: &str,
        state: RequestState,
        response: Option<Json>,
        now: i64,
    ) -> (r: Result<Request, StoreError>)
        ensures
            (final(self)@, seen(r)) == old(self)@.answer(
                id@,
                agent@,
                state,
                response.deep_view(),
                now,
            ),
            old(self)@.wf() ==> final(self)@.wf(),
    {
        let row = match self.request_at(id) {
            Some(i) => self.requests[i].clone(),
            None => {
                return Err(fail_about(ErrorKind::NoSuchRequest, "no such request: ", id));
            },
        };
        if let Some(e) = self.guard_responder(&row, agent, false) {
            return Err(e);
        }
        self.settle(row, state, agent, response, now)
    }

    /// Answers a request that was just read, and shows it.
    pub(crate) fn settle(
        &mut self,
        row: RequestRow,
        state: RequestState,
        agent: &str,
        response: Option<Json>,
        now: i64,
    ) -> (r: Result<Request, StoreError>)
        requires
            old(self)@.request_row(row.id@) == Some(row.deep_view()),
        ensures
            final(self)@ == old(self)@.resolve_request(
                row.deep_view(),
                state,
                agent@,
                response.deep_view(),
                now,
            ),
            r is Ok,
            r->Ok_0.deep_view() == old(self)@.request_of(
                answered(row.deep_view(), state, agent@, response.deep_view(), now),
            ),
            old(self)@.wf() ==> final(self)@.wf(),
    {
        let ghost s0 = self@;
        let ghost rv = response.deep_view();
        self.resolve_request(&row, state, agent, response, now);
        proof {
            if request_ids_differ(s0.requests) {
                lemma_request_ids_kept(s0.requests, self@.requests);
            }
            lemma_first_mapped(s0.requests, row.id@, state, agent@, rv, now);
            let f = |r: RequestRowV|
                if r.id == row.id@ {
                    answered(r, state, agent@, rv, now)
                } else {
                    r
                };
            let p = |r: RequestRowV| r.id == row.id@;
            assert(self@.requests == s0.requests.map_values(f));
            assert(self@.request_row(row.id@) == first_where(self@.requests, p));
            assert(self@.symbols == s0.symbols);
        }
        match self.request_at(row.id.as_str()) {
            Some(i) => {
                let q = self.request_of(&self.requests[i]);
                Ok(q)
            },
            None => {
                assert(false);
                Err(fail_about(ErrorKind::NoSuchRequest, "no such request: ", row.id.as_str()))
            },
        }
    }

    /// Say no, with a reason the other agent can act on.
    pub fn decline_request(
        &mut self,
        id: &str,
        agent: &str,
        reason: &Option<String>,
        now: i64,
    ) -> (r: Result<Request, StoreError>)
        ensures
            (final(self)@, seen(r)) == old(self)@.answer(
                id@,
                agent@,
                RequestState::Declined,
                Some(JsonV::Obj(seq![("reason"@, opt_text(reason.deep_view()))])),
                now,
            ),
            old(self)@.wf() ==> final(self)@.wf(),
    {
        let response = Json::object().with("reason", Json::opt(reason));
        assert(response.deep_view()->Obj_0 =~= seq![("reason"@, opt_text(reason.deep_view()))]);
        self.answer(id, agent, RequestState::Declined, Some(response), now)
    }

    /// Deliver: this is the state that a waiting agent is polling for.
    pub fn fulfill_request(
        &mut self,
        id: &str,
        agent: &str,
        response: Option<Json>,
        now: i64,
    ) -> (r: Result<Request, StoreError>)
        ensures
            (final(self)@, seen(r)) == old(self)@.answer(
                id@,
                agent@,
                RequestState::Fulfilled,
                response.deep_view(),
                now,
            ),
            old(self)@.wf() ==> final(self)@.wf(),
    {
        self.answer(id, agent, RequestState::Fulfilled, response, now)
    }

    /// Withdraw your own request.
    pub fn cancel_request(&mut self, id: &str, agent: &str, now: i64) -> (r: Result<
        Request,
        StoreError,
    >)
        ensures
            (final(self)@, seen(r)) == old(self)@.cancel_request(id@, agent@, now),
            old(self)@.wf() ==> final(self)@.wf(),
    {
        let row = match self.request_at(id) {
            Some(i) => self.requests[i].clone(),
            None => {
                return Err(fail_about(ErrorKind::NoSuchRequest, "no such request: ", id));
            },
        };
        if !same(row.from.as_str(), agent) {
            return Err(
                fail(
                    ErrorKind::NotSender,
                    cat3("only ", row.from.as_str(), " can cancel that request"),
                ),
            );
        }
        if !row.state.is_live() {
            return Err(
                fail_about(
                    ErrorKind::AlreadyAnswered,
                    "request is already ",
                    row.state.as_str(),
                ),
            );
        }
        self.settle(row, RequestState::Cancelled, agent, None, now)
    }

    /// Where the request that `agent` may accept stands, or why it may not.
    pub(crate) fn acceptable(&self, id: &str, agent: &str) -> (r: Result<usize, StoreError>)
        ensures
            match self@.request_row(id@) {
                None => r matches Err(e) && e.deep_view() == failure(
                    ErrorKind::NoSuchRequest,
                    "no such request: "@ + id@,
                ),
                Some(row) => match refusal(row, agent@, true) {
                    Some(x) => r matches Err(e) && e.deep_view() == x,
                    None => r matches Ok(i) && i < self.requests@.len()
                        && self.requests@[i as int].deep_view() == row
                        && self.requests@[i as int].id@ == id@,
                },
            },
    {
        match self.request_at(id) {
            Some(i) => match self.guard_responder(&self.requests[i], agent, true) {
                Some(e) => Err(e),
                None => Ok(i),
            },
            None => Err(fail_about(ErrorKind::NoSuchRequest, "no such request: ", id)),
        }
    }
}

} // verus!
