//! What becomes of a request between agents.

use vstd::prelude::*;
use vstd::string::*;

use crate::arch_laws::lemma_sorted_has;
use crate::claim_laws::lemma_first;
use crate::json::JsonV;
use crate::lookup_laws::lemma_filtered;
use crate::model::{RequestState, RequestV, TaskState};
use crate::negotiate::{
    law_deadlines_hold, law_finished_task_answers_requests, law_release_answers_requests,
    law_resolving_touches_only_the_listed,
};
use crate::order::{rank, sorted};
use crate::protocol::{listed, state_event, Direction, NewRequestV};
use crate::store::{
    law_first_where, request_ids_differ, LeaseRow, LeaseRowV, RequestRow, RequestRowV, StoreV, Tick,
};

verus! {

broadcast use vstd::string::group_string_axioms;

/// Is an answer still due?
pub open spec fn is_due(state: RequestState) -> bool {
    state is Open || state is Accepted
}

/// Is it for an agent to answer? Whoever it is addressed to may, or anybody where it is
/// addressed to nobody, but for its sender.
pub open spec fn may_answer(x: RequestRowV, agent: Seq<char>) -> bool {
    (x.to is None || x.to == Some(agent)) && x.from != agent
}

/// The requests that an agent asks to see.
pub open spec fn request_list(s: StoreV, agent: Option<Seq<char>>, direction: Direction, live_only: bool) -> Seq<RequestV> {
    sorted(
        s.requests.filter(|q: RequestRowV| listed(q, agent, direction, live_only)),
        rank::<RequestRow>(),
    ).map_values(|q: RequestRowV| s.request_of(q))
}

proof fn lemma_request_list(s: StoreV, agent: Option<Seq<char>>, direction: Direction, live_only: bool, x: RequestV)
    ensures
        request_list(s, agent, direction, live_only).contains(x) <==> exists|i: int|
            0 <= i < s.requests.len() && listed(#[trigger] s.requests[i], agent, direction, live_only) && x
                == s.request_of(s.requests[i]),
{
    let p = |q: RequestRowV| listed(q, agent, direction, live_only);
    let r = rank::<RequestRow>();
    let kept = s.requests.filter(p);
    let o = sorted(kept, r);
    let all = request_list(s, agent, direction, live_only);
    if all.contains(x) {
        let n = choose|n: int| 0 <= n < all.len() && all[n] == x;
        let q = o[n];
        assert(o.contains(q));
        lemma_sorted_has(kept, r, q);
        lemma_filtered(s.requests, p, q);
        let i = choose|i: int| 0 <= i < s.requests.len() && s.requests[i] == q;
        assert(listed(s.requests[i], agent, direction, live_only));
    }
    if exists|i: int|
        0 <= i < s.requests.len() && listed(#[trigger] s.requests[i], agent, direction, live_only) && x
            == s.request_of(s.requests[i]) {
        let i = choose|i: int|
            0 <= i < s.requests.len() && listed(#[trigger] s.requests[i], agent, direction, live_only) && x
                == s.request_of(s.requests[i]);
        let q = s.requests[i];
        assert(s.requests.contains(q));
        lemma_filtered(s.requests, p, q);
        lemma_sorted_has(kept, r, q);
        let n = choose|n: int| 0 <= n < o.len() && o[n] == q;
        assert(all[n] == x);
    }
}

/// A request that was opened is in the inbox of whoever it is addressed to, or of
/// everybody but its sender where it is addressed to nobody, and in its sender's outbox,
/// as it was written.
pub proof fn law_requests_reach_their_addressee(s: StoreV, q: NewRequestV, t: Tick, b: Seq<char>, live_only: bool)
    requires
        s.open_request(q, t).1 is Ok,
        q.deadline_secs matches Some(d) ==> i64::MIN <= t.now + d * 1000 <= i64::MAX,
    ensures
        ({
            let r = s.open_request(q, t).0;
            let x = s.open_request(q, t).1->Ok_0;
            &&& x.kind == q.kind && x.from == q.from && x.to == q.to && x.subject == q.subject && x.body == q.body
            &&& x.resource_symbol == q.resource_symbol && x.resource_task == q.resource_task && x.task == q.task
            &&& x.priority == q.priority && x.state is Open && x.created_at == t.now && x.resolver is None
            &&& q.deadline_secs is None ==> x.deadline_at is None
            &&& q.deadline_secs matches Some(d) ==> (x.deadline_at matches Some(e) && e == t.now + d * 1000)
            &&& b != q.from && (q.to is None || q.to == Some(b)) ==> request_list(
                r,
                Some(b),
                Direction::Inbox,
                live_only,
            ).contains(x)
            &&& request_list(r, Some(q.from), Direction::Outbox, live_only).contains(x)
            &&& q.to != Some(q.from)
        }),
{
    let r = s.open_request(q, t).0;
    let x = s.open_request(q, t).1->Ok_0;
    let n = s.requests.len() as int;
    let row = s.new_request_row(q, t);
    assert(r.requests[n] == row);
    assert(r.symbols == s.symbols);
    assert(r.request_of(row) == x);
    lemma_request_list(r, Some(b), Direction::Inbox, live_only, x);
    lemma_request_list(r, Some(q.from), Direction::Outbox, live_only, x);
    if b != q.from && (q.to is None || q.to == Some(b)) {
        assert(listed(r.requests[n], Some(b), Direction::Inbox, live_only));
    }
    assert(listed(r.requests[n], Some(q.from), Direction::Outbox, live_only));
}

/// An inbox holds only what the agent may answer, and an outbox only what it sent; where
/// only what is still due is asked for, there is nothing else.
pub proof fn law_mail_is_ones_own(s: StoreV, agent: Seq<char>, live_only: bool, x: RequestV)
    ensures
        request_list(s, Some(agent), Direction::Inbox, live_only).contains(x) ==> x.from != agent && (x.to is None
            || x.to == Some(agent)) && (live_only ==> is_due(x.state)),
        request_list(s, Some(agent), Direction::Outbox, live_only).contains(x) ==> x.from == agent && (live_only
            ==> is_due(x.state)),
{
    lemma_request_list(s, Some(agent), Direction::Inbox, live_only, x);
    lemma_request_list(s, Some(agent), Direction::Outbox, live_only, x);
}

proof fn lemma_row(s: StoreV, i: int)
    requires
        request_ids_differ(s.requests),
        0 <= i < s.requests.len(),
    ensures
        s.request_row(s.requests[i].id) == Some(s.requests[i]),
{
    let id = s.requests[i].id;
    let p = |r: RequestRowV| r.id == id;
    assert forall|j: int| 0 <= j < i implies !p(#[trigger] s.requests[j]) by {}
    lemma_first(s.requests, p, i);
}

/// What an answer does to a request, and what is told of it.
pub open spec fn is_answered(
    s: StoreV,
    r: StoreV,
    i: int,
    state: RequestState,
    agent: Seq<char>,
    event: Seq<char>,
    now: i64,
) -> bool {
    &&& r.requests.len() == s.requests.len()
    &&& r.requests[i].state == state
    &&& r.requests[i].resolver == Some(agent)
    &&& r.requests[i].id == s.requests[i].id
    &&& r.requests[i].from == s.requests[i].from
    &&& r.requests[i].to == s.requests[i].to
    &&& forall|j: int| 0 <= j < s.requests.len() && j != i ==> #[trigger] r.requests[j] == s.requests[j]
    &&& r.leases == s.leases && r.tasks == s.tasks && r.symbols == s.symbols
    &&& r.events.len() == s.events.len() + 1
    &&& r.events.last().kind == event
    &&& r.events.last().agent == Some(agent)
    &&& r.events.last().ts == now
}

proof fn lemma_resolved(s: StoreV, i: int, state: RequestState, agent: Seq<char>, response: Option<JsonV>, now: i64)
    requires
        request_ids_differ(s.requests),
        0 <= i < s.requests.len(),
    ensures
        ({
            let r = s.resolve_request(s.requests[i], state, agent, response, now);
            &&& is_answered(s, r, i, state, agent, state_event(state), now)
            &&& response is Some ==> r.requests[i].response == response
            &&& !(state is Accepted) ==> r.requests[i].resolved_at == Some(now)
            &&& state is Accepted ==> r.requests[i].resolved_at == s.requests[i].resolved_at
        }),
{
    let r = s.resolve_request(s.requests[i], state, agent, response, now);
    assert forall|j: int| 0 <= j < s.requests.len() && j != i implies #[trigger] r.requests[j] == s.requests[j] by {
        assert(s.requests[j].id != s.requests[i].id);
    }
}

/// A request can be declined or fulfilled while an answer is due, by whoever may answer
/// it, and otherwise not. The answer stays with it, and its time and who gave it; nothing
/// else changes, and it is told.
pub proof fn law_answers(s: StoreV, i: int, agent: Seq<char>, response: JsonV, now: i64)
    requires
        request_ids_differ(s.requests),
        0 <= i < s.requests.len(),
    ensures
        ({
            let id = s.requests[i].id;
            let can = is_due(s.requests[i].state) && may_answer(s.requests[i], agent);
            let (d, dr) = s.answer(id, agent, RequestState::Declined, Some(response), now);
            let (f, fr) = s.answer(id, agent, RequestState::Fulfilled, Some(response), now);
            &&& dr is Ok <==> can
            &&& fr is Ok <==> can
            &&& !can ==> d == s && f == s
            &&& can ==> {
                &&& is_answered(s, d, i, RequestState::Declined, agent, "request.declined"@, now)
                &&& d.requests[i].response == Some(response) && d.requests[i].resolved_at == Some(now)
                &&& dr->Ok_0.state is Declined
                &&& is_answered(s, f, i, RequestState::Fulfilled, agent, "request.fulfilled"@, now)
                &&& f.requests[i].response == Some(response) && f.requests[i].resolved_at == Some(now)
                &&& fr->Ok_0.state is Fulfilled
            }
        }),
{
    lemma_row(s, i);
    lemma_resolved(s, i, RequestState::Declined, agent, Some(response), now);
    lemma_resolved(s, i, RequestState::Fulfilled, agent, Some(response), now);
}

/// Only its sender can take a request back, while an answer is due.
pub proof fn law_cancelling(s: StoreV, i: int, agent: Seq<char>, now: i64)
    requires
        request_ids_differ(s.requests),
        0 <= i < s.requests.len(),
    ensures
        ({
            let can = is_due(s.requests[i].state) && s.requests[i].from == agent;
            let (r, x) = s.cancel_request(s.requests[i].id, agent, now);
            &&& x is Ok <==> can
            &&& !can ==> r == s
            &&& can ==> is_answered(s, r, i, RequestState::Cancelled, agent, "request.cancelled"@, now)
                && r.requests[i].resolved_at == Some(now) && x->Ok_0.state is Cancelled
        }),
{
    lemma_row(s, i);
    lemma_resolved(s, i, RequestState::Cancelled, agent, None, now);
}

/// A deadline that passes expires a request that is still due, and no other.
pub proof fn law_deadlines_expire(s: StoreV, now: i64, i: int)
    requires
        s.wf(),
        0 <= i < s.requests.len(),
    ensures
        ({
            let x = s.requests[i];
            let late = is_due(x.state) && x.deadline_at is Some && x.deadline_at->0 <= now;
            &&& late ==> s.expire_requests(now).requests[i].state is Expired
            &&& !late ==> s.expire_requests(now).requests[i] == x
        }),
{
    law_deadlines_hold(s, now, i);
}

/// Who may answer can accept an open request whose deadline has not passed; the work is
/// then theirs and the answer still due. A second acceptance is refused.
pub proof fn law_accepting(s: StoreV, i: int, agent: Seq<char>, response: Option<JsonV>, now: i64)
    requires
        s.wf(),
        0 <= i < s.requests.len(),
        s.requests[i].kind != "lease-transfer"@,
        s.requests[i].deadline_at matches Some(d) ==> now < d,
    ensures
        ({
            let (r, x) = s.accept_request(s.requests[i].id, agent, response, now);
            let can = s.requests[i].state is Open && may_answer(s.requests[i], agent);
            &&& x is Ok <==> can
            &&& !can ==> r == s
            &&& can ==> {
                &&& r.requests[i].state is Accepted && r.requests[i].resolver == Some(agent)
                &&& r.requests[i].resolved_at == s.requests[i].resolved_at
                &&& r.events.last().kind == "request.accepted"@ && r.events.last().agent == Some(agent)
                &&& x->Ok_0.state is Accepted
            }
        }),
{
    let e = s.expire_requests(now);
    law_deadlines_hold(s, now, i);
    let why = JsonV::Obj(seq![("reason"@, JsonV::Str("deadline passed with no answer"@))]);
    let rows = s.overdue_requests(now);
    law_resolving_touches_only_the_listed(s, rows, RequestState::Expired, true, why, now, i);
    assert forall|j: int| 0 <= j < s.requests.len() implies (#[trigger] e.requests[j]).id == s.requests[j].id by {
        law_resolving_touches_only_the_listed(s, rows, RequestState::Expired, true, why, now, j);
    }
    assert(request_ids_differ(e.requests)) by {
        assert forall|a: int, b: int|
            0 <= a < e.requests.len() && 0 <= b < e.requests.len() && a != b implies (#[trigger] e.requests[a]).id
            != (#[trigger] e.requests[b]).id by {
            assert(s.requests[a].id != s.requests[b].id);
        }
    }
    lemma_row(e, i);
    lemma_resolved(e, i, RequestState::Accepted, agent, response, now);
}

/// Once a lease is released, every hand-over of its symbol that is still due is fulfilled.
pub proof fn law_release_fulfils_transfers(s: StoreV, id: Seq<char>, agent: Seq<char>, now: i64, i: int)
    requires
        s.release(id, agent, now).1 is Ok,
        0 <= i < s.requests.len(),
        s.requests[i].kind == "lease-transfer"@,
        is_due(s.requests[i].state),
        s.lease_row(id) is Some,
        s.requests[i].resource_symbol == Some(s.lease_row(id)->0.symbol_id),
    ensures
        s.release(id, agent, now).0.requests[i].state is Fulfilled,
{
    law_release_answers_requests(s, id, agent, now, i);
}

/// Once a task is done or has failed, every request that waits for it is fulfilled.
pub proof fn law_finished_work_fulfils_requests(
    s: StoreV,
    id: Seq<char>,
    agent: Option<Seq<char>>,
    reason: Option<Seq<char>>,
    force: bool,
    now: i64,
    i: int,
)
    requires
        0 <= i < s.requests.len(),
        s.requests[i].resource_task == Some(id),
        is_due(s.requests[i].state),
    ensures
        s.set_task_state(id, TaskState::Done, agent, reason, force, now).1 is Ok ==> s.set_task_state(
            id,
            TaskState::Done,
            agent,
            reason,
            force,
            now,
        ).0.requests[i].state is Fulfilled,
        s.set_task_state(id, TaskState::Failed, agent, reason, force, now).1 is Ok ==> s.set_task_state(
            id,
            TaskState::Failed,
            agent,
            reason,
            force,
            now,
        ).0.requests[i].state is Fulfilled,
{
    if s.set_task_state(id, TaskState::Done, agent, reason, force, now).1 is Ok {
        law_finished_task_answers_requests(s, id, TaskState::Done, agent, reason, force, now, i);
    }
    if s.set_task_state(id, TaskState::Failed, agent, reason, force, now).1 is Ok {
        law_finished_task_answers_requests(s, id, TaskState::Failed, agent, reason, force, now, i);
    }
}

/// Asking for a lease asks whoever holds it; where nobody does, there is nobody to ask.
pub proof fn law_the_holder_is_asked(
    s: StoreV,
    symbol: Seq<char>,
    from: Seq<char>,
    reason: Option<Seq<char>>,
    deadline_secs: Option<i64>,
    priority: i64,
    task: Option<Seq<char>>,
    t: Tick,
)
    ensures
        ({
            let (r, x) = s.request_lease_transfer(symbol, from, reason, deadline_secs, priority, task, t);
            &&& x matches Ok(q) ==> {
                &&& q.kind == "lease-transfer"@ && q.from == from && q.resource_symbol == Some(symbol) && q.state
                    is Open
                &&& q.to != Some(from)
                &&& q.to matches Some(holder) && exists|k: int|
                    0 <= k < s.leases.len() && (#[trigger] s.leases[k]).state is Active && s.leases[k].symbol_id
                        == symbol && s.leases[k].agent == holder
            }
            &&& x is Err ==> r == s
            &&& (forall|k: int|
                0 <= k < s.leases.len() && (#[trigger] s.leases[k]).symbol_id == symbol ==> !(s.leases[k].state
                    is Active)) ==> x is Err
        }),
{
    let p = |l: LeaseRowV| l.state is Active;
    let here = |l: LeaseRowV| l.symbol_id == symbol;
    let rk = rank::<LeaseRow>();
    let kept = s.leases.filter(p);
    let o = sorted(kept, rk);
    law_first_where(o, here);
    if let Some(l) = s.holder_of(symbol) {
        lemma_sorted_has(kept, rk, l);
        lemma_filtered(s.leases, p, l);
        let k = choose|k: int| 0 <= k < s.leases.len() && s.leases[k] == l;
        assert(s.leases[k].state is Active && s.leases[k].symbol_id == symbol);
    }
}

} // verus!
