//! What somebody who watches the workspace is told, and what they are not.

use vstd::prelude::*;
use vstd::string::*;

use crate::json::JsonV;
use crate::lease::{conflict_json, conflicts_json, AcquireOptionsV};
use crate::model::{AcquireOutcomeV, ConflictV, EventV, RequestV, SymbolV, TaskState};
use crate::notice::{Notice, NoticeV, Severity};
use crate::order::{law_sorted_keeps, law_sorted_ordered, rank, sorted, weak_order};
use crate::rows::law_filter_has;
use crate::store::{law_first_where, RequestRow, RequestRowV, StoreV, Tick};
use crate::text::signed_decimal;

verus! {

broadcast use vstd::string::group_string_axioms;

/// The text, or some other words.
pub open spec fn or_words(a: Option<Seq<char>>, words: Seq<char>) -> Seq<char> {
    if a is Some {
        a->0
    } else {
        words
    }
}

/// Is an event among those shown, as a notice of this kind and loudness, with this
/// title and detail?
pub open spec fn told(
    shown: Seq<NoticeV>,
    e: EventV,
    kind: Seq<char>,
    severity: Severity,
    title: Seq<char>,
    detail: Option<Seq<char>>,
) -> bool {
    exists|k: int|
        0 <= k < shown.len() && {
            let n = #[trigger] shown[k];
            &&& n.id == "evt:"@ + signed_decimal(e.id as int)
            &&& n.kind == kind
            &&& n.severity == severity
            &&& n.title == title
            &&& n.detail == detail
            &&& n.actor == e.agent
            &&& n.audience is None
            &&& n.symbol_handle == e.symbol_handle
            &&& n.task == e.task
            &&& n.ts == e.ts
            &&& n.request is None
        }
}

/// Is a list full of what is at least as new?
pub open spec fn crowded_out(shown: Seq<NoticeV>, limit: usize, ts: i64) -> bool {
    shown.len() == limit && forall|k: int| 0 <= k < shown.len() ==> (#[trigger] shown[k]).ts >= ts
}

proof fn lemma_event_kinds()
    ensures
        "task.unblocked"@ != "task.blocked"@,
        "task.unblocked"@ != "task.failed"@,
        "task.unblocked"@ != "review.submitted"@,
        "task.unblocked"@ != "goal.completed"@,
        "task.unblocked"@ != "lease.denied"@,
        "task.blocked"@ != "review.submitted"@,
        "task.blocked"@ != "goal.completed"@,
        "task.blocked"@ != "lease.denied"@,
        "task.failed"@ != "review.submitted"@,
        "task.failed"@ != "goal.completed"@,
        "task.failed"@ != "lease.denied"@,
        "review.submitted"@ != "goal.completed"@,
        "review.submitted"@ != "lease.denied"@,
        "goal.completed"@ != "lease.denied"@,
{
    reveal_strlit("task.unblocked");
    reveal_strlit("task.blocked");
    reveal_strlit("task.failed");
    reveal_strlit("review.submitted");
    reveal_strlit("goal.completed");
    reveal_strlit("lease.denied");
    assert("task.unblocked"@.len() == 14 && "task.unblocked"@[0] == 't');
    assert("task.blocked"@.len() == 12 && "task.blocked"@[0] == 't');
    assert("task.failed"@.len() == 11 && "task.failed"@[0] == 't');
    assert("review.submitted"@.len() == 16 && "review.submitted"@[0] == 'r');
    assert("goal.completed"@.len() == 14 && "goal.completed"@[0] == 'g');
    assert("lease.denied"@.len() == 12 && "lease.denied"@[0] == 'l');
}

proof fn lemma_newest_order()
    ensures
        weak_order(rank::<Notice>()),
{
    let f = rank::<Notice>();
    assert forall|a: NoticeV, b: NoticeV| #[trigger] f(a, b) implies !f(b, a) by {}
    assert forall|a: NoticeV, b: NoticeV, c: NoticeV|
        #![trigger f(a, b), f(c, b)]
        f(a, b) && !f(c, b) implies f(a, c) by {}
}

/// What is worth telling is shown, or newer things fill the list.
proof fn lemma_shown(s: StoreV, audience: Option<Seq<char>>, limit: usize, now: i64, n: NoticeV)
    requires
        limit > 0,
        s.all_notices(audience, now).contains(n),
    ensures
        s.notifications(audience, limit, now).contains(n) || crowded_out(
            s.notifications(audience, limit, now),
            limit,
            n.ts,
        ),
{
    broadcast use vstd::seq_lib::group_to_multiset_ensures;

    let all = s.all_notices(audience, now);
    let f = rank::<Notice>();
    lemma_newest_order();
    law_sorted_keeps(all, f);
    law_sorted_ordered(all, f);
    let r = sorted(all, f);
    assert(all.to_multiset().count(n) > 0);
    assert(r.contains(n));
    let k = choose|k: int| 0 <= k < r.len() && r[k] == n;
    let shown = s.notifications(audience, limit, now);
    if k < limit {
        assert(shown[k] == n);
    } else {
        assert forall|i: int| 0 <= i < shown.len() implies (#[trigger] shown[i]).ts >= n.ts by {
            assert(shown[i] == r[i]);
            assert(!f(r[k], r[i]));
        }
    }
}

proof fn lemma_event_noticed(s: StoreV, events: Seq<EventV>, i: int)
    requires
        0 <= i < events.len(),
        s.notice_for_event(events[i]) is Some,
    ensures
        s.event_notices(events).contains(s.notice_for_event(events[i])->0),
    decreases events.len(),
{
    let n = s.notice_for_event(events[i])->0;
    let rest = s.event_notices(events.drop_last());
    if i < events.len() - 1 {
        lemma_event_noticed(s, events.drop_last(), i);
        let k = choose|k: int| 0 <= k < rest.len() && rest[k] == n;
        assert(s.event_notices(events)[k] == n);
    } else {
        assert(s.event_notices(events)[rest.len() as int] == n);
    }
}

proof fn lemma_recent(s: StoreV, i: int)
    requires
        0 <= i < s.events.len(),
        s.events.len() - 400 <= i,
    ensures
        s.recent(400).contains(s.events[i]),
{
    let r = s.recent(400);
    if s.events.len() > 400 {
        assert(r[i - (s.events.len() - 400)] == s.events[i]);
    } else {
        assert(r[i] == s.events[i]);
    }
}

/// What happened in the last two hours, among the last four hundred events, is told
/// where it is one of these: a task can start, a task is stuck, work waits for review,
/// a goal is done, somebody was refused. It is left out only where newer things fill
/// the list.
pub proof fn law_events_are_told(s: StoreV, audience: Option<Seq<char>>, limit: usize, now: i64, i: int)
    requires
        limit > 0,
        0 <= i < s.events.len(),
        s.events.len() - 400 <= i,
        s.events[i].ts >= now - 7_200_000,
    ensures
        ({
            let e = s.events[i];
            let shown = s.notifications(audience, limit, now);
            let full = crowded_out(shown, limit, e.ts);
            &&& e.kind == "task.unblocked"@ ==> full || told(
                shown,
                e,
                "unblocked"@,
                Severity::Info,
                or_words(e.detail.text_at("title"@), or_words(e.task, "A task"@)) + " can start"@,
                None,
            )
            &&& e.kind == "task.blocked"@ || e.kind == "task.failed"@ ==> full || told(
                shown,
                e,
                "blocked"@,
                Severity::Blocking,
                or_words(e.task, "A task"@) + " is stuck"@,
                e.detail.text_at("reason"@),
            )
            &&& e.kind == "review.submitted"@ ==> full || told(
                shown,
                e,
                "review"@,
                Severity::Warn,
                or_words(e.agent, "someone"@) + " submitted "@ + or_words(e.task, "work"@) + " for review"@,
                None,
            )
            &&& e.kind == "goal.completed"@ ==> full || told(
                shown,
                e,
                "goal"@,
                Severity::Info,
                "Goal done: "@ + or_words(e.detail.text_at("title"@), ""@),
                None,
            )
            &&& e.kind == "lease.denied"@ ==> full || told(
                shown,
                e,
                "contention"@,
                Severity::Warn,
                or_words(e.agent, "someone"@) + " was refused "@ + or_words(
                    e.symbol_handle,
                    "a symbol"@,
                ),
                match e.detail.at("conflicts"@) {
                    Some(JsonV::Arr(cs)) => if cs.len() > 0 && cs[0].text_at("holder"@) is Some {
                        Some(cs[0].text_at("holder"@)->0 + " is holding it."@)
                    } else {
                        None
                    },
                    _ => None,
                },
            )
        }),
{
    let e = s.events[i];
    let late = |x: EventV| x.ts >= now - crate::notice::WINDOW_MS;
    let events = s.recent(400).filter(late);
    lemma_recent(s, i);
    law_filter_has(s.recent(400), late, e);
    let k = choose|k: int| 0 <= k < events.len() && events[k] == e;
    lemma_event_kinds();
    let shown = s.notifications(audience, limit, now);
    if s.notice_for_event(e) is Some {
        let n = s.notice_for_event(e)->0;
        lemma_event_noticed(s, events, k);
        let found = s.event_notices(events);
        let m = choose|m: int| 0 <= m < found.len() && found[m] == n;
        let all = s.all_notices(audience, now);
        assert(all[all.len() - found.len() + m] == n);
        lemma_shown(s, audience, limit, now, n);
        if shown.contains(n) {
            let j = choose|j: int| 0 <= j < shown.len() && shown[j] == n;
            assert(shown[j] == n);
        }
    }
}

/// Where nobody says how many notices to show, it is twenty-five.
pub proof fn law_default_is_twenty_five(s: StoreV, audience: Option<Seq<char>>, now: i64)
    ensures
        s.notifications(audience, 0, now) == s.notifications(audience, 25, now),
{
}

/// A request that waits for an answer is told to everybody where it is addressed to
/// nobody, to its addressee, and to whoever watches all; how loudly depends on what it
/// asks for. It is left out only where newer things fill the list.
pub proof fn law_requests_are_told(s: StoreV, audience: Option<Seq<char>>, limit: usize, now: i64, i: int)
    requires
        limit > 0,
        0 <= i < s.requests.len(),
        s.requests[i].state is Open || s.requests[i].state is Accepted,
        audience is None || s.requests[i].to is None || s.requests[i].to == audience,
    ensures
        ({
            let q = s.requests[i];
            let shown = s.notifications(audience, limit, now);
            crowded_out(shown, limit, q.created_at) || exists|k: int|
                0 <= k < shown.len() && {
                    let n = #[trigger] shown[k];
                    &&& n.id == "req:"@ + q.id
                    &&& n.request == Some(q.id)
                    &&& n.kind == q.kind
                    &&& n.actor == Some(q.from)
                    &&& n.audience == q.to
                    &&& n.task == q.task
                    &&& n.ts == q.created_at
                    &&& q.kind == "lease-transfer"@ ==> n.severity is Blocking
                    &&& q.kind == "review"@ ==> n.severity is Blocking && n.title
                        == "Review sent back: "@ + q.subject && n.detail == q.body.text_at("reason"@)
                    &&& q.kind == "api-change"@ ==> n.severity is Warn
                    &&& q.kind == "dependency"@ ==> n.severity is Warn && n.title == q.from
                        + " is blocked on "@ + or_words(q.resource_task, "a task"@)
                    &&& q.kind == "interface"@ ==> n.severity is Warn && n.title == q.from
                        + " needs an interface: "@ + q.subject
                    &&& q.kind == "question"@ ==> n.severity is Info && n.title == q.subject
                }
        }),
{
    broadcast use vstd::seq_lib::group_to_multiset_ensures;

    lemma_request_kinds();
    let q = s.requests[i];
    let p = |x: RequestRowV| crate::protocol::listed(x, None, crate::protocol::Direction::All, true);
    law_filter_has(s.requests, p, q);
    let rows = s.requests.filter(p);
    let order = sorted(rows, rank::<RequestRow>());
    law_sorted_keeps(rows, rank::<RequestRow>());
    assert(rows.to_multiset().count(q) > 0);
    assert(order.contains(q));
    let k = choose|k: int| 0 <= k < order.len() && order[k] == q;
    let r = s.request_of(q);
    assert(s.open_requests()[k] == r);
    let mine = |x: RequestV| crate::notice::concerns(x, audience);
    law_filter_has(s.open_requests(), mine, r);
    let some = s.open_requests().filter(mine);
    let m = choose|m: int| 0 <= m < some.len() && some[m] == r;
    let n = s.notice_for_request(r);
    assert(s.all_notices(audience, now)[m] == n);
    lemma_shown(s, audience, limit, now, n);
    let shown = s.notifications(audience, limit, now);
    if shown.contains(n) {
        let j = choose|j: int| 0 <= j < shown.len() && shown[j] == n;
        assert(shown[j] == n);
    }
}

proof fn lemma_request_kinds()
    ensures
        "lease-transfer"@ != "interface"@,
        "lease-transfer"@ != "dependency"@,
        "lease-transfer"@ != "review"@,
        "lease-transfer"@ != "api-change"@,
        "lease-transfer"@ != "question"@,
        "interface"@ != "dependency"@,
        "interface"@ != "review"@,
        "interface"@ != "api-change"@,
        "interface"@ != "question"@,
        "dependency"@ != "review"@,
        "dependency"@ != "api-change"@,
        "dependency"@ != "question"@,
        "review"@ != "api-change"@,
        "review"@ != "question"@,
        "api-change"@ != "question"@,
{
    reveal_strlit("lease-transfer");
    reveal_strlit("interface");
    reveal_strlit("dependency");
    reveal_strlit("review");
    reveal_strlit("api-change");
    reveal_strlit("question");
    assert("lease-transfer"@[0] == 'l');
    assert("interface"@[0] == 'i');
    assert("dependency"@[0] == 'd');
    assert("review"@[0] == 'r');
    assert("api-change"@[0] == 'a');
    assert("question"@[0] == 'q');
}

/// Nothing else is told: every notice is of a request that waits and is not addressed
/// to somebody else, or of one of those events.
pub proof fn law_nothing_else_is_told(s: StoreV, audience: Option<Seq<char>>, limit: usize, now: i64, k: int)
    requires
        0 <= k < s.notifications(audience, limit, now).len(),
    ensures
        ({
            let n = s.notifications(audience, limit, now)[k];
            ||| exists|i: int|
                0 <= i < s.requests.len() && n.request == Some((#[trigger] s.requests[i]).id) && (
                s.requests[i].state is Open || s.requests[i].state is Accepted) && (audience is None
                    || s.requests[i].to is None || s.requests[i].to == audience)
            ||| exists|i: int|
                0 <= i < s.events.len() && s.events.len() - 400 <= i && n.id == "evt:"@ + signed_decimal(
                    (#[trigger] s.events[i]).id as int,
                ) && s.events[i].ts >= now - 7_200_000 && (s.events[i].kind == "task.unblocked"@
                    || s.events[i].kind == "task.blocked"@ || s.events[i].kind == "task.failed"@
                    || s.events[i].kind == "review.submitted"@ || s.events[i].kind == "goal.completed"@
                    || s.events[i].kind == "lease.denied"@)
        }),
{
    broadcast use vstd::seq_lib::group_to_multiset_ensures;

    let all = s.all_notices(audience, now);
    law_sorted_keeps(all, rank::<Notice>());
    let r = sorted(all, rank::<Notice>());
    let n = s.notifications(audience, limit, now)[k];
    assert(r[k] == n);
    assert(r.to_multiset().count(n) > 0);
    assert(all.contains(n));
    let j = choose|j: int| 0 <= j < all.len() && all[j] == n;
    let mine = |x: RequestV| crate::notice::concerns(x, audience);
    let some = s.open_requests().filter(mine);
    if j < some.len() {
        crate::scan_laws::lemma_kept(s.open_requests(), mine, j);
        s.open_requests().lemma_filter_pred(mine, j);
        let m = choose|m: int| 0 <= m < s.open_requests().len() && s.open_requests()[m] == some[j];
        let p = |x: RequestRowV| crate::protocol::listed(x, None, crate::protocol::Direction::All, true);
        let rows = s.requests.filter(p);
        law_sorted_keeps(rows, rank::<RequestRow>());
        let order = sorted(rows, rank::<RequestRow>());
        let q = order[m];
        assert(some[j] == s.request_of(q));
        assert(order.to_multiset().count(q) > 0);
        assert(rows.contains(q));
        let h = choose|h: int| 0 <= h < rows.len() && rows[h] == q;
        crate::scan_laws::lemma_kept(s.requests, p, h);
        s.requests.lemma_filter_pred(p, h);
        let i = choose|i: int| 0 <= i < s.requests.len() && s.requests[i] == q;
        assert(s.requests[i] == q);
    } else {
        let late = |x: EventV| x.ts >= now - crate::notice::WINDOW_MS;
        let events = s.recent(400).filter(late);
        let found = s.event_notices(events);
        assert(found[j - some.len()] == n);
        let m = lemma_notice_of_event(s, events, j - some.len());
        crate::scan_laws::lemma_kept(s.recent(400), late, m);
        s.recent(400).lemma_filter_pred(late, m);
        let e = events[m];
        let h = choose|h: int| 0 <= h < s.recent(400).len() && s.recent(400)[h] == e;
        let i = if s.events.len() > 400 {
            h + s.events.len() - 400
        } else {
            h
        };
        assert(s.events[i] == e);
    }
}

proof fn lemma_notice_of_event(s: StoreV, events: Seq<EventV>, k: int) -> (i: int)
    requires
        0 <= k < s.event_notices(events).len(),
    ensures
        0 <= i < events.len(),
        s.notice_for_event(events[i]) == Some(s.event_notices(events)[k]),
    decreases events.len(),
{
    let rest = s.event_notices(events.drop_last());
    if k < rest.len() {
        lemma_notice_of_event(s, events.drop_last(), k)
    } else {
        events.len() - 1
    }
}

// ------------------------------------------------------ what makes somebody look

/// Work that was submitted for review is told to everybody who looks within two hours.
pub proof fn law_submitted_work_is_told(
    s: StoreV,
    id: Seq<char>,
    agent: Seq<char>,
    now: i64,
    audience: Option<Seq<char>>,
    limit: usize,
    then: i64,
)
    requires
        limit > 0,
        s.submit_for_review(id, agent, now).1 is Ok,
        now >= then - 7_200_000,
    ensures
        ({
            let shown = s.submit_for_review(id, agent, now).0.notifications(audience, limit, then);
            crowded_out(shown, limit, now) || exists|k: int|
                0 <= k < shown.len() && (#[trigger] shown[k]).kind == "review"@ && shown[k].task == Some(id)
                    && shown[k].actor == Some(agent) && shown[k].severity is Warn && shown[k].title
                    == agent + " submitted "@ + id + " for review"@
        }),
{
    let r = s.submit_for_review(id, agent, now).0;
    law_events_are_told(r, audience, limit, then, r.events.len() - 1);
}

/// Work that is stuck is told, with the reason.
pub proof fn law_stuck_work_is_told(
    s: StoreV,
    id: Seq<char>,
    state: TaskState,
    agent: Option<Seq<char>>,
    reason: Option<Seq<char>>,
    force: bool,
    now: i64,
    audience: Option<Seq<char>>,
    limit: usize,
    then: i64,
)
    requires
        limit > 0,
        state is Blocked || state is Failed,
        s.set_task_state(id, state, agent, reason, force, now).1 is Ok,
        now >= then - 7_200_000,
    ensures
        ({
            let shown = s.set_task_state(id, state, agent, reason, force, now).0.notifications(
                audience,
                limit,
                then,
            );
            crowded_out(shown, limit, now) || exists|k: int|
                0 <= k < shown.len() && (#[trigger] shown[k]).kind == "blocked"@ && shown[k].task == Some(id)
                    && shown[k].severity is Blocking && shown[k].title == id + " is stuck"@
                    && shown[k].detail == reason
        }),
{
    reveal_strlit("reason");
    reveal_strlit("task.");
    reveal_strlit("blocked");
    reveal_strlit("failed");
    reveal_strlit("task.blocked");
    reveal_strlit("task.failed");
    assert("task."@ + "blocked"@ =~= "task.blocked"@);
    assert("task."@ + "failed"@ =~= "task.failed"@);
    let r = s.set_task_state(id, state, agent, reason, force, now).0;
    law_events_are_told(r, audience, limit, then, r.events.len() - 1);
}

proof fn lemma_holder_named(cs: Seq<ConflictV>)
    requires
        cs.len() > 0,
    ensures
        conflicts_json(cs).at("conflicts"@) matches Some(JsonV::Arr(js)) && js.len() == cs.len()
            && js[0].text_at("holder"@) == Some(cs[0].holder),
{
    reveal_strlit("holder");
    reveal_strlit("task");
    reveal_strlit("priority");
    reveal_strlit("expires_at");
    reveal_strlit("seconds_until_free");
    reveal_strlit("lease_id");
    assert("holder"@[0] == 'h');
    assert("task"@[0] == 't');
    assert("priority"@[0] == 'p');
    assert("expires_at"@[0] == 'e');
    assert("seconds_until_free"@[0] == 's');
    assert("lease_id"@[0] == 'l');
    reveal_with_fuel(crate::json::member, 9);
    let all = conflicts_json(cs)->Obj_0;
    assert(all.last().0 == "conflicts"@);
    let m = conflict_json(cs[0])->Obj_0;
    assert(m.last().0 == "lease_id"@);
    let m1 = m.drop_last();
    assert(m1.last().0 == "seconds_until_free"@);
    let m2 = m1.drop_last();
    assert(m2.last().0 == "expires_at"@);
    let m3 = m2.drop_last();
    assert(m3.last().0 == "priority"@);
    let m4 = m3.drop_last();
    assert(m4.last().0 == "task"@);
    let m5 = m4.drop_last();
    assert(m5.last() == ("holder"@, JsonV::Str(cs[0].holder)));
}

/// Who was refused a symbol, and by whom it is held, is told.
pub proof fn law_refusals_are_told(
    s: StoreV,
    symbol: Seq<char>,
    agent: Seq<char>,
    o: AcquireOptionsV,
    t: Tick,
    audience: Option<Seq<char>>,
    limit: usize,
    then: i64,
)
    requires
        limit > 0,
        s.acquire(symbol, agent, o, t).1 matches Ok(AcquireOutcomeV::Denied { conflicts }),
        t.now >= then - 7_200_000,
    ensures
        ({
            let shown = s.acquire(symbol, agent, o, t).0.notifications(audience, limit, then);
            crowded_out(shown, limit, t.now) || exists|k: int|
                0 <= k < shown.len() && (#[trigger] shown[k]).kind == "contention"@ && shown[k].actor == Some(
                    agent,
                ) && shown[k].severity is Warn && shown[k].symbol_handle == Some(
                    s.symbol(symbol)->0.handle(),
                ) && shown[k].title == agent + " was refused "@ + s.symbol(symbol)->0.handle() && match s.acquire(
                    symbol,
                    agent,
                    o,
                    t,
                ).1 {
                    Ok(AcquireOutcomeV::Denied { conflicts }) => conflicts.len() > 0
                        ==> shown[k].detail == Some(conflicts[0].holder + " is holding it."@),
                    _ => true,
                }
        }),
{
    if let Ok(AcquireOutcomeV::Denied { conflicts }) = s.acquire(symbol, agent, o, t).1 {
        if conflicts.len() > 0 {
            lemma_holder_named(conflicts);
        }
    }
    law_first_where(s.symbols, |x: SymbolV| x.id == symbol);
    let r = s.acquire(symbol, agent, o, t).0;
    law_events_are_told(r, audience, limit, then, r.events.len() - 1);
}

} // verus!
