//! What waiting in line promises, over several calls.

use vstd::prelude::*;
use vstd::string::*;

use crate::lease::{
    held, in_line, lemma_finish_each_keeps, lemma_preempt_keeps, rivals, stale, top_place, waits, AcquireOptionsV,
    QUEUE_ABANDON_MS,
};
use crate::lease_laws::{
    law_blocking_is_related, law_grant_ends_wait, law_line_is_ordered, lemma_deny_keeps, lemma_listed,
    lemma_swept_fewer, only_fewer,
};
use crate::model::{AcquireOutcomeV, LeaseState, SymbolV};
use crate::order::{law_sorted_keeps, law_sorted_ordered, rank, sorted};
use crate::protocol::after;
use crate::rows::law_filter_has;
use crate::store::{
    law_covers_itself, law_first_where, LeaseRowV, QueueRow, QueueRowV, QueueState, StoreV, Tick,
};

verus! {

broadcast use vstd::string::group_string_axioms;

/// Has every place in line an id of its own, and nobody two places for one symbol?
pub open spec fn places_apart(rows: Seq<QueueRowV>) -> bool {
    forall|i: int, j: int|
        0 <= i < rows.len() && 0 <= j < rows.len() && i != j ==> (#[trigger] rows[i]).id != (
        #[trigger] rows[j]).id && !(rows[i].state is Waiting && waits(
            rows[j],
            rows[i].symbol_id,
            rows[i].agent,
        ))
}

/// Where an agent that asks for a symbol stands in line: at the place that it has, or
/// behind everybody.
pub open spec fn arrival(s: StoreV, symbol: Seq<char>, agent: Seq<char>, now: i64) -> i64 {
    match s.swept(now).place(symbol, agent) {
        Some(q) => q.seq,
        None => after(top_place(s.queue)),
    }
}

/// Is a claim better than that of a place in line?
pub open spec fn outranks(priority: i64, seq: i64, q: QueueRowV) -> bool {
    priority > q.priority || (priority == q.priority && seq < q.seq)
}

/// Is nothing around, at or inside the symbol held?
pub open spec fn clear(s: StoreV, symbol: Seq<char>) -> bool {
    forall|i: int|
        0 <= i < s.leases.len() && (#[trigger] s.leases[i]).state is Active ==> !s.related(
            s.leases[i].symbol_id,
            symbol,
        )
}

/// Do only ends of waiting tell two lines apart?
pub open spec fn only_leave(a: Seq<QueueRowV>, b: Seq<QueueRowV>) -> bool {
    &&& b.len() == a.len()
    &&& forall|i: int|
        0 <= i < a.len() ==> {
            &&& (#[trigger] b[i]).id == a[i].id
            &&& b[i].seq == a[i].seq
            &&& b[i].state is Waiting ==> b[i] == a[i]
        }
}

proof fn lemma_apart_kept(a: Seq<QueueRowV>, b: Seq<QueueRowV>)
    requires
        places_apart(a),
        b.len() == a.len(),
        forall|i: int|
            0 <= i < a.len() ==> (#[trigger] b[i]).id == a[i].id && (b[i].state is Waiting ==> waits(
                a[i],
                b[i].symbol_id,
                b[i].agent,
            )),
    ensures
        places_apart(b),
{
    assert forall|i: int, j: int| 0 <= i < b.len() && 0 <= j < b.len() && i != j implies (
    #[trigger] b[i]).id != (#[trigger] b[j]).id && !(b[i].state is Waiting && waits(
        b[j],
        b[i].symbol_id,
        b[i].agent,
    )) by {
        assert(a[i].id != a[j].id);
    }
}

proof fn lemma_top_kept(a: Seq<QueueRowV>, b: Seq<QueueRowV>)
    requires
        b.len() == a.len(),
        forall|i: int| 0 <= i < a.len() ==> (#[trigger] b[i]).seq == a[i].seq,
    ensures
        top_place(b) == top_place(a),
    decreases a.len(),
{
    if a.len() > 0 {
        assert(b[a.len() - 1].seq == a[a.len() - 1].seq);
        assert forall|i: int| 0 <= i < a.drop_last().len() implies (
        #[trigger] b.drop_last()[i]).seq == a.drop_last()[i].seq by {
            assert(b[i].seq == a[i].seq);
        }
        lemma_top_kept(a.drop_last(), b.drop_last());
    }
}

proof fn lemma_top(rows: Seq<QueueRowV>, k: int)
    requires
        0 <= k < rows.len(),
    ensures
        rows[k].seq <= top_place(rows),
    decreases rows.len(),
{
    if k < rows.len() - 1 {
        lemma_top(rows.drop_last(), k);
    }
}

/// Sweeping drops from the line exactly those who stopped polling.
proof fn lemma_line_swept(s: StoreV, now: i64)
    ensures
        only_leave(s.queue, s.swept(now).queue),
        forall|i: int|
            0 <= i < s.queue.len() ==> ((#[trigger] s.swept(now).queue[i]).state is Waiting
                <==> s.queue[i].state is Waiting && !stale(s.queue[i], now)),
        top_place(s.swept(now).queue) == top_place(s.queue),
        places_apart(s.queue) ==> places_apart(s.swept(now).queue),
{
    lemma_finish_each_keeps(s, s.due_leases(now), LeaseState::Expired, "ttl expired"@, now);
    lemma_top_kept(s.queue, s.swept(now).queue);
    if places_apart(s.queue) {
        lemma_apart_kept(s.queue, s.swept(now).queue);
    }
}

/// A row in which an agent waits is its place.
proof fn lemma_place(s: StoreV, symbol: Seq<char>, agent: Seq<char>, q: QueueRowV)
    requires
        places_apart(s.queue),
        s.queue.contains(q),
        waits(q, symbol, agent),
    ensures
        s.place(symbol, agent) == Some(q),
{
    law_first_where(s.queue, |x: QueueRowV| waits(x, symbol, agent));
    let i = choose|i: int| 0 <= i < s.queue.len() && s.queue[i] == q;
    assert(waits(s.queue[i], symbol, agent));
    let p = s.place(symbol, agent)->0;
    let j = choose|j: int| 0 <= j < s.queue.len() && s.queue[j] == p;
    if i != j {
        assert(s.queue[i].id != s.queue[j].id);
    }
}

/// The line once an agent has joined it, or asked again from its place.
proof fn lemma_enqueued(s: StoreV, sym: SymbolV, agent: Seq<char>, o: AcquireOptionsV, t: Tick)
    requires
        places_apart(s.queue),
        s.enqueue(sym, agent, o, t) is Some,
    ensures
        ({
            let r = s.enqueue(sym, agent, o, t)->0;
            let a = r.place(sym.id, agent);
            &&& places_apart(r.queue)
            &&& a is Some && r.queue.contains(a->0) && waits(a->0, sym.id, agent)
            &&& a->0.priority == o.priority && a->0.polled_at == t.now
            &&& a->0.seq == (match s.place(sym.id, agent) {
                Some(q) => q.seq,
                None => after(top_place(s.queue)),
            })
            &&& forall|q: QueueRowV|
                rivals(q, sym.id, agent) ==> (#[trigger] r.queue.contains(q) <==> s.queue.contains(q))
            &&& top_place(r.queue) <= after(top_place(s.queue))
        }),
{
    let r = s.enqueue(sym, agent, o, t)->0;
    law_first_where(s.queue, |x: QueueRowV| waits(x, sym.id, agent));
    match s.place(sym.id, agent) {
        Some(mine) => {
            let k = choose|k: int| 0 <= k < s.queue.len() && s.queue[k] == mine;
            assert forall|i: int| 0 <= i < s.queue.len() && i != k implies #[trigger] r.queue[i]
                == s.queue[i] by {
                assert(s.queue[i].id != s.queue[k].id);
            }
            let a = r.queue[k];
            assert(a == QueueRowV { polled_at: t.now, priority: o.priority, ..mine });
            lemma_apart_kept(s.queue, r.queue);
            lemma_top_kept(s.queue, r.queue);
            lemma_place(r, sym.id, agent, a);
            assert forall|q: QueueRowV| rivals(q, sym.id, agent) implies (#[trigger] r.queue.contains(q)
                <==> s.queue.contains(q)) by {
                if r.queue.contains(q) {
                    let i = choose|i: int| 0 <= i < r.queue.len() && r.queue[i] == q;
                    assert(s.queue[i] == q);
                }
                if s.queue.contains(q) {
                    let i = choose|i: int| 0 <= i < s.queue.len() && s.queue[i] == q;
                    assert(r.queue[i] == q);
                }
            }
        },
        None => {
            let id = s.fresh("q"@, t);
            law_first_where(s.queue, |q: QueueRowV| q.id == id);
            let n = s.queue.len() as int;
            let a = r.queue[n];
            assert(r.queue == s.queue.push(a));
            assert forall|i: int, j: int|
                0 <= i < r.queue.len() && 0 <= j < r.queue.len() && i != j implies (
            #[trigger] r.queue[i]).id != (#[trigger] r.queue[j]).id && !(r.queue[i].state is Waiting
                && waits(r.queue[j], r.queue[i].symbol_id, r.queue[i].agent)) by {
                if i < n && j < n {
                    assert(s.queue[i].id != s.queue[j].id);
                } else if i < n {
                    assert(s.queue[i].id != id);
                    assert(!waits(s.queue[i], sym.id, agent));
                } else {
                    assert(s.queue[j].id != id);
                    assert(!waits(s.queue[j], sym.id, agent));
                }
            }
            lemma_place(r, sym.id, agent, a);
            assert(r.queue.drop_last() =~= s.queue);
            assert forall|q: QueueRowV| rivals(q, sym.id, agent) implies (#[trigger] r.queue.contains(q)
                <==> s.queue.contains(q)) by {
                if r.queue.contains(q) {
                    let i = choose|i: int| 0 <= i < r.queue.len() && r.queue[i] == q;
                    assert(s.queue[i] == q);
                }
                if s.queue.contains(q) {
                    let i = choose|i: int| 0 <= i < s.queue.len() && s.queue[i] == q;
                    assert(r.queue[i] == q);
                }
            }
        },
    }
}

/// A denied request that may wait is in line, and disturbs nobody else there.
proof fn lemma_denied_waits(s: StoreV, symbol: Seq<char>, agent: Seq<char>, o: AcquireOptionsV, t: Tick)
    requires
        places_apart(s.queue),
        o.queue,
        !o.preempt,
        s.acquire(symbol, agent, o, t).1 matches Ok(AcquireOutcomeV::Denied { conflicts }),
    ensures
        ({
            let r = s.acquire(symbol, agent, o, t).0;
            let a = r.place(symbol, agent);
            &&& places_apart(r.queue)
            &&& a is Some && r.queue.contains(a->0) && waits(a->0, symbol, agent)
            &&& a->0.priority == o.priority && a->0.polled_at == t.now
            &&& a->0.seq == arrival(s, symbol, agent, t.now)
            &&& forall|q: QueueRowV|
                rivals(q, symbol, agent) ==> (#[trigger] r.queue.contains(q) <==> s.queue.contains(q)
                    && !stale(q, t.now))
            &&& top_place(r.queue) <= after(top_place(s.queue))
            &&& only_fewer(s, r)
        }),
{
    law_first_where(s.symbols, |x: SymbolV| x.id == symbol);
    let sym = s.symbol(symbol)->0;
    let w = s.swept(t.now);
    lemma_swept_fewer(s, t.now);
    lemma_line_swept(s, t.now);
    let blocking = w.blocking(symbol, agent);
    lemma_deny_keeps(w, sym, agent, o, t, w.conflicts(blocking, t.now));
    if blocking.len() == 0 {
        assert(w.preempt_each(blocking, agent, o.priority, t.now) == w);
        if let Some(q) = w.waiter_ahead(symbol, agent, o.priority, t.now) {
            lemma_deny_keeps(w, sym, agent, o, t, seq![w.queue_conflict(sym, q, t.now)]);
        }
    }
    let r = s.acquire(symbol, agent, o, t).0;
    lemma_enqueued(w, sym, agent, o, t);
    assert(r.queue == w.enqueue(sym, agent, o, t)->0.queue);
    assert forall|q: QueueRowV| rivals(q, symbol, agent) implies (#[trigger] r.queue.contains(q)
        <==> s.queue.contains(q) && !stale(q, t.now)) by {
        assert(r.queue.contains(q) <==> w.queue.contains(q));
        if w.queue.contains(q) {
            let i = choose|i: int| 0 <= i < w.queue.len() && w.queue[i] == q;
            assert(s.queue[i] == q);
        }
        if s.queue.contains(q) && !stale(q, t.now) {
            let i = choose|i: int| 0 <= i < s.queue.len() && s.queue[i] == q;
            assert(w.queue[i] == q);
        }
    }
}

/// Nobody gets a second place for a symbol: asking keeps the places apart.
pub proof fn law_asking_keeps_places_apart(
    s: StoreV,
    symbol: Seq<char>,
    agent: Seq<char>,
    o: AcquireOptionsV,
    t: Tick,
)
    requires
        places_apart(s.queue),
    ensures
        places_apart(s.acquire(symbol, agent, o, t).0.queue),
{
    law_first_where(s.symbols, |x: SymbolV| x.id == symbol);
    if let Some(sym) = s.symbol(symbol) {
        let w = s.swept(t.now);
        lemma_line_swept(s, t.now);
        let p = w.preempt_each(w.blocking(symbol, agent), agent, o.priority, t.now);
        lemma_preempt_keeps(w, w.blocking(symbol, agent), agent, o.priority, t.now);
        if w.enqueue(sym, agent, o, t) is Some {
            lemma_enqueued(w, sym, agent, o, t);
        }
        if p.enqueue(sym, agent, o, t) is Some {
            lemma_enqueued(p, sym, agent, o, t);
        }
        law_leaving_keeps_places_apart(p, symbol, agent, QueueState::Granted);
    }
}

/// Whoever leaves the line, by a grant, a transfer or of their own will, leaves the
/// other places apart.
pub proof fn law_leaving_keeps_places_apart(s: StoreV, symbol: Seq<char>, agent: Seq<char>, end: QueueState)
    requires
        places_apart(s.queue),
        !(end is Waiting),
    ensures
        places_apart(s.leave_queue(symbol, agent, end).queue),
{
    lemma_apart_kept(s.queue, s.leave_queue(symbol, agent, end).queue);
}

/// Does everybody else who still polls have a worse claim to the symbol than this
/// place?
pub open spec fn leads(s: StoreV, a: QueueRowV, now: i64) -> bool {
    forall|q: QueueRowV|
        #[trigger] s.queue.contains(q) && rivals(q, a.symbol_id, a.agent) && !stale(q, now)
            ==> outranks(a.priority, a.seq, q)
}

/// Who leads the line still does once it is swept: nobody is ahead of them, and they
/// are ahead of everybody else.
proof fn lemma_leader(s: StoreV, a: QueueRowV, agent: Seq<char>, priority: i64, now: i64)
    requires
        places_apart(s.queue),
        s.queue.contains(a),
        a.state is Waiting,
        !stale(a, now),
        leads(s, a, now),
    ensures
        ({
            let w = s.swept(now);
            &&& w.place(a.symbol_id, a.agent) == Some(a)
            &&& w.waiter_ahead(a.symbol_id, a.agent, priority, now) is None
            &&& agent != a.agent && w.place(a.symbol_id, agent) is Some ==> w.waiter_ahead(
                a.symbol_id,
                agent,
                priority,
                now,
            ) == Some(a)
        }),
{
    let w = s.swept(now);
    let symbol = a.symbol_id;
    lemma_line_swept(s, now);
    let n = choose|n: int| 0 <= n < s.queue.len() && s.queue[n] == a;
    assert(w.queue[n] == a);
    lemma_place(w, symbol, a.agent, a);
    assert forall|q: QueueRowV| #[trigger] w.queue.contains(q) && rivals(q, symbol, a.agent) implies outranks(
        a.priority,
        a.seq,
        q,
    ) && !stale(q, now) by {
        let i = choose|i: int| 0 <= i < w.queue.len() && w.queue[i] == q;
        assert(s.queue[i] == q);
        assert(s.queue.contains(q));
    }
    if w.rivals(symbol, a.agent).len() > 0 {
        lemma_head(w, symbol, a.agent, w.rivals(symbol, a.agent)[0]);
    }
    if agent != a.agent && w.place(symbol, agent) is Some {
        law_first_where(w.queue, |x: QueueRowV| waits(x, symbol, agent));
        let c = w.place(symbol, agent)->0;
        assert(w.queue.contains(c) && rivals(c, symbol, a.agent));
        lemma_head(w, symbol, agent, a);
        let h = w.rivals(symbol, agent)[0];
        if h.agent != a.agent {
            assert(rivals(h, symbol, a.agent));
            assert(outranks(a.priority, a.seq, h));
        }
        lemma_place(w, symbol, a.agent, h);
    }
}

/// The first rival is in line, and no other rival has a better claim.
proof fn lemma_head(s: StoreV, symbol: Seq<char>, agent: Seq<char>, q: QueueRowV)
    requires
        s.rivals(symbol, agent).contains(q) || s.queue.contains(q) && rivals(q, symbol, agent),
    ensures
        ({
            let line = s.rivals(symbol, agent);
            &&& line.len() > 0
            &&& s.queue.contains(line[0])
            &&& rivals(line[0], symbol, agent)
            &&& !outranks(q.priority, q.seq, line[0])
        }),
{
    let test = |x: QueueRowV| rivals(x, symbol, agent);
    let some = s.queue.filter(test);
    let line = s.rivals(symbol, agent);
    law_line_is_ordered();
    law_sorted_keeps(some, rank::<QueueRow>());
    law_sorted_ordered(some, rank::<QueueRow>());
    if s.queue.contains(q) && rivals(q, symbol, agent) {
        law_filter_has(s.queue, test, q);
        lemma_listed(some, line, q);
    }
    let k = choose|k: int| 0 <= k < line.len() && line[k] == q;
    lemma_listed(line, some, line[0]);
    s.queue.lemma_filter_contains_rev(test, line[0]);
    lemma_pass(s.queue, test, line[0]);
    if k > 0 {
        assert(!rank::<QueueRow>()(line[k], line[0]));
    }
}

proof fn lemma_pass(rows: Seq<QueueRowV>, p: spec_fn(QueueRowV) -> bool, x: QueueRowV)
    requires
        rows.filter(p).contains(x),
    ensures
        p(x),
{
    let k = choose|k: int| 0 <= k < rows.filter(p).len() && rows.filter(p)[k] == x;
    rows.lemma_filter_pred(p, k);
}

/// Releasing everything that holds a symbol leaves it clear.
proof fn lemma_release_clears(s: StoreV, m: StoreV, symbol: Seq<char>, holder: Seq<char>, now: i64, j: int)
    requires
        s.exclusive(),
        only_fewer(s, m),
        0 <= j < s.leases.len(),
        held(s.leases[j], holder),
        s.leases[j].symbol_id == symbol,
    ensures
        clear(m.finish_each(m.held_by(holder), LeaseState::Released, "released"@, now), symbol),
        m.finish_each(m.held_by(holder), LeaseState::Released, "released"@, now).queue == m.queue,
        m.finish_each(m.held_by(holder), LeaseState::Released, "released"@, now).symbols == m.symbols,
{
    let rows = m.held_by(holder);
    let r = m.finish_each(rows, LeaseState::Released, "released"@, now);
    lemma_finish_each_keeps(m, rows, LeaseState::Released, "released"@, now);
    assert forall|i: int| 0 <= i < r.leases.len() && (#[trigger] r.leases[i]).state is Active implies !r.related(
        r.leases[i].symbol_id,
        symbol,
    ) by {
        let l = m.leases[i];
        if l.agent == holder && l.state is Active {
            let p = |x: LeaseRowV| held(x, holder);
            law_filter_has(m.leases, p, l);
            let k = choose|k: int| 0 <= k < rows.len() && rows[k] == l;
            assert(rows[k].id == l.id);
        }
        assert(s.leases[i].state is Active && s.leases[i].agent != holder);
        assert(i != j);
        assert(r.related(l.symbol_id, symbol) == s.related(l.symbol_id, symbol));
    }
}

proof fn lemma_fewer_twice(a: StoreV, b: StoreV, c: StoreV)
    requires
        only_fewer(a, b),
        only_fewer(b, c),
    ensures
        only_fewer(a, c),
{
    assert forall|i: int| 0 <= i < a.leases.len() implies {
        &&& (#[trigger] c.leases[i]).id == a.leases[i].id
        &&& c.leases[i].state is Active ==> a.leases[i].state is Active && c.leases[i].agent
            == a.leases[i].agent && c.leases[i].symbol_id == a.leases[i].symbol_id
    } by {
        assert(b.leases[i].id == a.leases[i].id);
    }
}

/// Where the symbol is clear, only the line decides.
proof fn lemma_clear_asks_line(s: StoreV, symbol: Seq<char>, agent: Seq<char>, now: i64)
    requires
        clear(s, symbol),
        s.symbol(symbol) is Some,
    ensures
        clear(s.swept(now), symbol),
        s.swept(now).symbols == s.symbols,
        s.swept(now).active_on(symbol).len() == 0,
        s.swept(now).blocking(symbol, agent).len() == 0,
{
    let w = s.swept(now);
    lemma_swept_fewer(s, now);
    assert forall|i: int| 0 <= i < w.leases.len() && (#[trigger] w.leases[i]).state is Active implies !w.related(
        w.leases[i].symbol_id,
        symbol,
    ) by {
        assert(s.leases[i].state is Active);
        assert(w.related(w.leases[i].symbol_id, symbol) == s.related(s.leases[i].symbol_id, symbol));
    }
    if w.blocking(symbol, agent).len() > 0 {
        law_blocking_is_related(w, symbol, agent, 0);
        let l = w.blocking(symbol, agent)[0].lease;
        let i = w.leases.index_of(l);
        assert(w.leases[i].state is Active);
    }
    if w.active_on(symbol).len() > 0 {
        let p = |l: LeaseRowV| crate::lease::active_lease(l, symbol);
        let l = w.active_on(symbol)[0];
        w.leases.lemma_filter_contains_rev(p, l);
        w.leases.lemma_filter_pred(p, 0);
        let i = w.leases.index_of(l);
        assert(w.leases[i].state is Active);
        law_covers_itself(w, symbol);
    }
}

/// Has nobody in line a claim to the symbol that is equal to or better than that of
/// the first of two who ask for it, one after the other?
///
/// Who has stopped polling when it counts is gone, and has no claim. The second of the
/// two asks with the first one's priority, so a place that it already has counts by
/// its number alone.
pub open spec fn first_has_best_claim(
    s: StoreV,
    symbol: Seq<char>,
    w1: Seq<char>,
    w2: Seq<char>,
    o: AcquireOptionsV,
    t1: Tick,
    t2: Tick,
    t3: Tick,
) -> bool {
    let place = arrival(s, symbol, w1, t1.now);
    forall|q: QueueRowV|
        #[trigger] s.queue.contains(q) && rivals(q, symbol, w1) ==> if q.agent == w2 {
            stale(q, t2.now) || place < q.seq
        } else {
            stale(q, t3.now) || outranks(o.priority, place, q)
        }
}

/// First come, first served. Two agents were denied one after the other, with equal
/// claims, what a third holds; the holder gives everything back. Then the second is
/// still denied, as the first is ahead in line, and the first is granted it and
/// leaves the line.
///
/// Others may wait for the symbol too, as long as none of them has a claim that is
/// equal to the first one's or better. The two do not take so long that they count as
/// gone, and the places in line can still be numbered. The grant can only fail where
/// the new lease's id is taken.
pub proof fn law_first_come_first_served(
    s: StoreV,
    symbol: Seq<char>,
    holder: Seq<char>,
    w1: Seq<char>,
    w2: Seq<char>,
    o: AcquireOptionsV,
    t1: Tick,
    t2: Tick,
    released: i64,
    t3: Tick,
    t4: Tick,
)
    requires
        s.exclusive(),
        places_apart(s.queue),
        exists|j: int|
            0 <= j < s.leases.len() && held(#[trigger] s.leases[j], holder) && s.leases[j].symbol_id
                == symbol,
        w1 != w2,
        o.queue,
        !o.preempt,
        first_has_best_claim(s, symbol, w1, w2, o, t1, t2, t3),
        top_place(s.queue) < i64::MAX - 1,
        t1.now <= t2.now <= t3.now <= t4.now <= t1.now + QUEUE_ABANDON_MS,
        s.acquire(symbol, w1, o, t1).1 matches Ok(AcquireOutcomeV::Denied { conflicts }),
        s.acquire(symbol, w1, o, t1).0.acquire(symbol, w2, o, t2).1 matches Ok(
            AcquireOutcomeV::Denied { conflicts },
        ),
    ensures
        ({
            let m = s.acquire(symbol, w1, o, t1).0.acquire(symbol, w2, o, t2).0;
            let free = m.finish_each(m.held_by(holder), LeaseState::Released, "released"@, released);
            let (then, second) = free.acquire(symbol, w2, o, t3);
            let (end, first) = then.acquire(symbol, w1, o, t4);
            &&& second matches Ok(AcquireOutcomeV::Denied { conflicts }) && conflicts.len() == 1
                && conflicts[0].relation is Queued && conflicts[0].holder == w1
            &&& match first {
                Ok(AcquireOutcomeV::Granted { lease }) => lease.agent == w1 && lease.symbol_id
                    == symbol && forall|k: int|
                    0 <= k < end.queue_for(symbol).len() ==> (#[trigger] end.queue_for(symbol)[k]).agent
                        != w1,
                Ok(_) => false,
                Err(e) => e.kind is Duplicate,
            }
        }),
{
    let j = choose|j: int|
        0 <= j < s.leases.len() && held(#[trigger] s.leases[j], holder) && s.leases[j].symbol_id
            == symbol;
    law_first_where(s.symbols, |x: SymbolV| x.id == symbol);
    let (a, c) = lemma_both_wait(s, symbol, w1, w2, o, t1, t2, t3);
    let s1 = s.acquire(symbol, w1, o, t1).0;
    let s2 = s1.acquire(symbol, w2, o, t2).0;
    lemma_fewer_twice(s, s1, s2);
    lemma_release_clears(s, s2, symbol, holder, released, j);
    let s3 = s2.finish_each(s2.held_by(holder), LeaseState::Released, "released"@, released);
    lemma_second_asks_again(s3, o, t3, a, c);
    let s4 = s3.acquire(symbol, w2, o, t3).0;
    lemma_first_asks_again(s4, o, t4, a);
}

/// Two are denied in turn: the first leads the line, and the second is in it.
proof fn lemma_both_wait(
    s: StoreV,
    symbol: Seq<char>,
    w1: Seq<char>,
    w2: Seq<char>,
    o: AcquireOptionsV,
    t1: Tick,
    t2: Tick,
    t3: Tick,
) -> (r: (QueueRowV, QueueRowV))
    requires
        places_apart(s.queue),
        w1 != w2,
        o.queue,
        !o.preempt,
        first_has_best_claim(s, symbol, w1, w2, o, t1, t2, t3),
        top_place(s.queue) < i64::MAX - 1,
        t1.now <= t2.now <= t3.now <= t1.now + QUEUE_ABANDON_MS,
        s.acquire(symbol, w1, o, t1).1 matches Ok(AcquireOutcomeV::Denied { conflicts }),
        s.acquire(symbol, w1, o, t1).0.acquire(symbol, w2, o, t2).1 matches Ok(
            AcquireOutcomeV::Denied { conflicts },
        ),
    ensures
        ({
            let s1 = s.acquire(symbol, w1, o, t1).0;
            let s2 = s1.acquire(symbol, w2, o, t2).0;
            let (a, c) = r;
            &&& only_fewer(s, s1)
            &&& only_fewer(s1, s2)
            &&& places_apart(s2.queue)
            &&& s2.queue.contains(a) && waits(a, symbol, w1) && a.priority == o.priority && a.polled_at
                == t1.now
            &&& s2.queue.contains(c) && waits(c, symbol, w2) && c.polled_at == t2.now
            &&& a.seq < c.seq
            &&& leads(s2, a, t3.now)
        }),
{
    let s1 = s.acquire(symbol, w1, o, t1).0;
    let s2 = s1.acquire(symbol, w2, o, t2).0;
    lemma_denied_waits(s, symbol, w1, o, t1);
    let a = s1.place(symbol, w1)->0;
    lemma_denied_waits(s1, symbol, w2, o, t2);
    let c = s2.place(symbol, w2)->0;
    assert(rivals(a, symbol, w2) && !stale(a, t2.now));
    let n = choose|n: int| 0 <= n < s1.queue.len() && s1.queue[n] == a;
    lemma_top(s1.queue, n);
    let w = s1.swept(t2.now);
    lemma_line_swept(s1, t2.now);
    law_first_where(w.queue, |x: QueueRowV| waits(x, symbol, w2));
    if let Some(q) = w.place(symbol, w2) {
        let i = choose|i: int| 0 <= i < w.queue.len() && w.queue[i] == q;
        assert(s1.queue[i] == q);
        assert(s1.queue.contains(q) && rivals(q, symbol, w1));
        assert(s.queue.contains(q) && !stale(q, t2.now));
    }
    assert(a.seq < c.seq);
    assert forall|q: QueueRowV|
        #[trigger] s2.queue.contains(q) && rivals(q, a.symbol_id, a.agent) && !stale(q, t3.now) implies outranks(
        a.priority,
        a.seq,
        q,
    ) by {
        if q.agent == w2 {
            lemma_place(s2, symbol, w2, q);
        } else {
            assert(rivals(q, symbol, w2));
            assert(s1.queue.contains(q));
            assert(s.queue.contains(q));
        }
    }
    (a, c)
}

/// The second asks again, and is told that the first is ahead.
proof fn lemma_second_asks_again(s: StoreV, o: AcquireOptionsV, t: Tick, a: QueueRowV, c: QueueRowV)
    requires
        o.queue,
        !o.preempt,
        clear(s, a.symbol_id),
        s.symbol(a.symbol_id) is Some,
        places_apart(s.queue),
        s.queue.contains(a),
        a.state is Waiting,
        a.priority == o.priority,
        s.queue.contains(c),
        waits(c, a.symbol_id, c.agent),
        a.agent != c.agent,
        a.seq < c.seq,
        !stale(a, t.now),
        !stale(c, t.now),
        leads(s, a, t.now),
    ensures
        ({
            let (r, out) = s.acquire(a.symbol_id, c.agent, o, t);
            &&& out matches Ok(AcquireOutcomeV::Denied { conflicts }) && conflicts.len() == 1
                && conflicts[0].relation is Queued && conflicts[0].holder == a.agent
            &&& places_apart(r.queue)
            &&& r.queue.contains(a)
            &&& leads(r, a, t.now)
            &&& clear(r, a.symbol_id)
            &&& r.symbols == s.symbols
        }),
{
    let symbol = a.symbol_id;
    law_first_where(s.symbols, |x: SymbolV| x.id == symbol);
    let sym = s.symbol(symbol)->0;
    let v = s.swept(t.now);
    lemma_line_swept(s, t.now);
    lemma_clear_asks_line(s, symbol, c.agent, t.now);
    let n = choose|n: int| 0 <= n < s.queue.len() && s.queue[n] == c;
    assert(v.queue[n] == c);
    lemma_place(v, symbol, c.agent, c);
    lemma_leader(s, a, c.agent, o.priority, t.now);
    assert(v.preempt_each(v.blocking(symbol, c.agent), c.agent, o.priority, t.now) == v);
    let cs = seq![v.queue_conflict(sym, a, t.now)];
    lemma_deny_keeps(v, sym, c.agent, o, t, cs);
    let (r, out) = s.acquire(symbol, c.agent, o, t);
    assert(v.acquire_swept(sym, c.agent, o, t) == v.deny(sym, c.agent, o, t, cs));
    assert(cs[0].holder == a.agent);
    lemma_denied_waits(s, symbol, c.agent, o, t);
    assert(rivals(a, symbol, c.agent));
    assert forall|q: QueueRowV|
        #[trigger] r.queue.contains(q) && rivals(q, a.symbol_id, a.agent) && !stale(q, t.now) implies outranks(
        a.priority,
        a.seq,
        q,
    ) by {
        if q.agent == c.agent {
            lemma_place(r, symbol, c.agent, q);
        } else {
            assert(rivals(q, symbol, c.agent));
            assert(s.queue.contains(q));
        }
    }
    assert forall|i: int| 0 <= i < r.leases.len() && (#[trigger] r.leases[i]).state is Active implies !r.related(
        r.leases[i].symbol_id,
        symbol,
    ) by {
        assert(s.leases[i].state is Active);
        assert(r.related(r.leases[i].symbol_id, symbol) == s.related(s.leases[i].symbol_id, symbol));
    }
}

/// The first asks again, and is granted the lease.
proof fn lemma_first_asks_again(s: StoreV, o: AcquireOptionsV, t: Tick, a: QueueRowV)
    requires
        clear(s, a.symbol_id),
        s.symbol(a.symbol_id) is Some,
        places_apart(s.queue),
        s.queue.contains(a),
        a.state is Waiting,
        !stale(a, t.now),
        leads(s, a, t.now),
    ensures
        ({
            let (r, out) = s.acquire(a.symbol_id, a.agent, o, t);
            match out {
                Ok(AcquireOutcomeV::Granted { lease }) => lease.agent == a.agent && lease.symbol_id
                    == a.symbol_id && forall|k: int|
                    0 <= k < r.queue_for(a.symbol_id).len() ==> (#[trigger] r.queue_for(
                        a.symbol_id,
                    )[k]).agent != a.agent,
                Ok(_) => false,
                Err(e) => e.kind is Duplicate,
            }
        }),
{
    let symbol = a.symbol_id;
    law_first_where(s.symbols, |x: SymbolV| x.id == symbol);
    let sym = s.symbol(symbol)->0;
    lemma_clear_asks_line(s, symbol, a.agent, t.now);
    let v = s.swept(t.now);
    lemma_leader(s, a, a.agent, o.priority, t.now);
    assert(v.preempt_each(v.blocking(symbol, a.agent), a.agent, o.priority, t.now) == v);
    assert(v.acquire_swept(sym, a.agent, o, t) == v.grant(sym, a.agent, o, t));
    let (r, out) = s.acquire(symbol, a.agent, o, t);
    if let Ok(x) = out {
        law_grant_ends_wait(s, symbol, a.agent, o, t);
        lemma_gone(r, symbol, a.agent);
    }
}

/// Whoever has no place in line is not listed.
proof fn lemma_gone(s: StoreV, symbol: Seq<char>, agent: Seq<char>)
    requires
        s.place(symbol, agent) is None,
    ensures
        forall|k: int|
            0 <= k < s.queue_for(symbol).len() ==> (#[trigger] s.queue_for(symbol)[k]).agent != agent,
{
    let line = s.queue.filter(in_line(symbol));
    let shown = sorted(line, rank::<QueueRow>());
    law_sorted_keeps(line, rank::<QueueRow>());
    assert forall|k: int| 0 <= k < s.queue_for(symbol).len() implies (
    #[trigger] s.queue_for(symbol)[k]).agent != agent by {
        let q = shown[k];
        assert(shown.contains(q));
        lemma_listed(shown, line, q);
        s.queue.lemma_filter_contains_rev(in_line(symbol), q);
        lemma_pass(s.queue, in_line(symbol), q);
        law_first_where(s.queue, |x: QueueRowV| waits(x, symbol, agent));
        let i = s.queue.index_of(q);
        assert(!waits(s.queue[i], symbol, agent));
    }
}

} // verus!
