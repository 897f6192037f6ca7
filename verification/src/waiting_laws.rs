//! What becomes of a request for a lease that is in somebody's way.

use vstd::prelude::*;
use vstd::string::*;

use crate::claim_laws::lemma_first;
use crate::guard_laws::in_the_way;
use crate::holding_laws::{holds_then, law_covering_is_being_around, lemma_same_cover, lemma_swept};
use crate::lease::{lemma_finish_each_keeps, lemma_preempt_keeps, overrides, rivals, waits, AcquireOptionsV};
use crate::lease_laws::{law_blocking_is_related, law_expiry_complete};
use crate::lookup_laws::lemma_filter_count;
use crate::model::{AcquireOutcomeV, LeaseState, SymbolV};
use crate::order::{law_sorted_keeps, rank};
use crate::scan_laws::{lemma_first_changed, lemma_first_pushed};
use crate::store::{law_first_where, LeaseRowV, QueueRow, QueueRowV, StoreV, Tick};

verus! {

broadcast use vstd::string::group_string_axioms;

proof fn lemma_queued(s: StoreV, sym: SymbolV, agent: Seq<char>, o: AcquireOptionsV, t: Tick)
    requires
        s.enqueue(sym, agent, o, t) is Some,
    ensures
        s.enqueue(sym, agent, o, t)->0.place(sym.id, agent) matches Some(q) && q.polled_at == t.now && q.priority
            == o.priority && q.agent == agent && q.symbol_id == sym.id,
{
    let p = |q: QueueRowV| waits(q, sym.id, agent);
    law_first_where(s.queue, p);
    let r = s.enqueue(sym, agent, o, t)->0;
    law_first_where(r.queue, p);
    match s.place(sym.id, agent) {
        Some(mine) => {
            let f = |q: QueueRowV|
                if q.id == mine.id {
                    QueueRowV { polled_at: t.now, priority: o.priority, ..q }
                } else {
                    q
                };
            lemma_first_changed(s.queue, p, f);
            assert(r.queue =~= s.queue.map_values(f));
        },
        None => {
            let n = s.queue.len() as int;
            lemma_first_pushed(s.queue, p, r.queue[n]);
            assert(r.queue =~= s.queue.push(r.queue[n]));
        },
    }
}

/// Whoever is denied and wants to wait has a place in line; it is told that they were
/// denied.
pub proof fn law_denied_waits(s: StoreV, symbol: Seq<char>, agent: Seq<char>, o: AcquireOptionsV, t: Tick)
    requires
        o.queue,
        s.acquire(symbol, agent, o, t).1 matches Ok(AcquireOutcomeV::Denied { conflicts }),
    ensures
        ({
            let r = s.acquire(symbol, agent, o, t).0;
            &&& r.place(symbol, agent) matches Some(q) && q.polled_at == t.now && q.priority == o.priority && q.agent
                == agent && q.symbol_id == symbol
            &&& r.events.last().kind == "lease.denied"@ && r.events.last().agent == Some(agent)
        }),
{
    law_first_where(s.symbols, |x: SymbolV| x.id == symbol);
    let sym = s.symbol(symbol)->0;
    let w = s.swept(t.now);
    let m = w.preempt_each(w.blocking(symbol, agent), agent, o.priority, t.now);
    if w.enqueue(sym, agent, o, t) is Some {
        lemma_queued(w, sym, agent, o, t);
    }
    if m.enqueue(sym, agent, o, t) is Some {
        lemma_queued(m, sym, agent, o, t);
    }
}

/// A request that may preempt gets what it asks for where everybody in its way has a
/// lower priority, and nobody waits for it.
pub proof fn law_the_stronger_preempts(s: StoreV, symbol: Seq<char>, agent: Seq<char>, o: AcquireOptionsV, t: Tick)
    requires
        s.ids_differ(),
        o.preempt,
        s.symbol(symbol) is Some,
        forall|l: LeaseRowV| #[trigger] in_the_way(s, l, symbol, agent, t.now) ==> l.priority < o.priority,
        forall|k: int|
            0 <= k < s.queue.len() && (#[trigger] s.queue[k]).symbol_id == symbol && s.queue[k].agent != agent
                ==> !(s.queue[k].state is Waiting),
    ensures
        match s.acquire(symbol, agent, o, t).1 {
            Ok(AcquireOutcomeV::Denied { .. }) => false,
            Ok(_) => true,
            Err(e) => e.kind is Duplicate,
        },
{
    law_first_where(s.symbols, |x: SymbolV| x.id == symbol);
    let sym = s.symbol(symbol)->0;
    let w = s.swept(t.now);
    lemma_swept(s, t.now);
    let blocking = w.blocking(symbol, agent);
    assert(overrides(blocking, o)) by {
        assert forall|i: int| 0 <= i < blocking.len() implies (#[trigger] blocking[i]).lease.priority < o.priority by {
            law_blocking_is_related(w, symbol, agent, i);
            let l = blocking[i].lease;
            let k = choose|k: int| 0 <= k < w.leases.len() && w.leases[k] == l;
            assert(holds_then(s.leases[k], t.now));
            assert(w.leases[k] == s.leases[k]);
            lemma_same_cover(s, w, l.symbol_id, symbol);
            lemma_same_cover(s, w, symbol, l.symbol_id);
            law_covering_is_being_around(s, l.symbol_id, symbol);
            law_covering_is_being_around(s, symbol, l.symbol_id);
            assert(s.leases.contains(l));
            assert(in_the_way(s, l, symbol, agent, t.now));
        }
    }
    let m = w.preempt_each(blocking, agent, o.priority, t.now);
    lemma_preempt_keeps(w, blocking, agent, o.priority, t.now);
    lemma_finish_each_keeps(
        s,
        s.due_leases(t.now),
        LeaseState::Expired,
        "ttl expired"@,
        t.now,
    );
    let p = |q: QueueRowV| rivals(q, symbol, agent);
    assert forall|k: int| 0 <= k < m.queue.len() implies !p(#[trigger] m.queue[k]) by {
        assert(m.queue[k] == w.queue[k]);
        assert(s.expire_due(t.now).queue == s.queue);
        assert(s.queue[k].symbol_id == w.queue[k].symbol_id);
    }
    lemma_filter_count(m.queue, p);
    law_sorted_keeps(
        m.queue.filter(p),
        rank::<QueueRow>(),
    );
    assert(m.rivals(symbol, agent).len() == 0);
}

/// A sign of life for one lease renews that lease and no other, and shows its holder to be
/// alive.
pub proof fn law_one_heartbeat(s: StoreV, agent: Seq<char>, now: i64, i: int, j: int, a: int)
    requires
        s.ids_differ(),
        0 <= i < s.leases.len(),
        0 <= j < s.leases.len(),
        i != j,
        s.leases[i].agent == agent,
        holds_then(s.leases[i], now),
        holds_then(s.leases[j], now),
        i64::MIN <= now + s.leases[i].ttl_secs * 1000 <= i64::MAX,
    ensures
        ({
            let r = s.heartbeat(agent, Some(s.leases[i].id), now);
            &&& r.leases[i].expires_at == now + s.leases[i].ttl_secs * 1000 && r.leases[i].heartbeat_at == now
            &&& r.leases[i].state is Active && r.leases[i].agent == agent
            &&& r.leases[j] == s.leases[j]
            &&& 0 <= a < s.agents.len() ==> (s.agents[a].name == agent ==> r.agents[a].heartbeat_at == now) && (
            s.agents[a].name != agent ==> r.agents[a] == s.agents[a])
        }),
{
    let e = s.expire_due(now);
    law_expiry_complete(s, now, i);
    law_expiry_complete(s, now, j);
    lemma_finish_each_keeps(
        s,
        s.due_leases(now),
        LeaseState::Expired,
        "ttl expired"@,
        now,
    );
    let id = s.leases[i].id;
    let p = |l: LeaseRowV| l.id == id;
    assert forall|k: int| 0 <= k < i implies !p(#[trigger] e.leases[k]) by {
        law_expiry_complete(s, now, k);
        assert(s.leases[k].id != s.leases[i].id);
    }
    lemma_first(e.leases, p, i);
    assert(e.lease_row(id) == Some(s.leases[i]));
    let ids = e.beating(agent, Some(id)).map_values(|l: LeaseRowV| l.id);
    assert(ids =~= seq![id]);
    assert(ids.contains(id)) by {
        assert(ids[0] == id);
    }
    assert(s.leases[j].id != s.leases[i].id);
    assert(!ids.contains(s.leases[j].id));
}

} // verus!
