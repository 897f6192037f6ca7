//! Who holds what, and until when.

use vstd::prelude::*;
use vstd::string::*;

use crate::arch_laws::lemma_sorted_has;
use crate::claim_laws::lemma_first;
use crate::lease::{active_lease, finished, lemma_finish_each_keeps, lemma_finish_keeps, rivals, AcquireOptionsV};
use crate::lease_laws::{
    law_blocking_is_related, law_expiry_complete, law_free_is_granted, law_holding_excludes,
    law_reacquire_extends,
};
use crate::lookup_laws::lemma_filtered;
use crate::model::{AcquireOutcomeV, LeaseState, SymbolV};
use crate::order::rank;
use crate::store::{chain_in, law_first_where, LeaseRowV, QueueRow, QueueRowV, StoreV, Tick};

verus! {

broadcast use vstd::string::group_string_axioms;

// ------------------------------------------------------------------ what is inside what

/// Is a symbol directly inside another?
pub open spec fn lies_directly_in(s: StoreV, inner: Seq<char>, outer: Seq<char>) -> bool {
    s.symbol(inner) matches Some(x) && x.parent_id == Some(outer)
}

/// Is each symbol directly inside the next one?
pub open spec fn is_nest(s: StoreV, p: Seq<Seq<char>>) -> bool {
    &&& 0 < p.len() <= s.symbols.len()
    &&& s.symbol(p.last()) is Some
    &&& forall|i: int| 0 <= i < p.len() - 1 ==> lies_directly_in(s, #[trigger] p[i], p[i + 1])
}

/// Is a symbol around another, through however many others, or the same?
pub open spec fn is_around(s: StoreV, outer: Seq<char>, inner: Seq<char>) -> bool {
    exists|p: Seq<Seq<char>>| #[trigger] is_nest(s, p) && p[0] == inner && p.last() == outer
}

proof fn lemma_nest(s: StoreV, p: Seq<Seq<char>>, fuel: nat)
    requires
        is_nest(s, p),
        p.len() <= fuel,
    ensures
        chain_in(s.symbols, p[0], fuel).contains(p.last()),
    decreases p.len(),
{
    let c = chain_in(s.symbols, p[0], fuel);
    if p.len() == 1 {
        assert(c[0] == p.last());
    } else {
        let rest = p.skip(1);
        assert(lies_directly_in(s, p[0], p[0int + 1]));
        assert(is_nest(s, rest)) by {
            assert(rest.last() == p.last());
            assert forall|i: int| 0 <= i < rest.len() - 1 implies lies_directly_in(s, #[trigger] rest[i], rest[i + 1]) by {
                assert(lies_directly_in(s, p[i + 1], p[i + 2]));
            }
        }
        lemma_nest(s, rest, (fuel - 1) as nat);
        let d = chain_in(s.symbols, p[1], (fuel - 1) as nat);
        let k = choose|k: int| 0 <= k < d.len() && d[k] == p.last();
        assert(rest[0] == p[1]);
        assert(c[k + 1] == p.last());
    }
}

proof fn lemma_chain(s: StoreV, id: Seq<char>, fuel: nat, k: int) -> (p: Seq<Seq<char>>)
    requires
        0 <= k < chain_in(s.symbols, id, fuel).len(),
        fuel <= s.symbols.len(),
    ensures
        is_nest(s, p),
        p[0] == id,
        p.last() == chain_in(s.symbols, id, fuel)[k],
        p.len() <= fuel,
    decreases fuel,
{
    let c = chain_in(s.symbols, id, fuel);
    let x = s.symbol(id)->0;
    if k == 0 {
        seq![id]
    } else {
        let up = x.parent_id->0;
        let d = chain_in(s.symbols, up, (fuel - 1) as nat);
        assert(c[k] == d[k - 1]);
        let q = lemma_chain(s, up, (fuel - 1) as nat, k - 1);
        let p = seq![id] + q;
        assert(p.last() == q.last());
        assert forall|i: int| 0 <= i < p.len() - 1 implies lies_directly_in(s, #[trigger] p[i], p[i + 1]) by {
            if i > 0 {
                assert(lies_directly_in(s, q[i - 1], q[i - 1 + 1]));
                assert(p[i] == q[i - 1] && p[i + 1] == q[i]);
            } else {
                assert(p[i + 1] == q[0]);
            }
        }
        p
    }
}

/// A symbol covers what is inside it, at whatever depth, and nothing else.
pub proof fn law_covering_is_being_around(s: StoreV, outer: Seq<char>, inner: Seq<char>)
    ensures
        s.covers(outer, inner) <==> is_around(s, outer, inner),
{
    if is_around(s, outer, inner) {
        let p = choose|p: Seq<Seq<char>>| #[trigger] is_nest(s, p) && p[0] == inner && p.last() == outer;
        lemma_nest(s, p, s.symbols.len());
    }
    if s.covers(outer, inner) {
        let c = s.chain(inner);
        let k = choose|k: int| 0 <= k < c.len() && c[k] == outer;
        let p = lemma_chain(s, inner, s.symbols.len(), k);
        assert(is_nest(s, p));
    }
}

// ---------------------------------------------------------------- having and not having

/// Does somebody hold a symbol at a time?
pub open spec fn holds_then(l: LeaseRowV, now: i64) -> bool {
    l.state is Active && l.expires_at > now
}

pub(crate) proof fn lemma_swept(s: StoreV, now: i64)
    requires
        s.ids_differ(),
    ensures
        s.swept(now).symbols == s.symbols,
        s.swept(now).leases.len() == s.leases.len(),
        forall|i: int|
            0 <= i < s.leases.len() && holds_then(s.leases[i], now) ==> #[trigger] s.swept(now).leases[i]
                == s.leases[i],
        forall|i: int|
            0 <= i < s.leases.len() && (#[trigger] s.swept(now).leases[i]).state is Active ==> holds_then(
                s.leases[i],
                now,
            ),
{
    lemma_finish_each_keeps(s, s.due_leases(now), LeaseState::Expired, "ttl expired"@, now);
    assert forall|i: int| 0 <= i < s.leases.len() && holds_then(s.leases[i], now) implies #[trigger] s.swept(
        now,
    ).leases[i] == s.leases[i] by {
        law_expiry_complete(s, now, i);
    }
    assert forall|i: int| 0 <= i < s.leases.len() && (#[trigger] s.swept(now).leases[i]).state
        is Active implies holds_then(s.leases[i], now) by {
        law_expiry_complete(s, now, i);
    }
}

/// While somebody holds a symbol, nobody else gets it, nor what is inside it or around it,
/// unless they may preempt: they are told who holds it.
pub proof fn law_held_is_denied(
    s: StoreV,
    symbol: Seq<char>,
    agent: Seq<char>,
    o: AcquireOptionsV,
    t: Tick,
    i: int,
)
    requires
        s.ids_differ(),
        s.exclusive(),
        s.symbol(symbol) is Some,
        0 <= i < s.leases.len(),
        holds_then(s.leases[i], t.now),
        s.leases[i].agent != agent,
        is_around(s, s.leases[i].symbol_id, symbol) || is_around(s, symbol, s.leases[i].symbol_id),
        !o.preempt,
    ensures
        match s.acquire(symbol, agent, o, t).1 {
            Ok(AcquireOutcomeV::Denied { conflicts }) => exists|k: int|
                0 <= k < conflicts.len() && (#[trigger] conflicts[k]).lease_id == s.leases[i].id
                    && conflicts[k].holder == s.leases[i].agent,
            Ok(_) => false,
            Err(e) => e.kind is Duplicate,
        },
{
    let l = s.leases[i];
    lemma_swept(s, t.now);
    law_covering_is_being_around(s, l.symbol_id, symbol);
    law_covering_is_being_around(s, symbol, l.symbol_id);
    assert(s.swept(t.now).leases[i] == l);
    let p = |x: LeaseRowV| active_lease(x, symbol);
    let here = s.active_on(symbol);
    if here.len() > 0 && here[0].agent == agent {
        assert(here.contains(here[0]));
        lemma_filtered(s.leases, p, here[0]);
        let j = choose|j: int| 0 <= j < s.leases.len() && s.leases[j] == here[0];
        assert(i != j);
        assert(s.leases[i].state is Active && s.leases[j].state is Active);
        assert(false);
    }
    law_holding_excludes(s, symbol, agent, o, t, l);
}

/// Where nobody else holds a symbol, what is inside it or what is around it, and nobody
/// else waits for it, whoever asks gets it, for as long as they asked.
pub proof fn law_free_is_had(s: StoreV, symbol: Seq<char>, agent: Seq<char>, o: AcquireOptionsV, t: Tick)
    requires
        s.ids_differ(),
        s.symbol(symbol) is Some,
        forall|i: int|
            0 <= i < s.leases.len() && holds_then(#[trigger] s.leases[i], t.now) && s.leases[i].agent != agent
                ==> !is_around(s, s.leases[i].symbol_id, symbol) && !is_around(s, symbol, s.leases[i].symbol_id),
        forall|k: int|
            0 <= k < s.queue.len() && (#[trigger] s.queue[k]).symbol_id == symbol && s.queue[k].state is Waiting
                && s.queue[k].agent != agent ==> s.queue[k].polled_at < t.now - 15_000,
        i64::MIN <= t.now + o.ttl_secs * 1000 <= i64::MAX,
    ensures
        match s.acquire(symbol, agent, o, t).1 {
            Ok(AcquireOutcomeV::Denied { .. }) => false,
            Ok(AcquireOutcomeV::Granted { lease }) => {
                &&& lease.agent == agent && lease.symbol_id == symbol && lease.state is Active
                &&& lease.task == o.task && lease.priority == o.priority && lease.note == o.note
                &&& lease.ttl_secs == o.ttl_secs && lease.acquired_at == t.now
                &&& lease.expires_at == t.now + o.ttl_secs * 1000
            },
            Ok(AcquireOutcomeV::Extended { lease }) => {
                &&& lease.expires_at == t.now + o.ttl_secs * 1000
                &&& exists|i: int|
                    0 <= i < s.leases.len() && (#[trigger] s.leases[i]).id == lease.id && s.leases[i].agent == agent
                        && s.leases[i].symbol_id == symbol
            },
            Err(e) => e.kind is Duplicate,
        },
{
    let w = s.swept(t.now);
    lemma_swept(s, t.now);
    assert(w.blocking(symbol, agent).len() == 0) by {
        if w.blocking(symbol, agent).len() > 0 {
            law_blocking_is_related(w, symbol, agent, 0);
            let l = w.blocking(symbol, agent)[0].lease;
            let i = choose|i: int| 0 <= i < w.leases.len() && w.leases[i] == l;
            assert(holds_then(s.leases[i], t.now));
            assert(w.leases[i] == s.leases[i]);
            lemma_same_cover(s, w, l.symbol_id, symbol);
            lemma_same_cover(s, w, symbol, l.symbol_id);
            law_covering_is_being_around(s, l.symbol_id, symbol);
            law_covering_is_being_around(s, symbol, l.symbol_id);
        }
    }
    assert(w.rivals(symbol, agent).len() == 0) by {
        let line = w.rivals(symbol, agent);
        let p = |q: QueueRowV| rivals(q, symbol, agent);
        let kept = w.queue.filter(p);
        let r = rank::<QueueRow>();
        if line.len() > 0 {
            let q = line[0];
            assert(line.contains(q));
            lemma_sorted_has(kept, r, q);
            lemma_filtered(w.queue, p, q);
            let k = choose|k: int| 0 <= k < w.queue.len() && w.queue[k] == q;
            lemma_finish_each_keeps(s, s.due_leases(t.now), LeaseState::Expired, "ttl expired"@, t.now);
            assert(s.expire_due(t.now).queue == s.queue);
            assert(s.queue[k].symbol_id == symbol);
        }
    }
    law_free_is_granted(s, symbol, agent, o, t);
    assert(w.symbol(symbol) == s.symbol(symbol));
    let sym = s.symbol(symbol)->0;
    law_first_where(s.symbols, |x: SymbolV| x.id == symbol);
    let here = w.active_on(symbol);
    let p = |x: LeaseRowV| active_lease(x, symbol);
    if here.len() > 0 {
        assert(here.contains(here[0]));
        lemma_filtered(w.leases, p, here[0]);
    }
    if !(here.len() > 0 && here[0].agent == agent) {
        let blocking = w.blocking(symbol, agent);
        assert(w.preempt_each(blocking, agent, o.priority, t.now) == w);
        assert(w.waiter_ahead(symbol, agent, o.priority, t.now) is None);
        assert(w.acquire_swept(sym, agent, o, t) == w.grant(sym, agent, o, t));
        if let Some((_, out)) = w.grant(sym, agent, o, t) {
            let row = w.new_lease_row(symbol, agent, o, t);
            assert(out == AcquireOutcomeV::Granted { lease: w.lease_of(row) });
            assert(row.expires_at == t.now + o.ttl_secs * 1000);
        }
    } else {
        law_reacquire_extends(s, symbol, agent, o, t);
        let k = choose|k: int| 0 <= k < w.leases.len() && w.leases[k] == here[0];
        assert(w.leases[k] == s.leases[k]);
    }
}

pub(crate) proof fn lemma_same_cover(a: StoreV, b: StoreV, x: Seq<char>, y: Seq<char>)
    requires
        a.symbols == b.symbols,
    ensures
        a.covers(x, y) == b.covers(x, y),
{
}

/// Only its holder can give a lease up, while it is active. It is then over, and no other
/// lease is touched; who held it and that it was released is told.
pub proof fn law_releasing(s: StoreV, agent: Seq<char>, now: i64, i: int)
    requires
        s.ids_differ(),
        0 <= i < s.leases.len(),
    ensures
        ({
            let (r, x) = s.release(s.leases[i].id, agent, now);
            let can = s.leases[i].agent == agent && s.leases[i].state is Active;
            &&& x is Ok <==> can
            &&& !can ==> r == s
            &&& can ==> {
                &&& r.leases.len() == s.leases.len()
                &&& r.leases[i].state is Released && r.leases[i].released_at == Some(now)
                &&& r.leases[i].id == s.leases[i].id && r.leases[i].symbol_id == s.leases[i].symbol_id
                &&& forall|j: int| 0 <= j < s.leases.len() && j != i ==> #[trigger] r.leases[j] == s.leases[j]
                &&& x->Ok_0.state is Released
                &&& r.events.last().kind == "lease.released"@ && r.events.last().agent == Some(agent)
            }
        }),
{
    let l = s.leases[i];
    let id = l.id;
    let p = |x: LeaseRowV| x.id == id;
    assert forall|j: int| 0 <= j < i implies !p(#[trigger] s.leases[j]) by {
        assert(s.leases[j].id != s.leases[i].id);
    }
    lemma_first(s.leases, p, i);
    assert(s.lease_row(id) == Some(l));
    lemma_finish_keeps(s, l, LeaseState::Released, "released"@, now);
    let r = s.finish_lease(l, LeaseState::Released, "released"@, now);
    assert(r.leases[i] == finished(l, LeaseState::Released, now));
    assert forall|j: int| 0 <= j < s.leases.len() && j != i implies #[trigger] r.leases[j] == s.leases[j] by {
        assert(s.leases[j].id != s.leases[i].id);
    }
}

/// A lease ends when its time is up, and not before.
pub proof fn law_time_is_up(s: StoreV, now: i64, i: int)
    requires
        s.ids_differ(),
        0 <= i < s.leases.len(),
    ensures
        ({
            let r = s.expire_due(now).leases[i];
            &&& s.leases[i].state is Active && s.leases[i].expires_at <= now ==> r.state is Expired && r.released_at
                == Some(now) && r.id == s.leases[i].id
            &&& !(s.leases[i].state is Active) || s.leases[i].expires_at > now ==> r == s.leases[i]
        }),
{
    law_expiry_complete(s, now, i);
}

} // verus!
