//! What leases promise.
//!
//! Each function here states one promise over the operations of [`crate::lease`]
//! and proves it: exclusion, containment, expiry, preemption, waiting in line.

use vstd::prelude::*;
use vstd::string::*;

use crate::lease::{
    active_lease, due, ended, extended, finished, handed, held, lemma_expire_keeps, lemma_finish_each_keeps,
    lemma_first_changed, lemma_preempt_keeps, overrides, renewed, rivals, stale, waits, AcquireOptionsV,
    BlockerV,
};
use crate::model::{AcquireOutcomeV, ConflictRelation, LeaseState, SymbolV};
use crate::order::{law_sorted_keeps, law_sorted_ordered, rank, weak_order};
use crate::rows::law_filter_has;
use crate::store::{
    first_where, law_covers_itself, law_first_where, LeaseRowV, QueueRow, QueueRowV, StoreV, Tick,
};

verus! {

broadcast use vstd::string::group_string_axioms;

impl StoreV {
    /// Is every symbol held at most once, and does nobody hold a symbol inside or
    /// around what somebody else holds?
    pub open spec fn exclusive(self) -> bool {
        forall|i: int, j: int|
            0 <= i < self.leases.len() && 0 <= j < self.leases.len() && i != j && (
            #[trigger] self.leases[i]).state is Active && (#[trigger] self.leases[j]).state is Active ==> {
                &&& self.leases[i].symbol_id != self.leases[j].symbol_id
                &&& self.leases[i].agent != self.leases[j].agent ==> !self.related(
                    self.leases[i].symbol_id,
                    self.leases[j].symbol_id,
                )
            }
    }
}

/// Did `b` come from `a` without anybody gaining a lease?
pub open spec fn only_fewer(a: StoreV, b: StoreV) -> bool {
    &&& b.symbols == a.symbols
    &&& b.leases.len() == a.leases.len()
    &&& forall|i: int|
        0 <= i < a.leases.len() ==> {
            &&& (#[trigger] b.leases[i]).id == a.leases[i].id
            &&& b.leases[i].state is Active ==> a.leases[i].state is Active && b.leases[i].agent
                == a.leases[i].agent && b.leases[i].symbol_id == a.leases[i].symbol_id
        }
}

proof fn lemma_fewer(a: StoreV, b: StoreV)
    requires
        only_fewer(a, b),
        a.ids_differ(),
        a.exclusive(),
    ensures
        b.ids_differ(),
        b.exclusive(),
{
    assert forall|i: int, j: int|
        0 <= i < b.leases.len() && 0 <= j < b.leases.len() && i != j implies (#[trigger] b.leases[i]).id
        != (#[trigger] b.leases[j]).id by {
        assert(a.leases[i].id != a.leases[j].id);
    }
    assert forall|i: int, j: int|
        0 <= i < b.leases.len() && 0 <= j < b.leases.len() && i != j && (#[trigger] b.leases[i]).state is Active
            && (#[trigger] b.leases[j]).state is Active implies {
        &&& b.leases[i].symbol_id != b.leases[j].symbol_id
        &&& b.leases[i].agent != b.leases[j].agent ==> !b.related(
            b.leases[i].symbol_id,
            b.leases[j].symbol_id,
        )
    } by {
        assert(a.leases[i].state is Active && a.leases[j].state is Active);
        assert(b.related(b.leases[i].symbol_id, b.leases[j].symbol_id) == a.related(
            b.leases[i].symbol_id,
            b.leases[j].symbol_id,
        ));
    }
}

pub(crate) proof fn lemma_swept_fewer(s: StoreV, now: i64)
    ensures
        only_fewer(s, s.expire_due(now)),
        only_fewer(s, s.swept(now)),
        s.swept(now).leases == s.expire_due(now).leases,
        s.swept(now).symbols == s.symbols,
{
    lemma_expire_keeps(s, now);
    lemma_finish_each_keeps(s, s.due_leases(now), LeaseState::Expired, "ttl expired"@, now);
}

/// Everything of somebody else on one of some symbols is listed.
proof fn lemma_holders_complete(
    s: StoreV,
    ids: Seq<Seq<char>>,
    symbol: Seq<char>,
    agent: Seq<char>,
    relation: ConflictRelation,
    l: LeaseRowV,
)
    requires
        s.leases.contains(l),
        l.state is Active,
        l.agent != agent,
        ids.contains(l.symbol_id),
    ensures
        exists|k: int|
            0 <= k < s.holders(ids, symbol, agent, relation).len() && (#[trigger] s.holders(
                ids,
                symbol,
                agent,
                relation,
            )[k]).lease == l,
    decreases ids.len(),
{
    let all = s.holders(ids, symbol, agent, relation);
    let init = s.holders(ids.drop_last(), symbol, agent, relation);
    let id = ids.last();
    let p = |x: LeaseRowV| active_lease(x, id) && x.agent != agent;
    let mine = s.leases.filter(p);
    if id == l.symbol_id {
        law_filter_has(s.leases, p, l);
        let k = choose|k: int| 0 <= k < mine.len() && mine[k] == l;
        assert(all[init.len() + k].lease == l);
    } else {
        let n = choose|n: int| 0 <= n < ids.len() && ids[n] == l.symbol_id;
        assert(ids.drop_last()[n] == l.symbol_id);
        lemma_holders_complete(s, ids.drop_last(), symbol, agent, relation, l);
        let k = choose|k: int| 0 <= k < init.len() && (#[trigger] init[k]).lease == l;
        assert(all[k].lease == l);
    }
}

/// What is listed is an active lease of somebody else, on one of the symbols.
proof fn lemma_holders_sound(
    s: StoreV,
    ids: Seq<Seq<char>>,
    symbol: Seq<char>,
    agent: Seq<char>,
    relation: ConflictRelation,
    k: int,
)
    requires
        0 <= k < s.holders(ids, symbol, agent, relation).len(),
    ensures
        ({
            let l = s.holders(ids, symbol, agent, relation)[k].lease;
            s.leases.contains(l) && l.state is Active && l.agent != agent && ids.contains(l.symbol_id)
        }),
    decreases ids.len(),
{
    let init = s.holders(ids.drop_last(), symbol, agent, relation);
    let id = ids.last();
    let p = |x: LeaseRowV| active_lease(x, id) && x.agent != agent;
    let mine = s.leases.filter(p);
    if k < init.len() {
        lemma_holders_sound(s, ids.drop_last(), symbol, agent, relation, k);
        let l = init[k].lease;
        let n = choose|n: int| 0 <= n < ids.drop_last().len() && ids.drop_last()[n] == l.symbol_id;
        assert(ids[n] == l.symbol_id);
    } else {
        let l = mine[k - init.len()];
        s.leases.lemma_filter_contains_rev(p, l);
        assert(ids[ids.len() - 1] == id);
    }
}

/// Every active lease of somebody else on a related symbol is in the way.
pub proof fn law_related_blocks(s: StoreV, symbol: Seq<char>, agent: Seq<char>, l: LeaseRowV)
    requires
        s.leases.contains(l),
        l.state is Active,
        l.agent != agent,
        s.related(l.symbol_id, symbol),
    ensures
        exists|k: int|
            0 <= k < s.blocking(symbol, agent).len() && (#[trigger] s.blocking(symbol, agent)[k]).lease
                == l,
{
    let a = s.holders(s.chain(symbol), symbol, agent, ConflictRelation::Ancestor);
    let b = s.holders(s.inside(symbol), symbol, agent, ConflictRelation::Descendant);
    let all = s.blocking(symbol, agent);
    if s.chain(symbol).contains(l.symbol_id) {
        lemma_holders_complete(s, s.chain(symbol), symbol, agent, ConflictRelation::Ancestor, l);
        let k = choose|k: int| 0 <= k < a.len() && (#[trigger] a[k]).lease == l;
        assert(all[k].lease == l);
    } else {
        // The symbol lies around the lease's own: it is not the same one, so the
        // lease's symbol is inside.
        let x = l.symbol_id;
        assert(s.covers(symbol, x));
        let n = choose|n: int| 0 <= n < s.chain(x).len() && s.chain(x)[n] == symbol;
        assert(s.chain(x).len() > 0);
        assert(s.symbol(x) is Some) by {
            crate::store::law_chain_exists(s.symbols, x, s.symbols.len(), 0);
            assert(s.chain(x)[0] == x);
        }
        law_first_where(s.symbols, |y: SymbolV| y.id == x);
        let sym = s.symbol(x)->0;
        if x == symbol {
            law_covers_itself(s, x);
        }
        let p = |y: SymbolV| y.id != symbol && s.covers(symbol, y.id);
        law_filter_has(s.symbols, p, sym);
        let m = choose|m: int| 0 <= m < s.symbols.filter(p).len() && s.symbols.filter(p)[m] == sym;
        assert(s.inside(symbol)[m] == x);
        lemma_holders_complete(s, s.inside(symbol), symbol, agent, ConflictRelation::Descendant, l);
        let k = choose|k: int| 0 <= k < b.len() && (#[trigger] b[k]).lease == l;
        assert(all[a.len() + k].lease == l);
    }
}

/// Only active leases of others on related symbols are in the way.
pub proof fn law_blocking_is_related(s: StoreV, symbol: Seq<char>, agent: Seq<char>, k: int)
    requires
        0 <= k < s.blocking(symbol, agent).len(),
    ensures
        ({
            let l = s.blocking(symbol, agent)[k].lease;
            s.leases.contains(l) && l.state is Active && l.agent != agent && s.related(
                l.symbol_id,
                symbol,
            )
        }),
{
    let a = s.holders(s.chain(symbol), symbol, agent, ConflictRelation::Ancestor);
    let l = s.blocking(symbol, agent)[k].lease;
    if k < a.len() {
        lemma_holders_sound(s, s.chain(symbol), symbol, agent, ConflictRelation::Ancestor, k);
    } else {
        lemma_holders_sound(
            s,
            s.inside(symbol),
            symbol,
            agent,
            ConflictRelation::Descendant,
            k - a.len(),
        );
        let p = |y: SymbolV| y.id != symbol && s.covers(symbol, y.id);
        let n = choose|n: int| 0 <= n < s.inside(symbol).len() && s.inside(symbol)[n] == l.symbol_id;
        let y = s.symbols.filter(p)[n];
        s.symbols.lemma_filter_contains_rev(p, y);
    }
}

proof fn lemma_preempt_fewer(
    s: StoreV,
    blocking: Seq<BlockerV>,
    by: Seq<char>,
    priority: i64,
    now: i64,
)
    ensures
        only_fewer(s, s.preempt_each(blocking, by, priority, now)),
{
    lemma_preempt_keeps(s, blocking, by, priority, now);
}

/// A grant keeps exclusion where nobody else holds anything related, and the
/// agent does not hold the symbol yet.
proof fn lemma_grant_exclusive(s: StoreV, sym: SymbolV, agent: Seq<char>, o: AcquireOptionsV, t: Tick)
    requires
        s.ids_differ(),
        s.exclusive(),
        forall|i: int|
            0 <= i < s.leases.len() && (#[trigger] s.leases[i]).state is Active ==> {
                &&& s.leases[i].symbol_id != sym.id
                &&& s.leases[i].agent != agent ==> !s.related(s.leases[i].symbol_id, sym.id)
            },
    ensures
        s.grant(sym, agent, o, t) matches Some((r, out)) ==> r.ids_differ() && r.exclusive(),
{
    let row = s.new_lease_row(sym.id, agent, o, t);
    if s.lease_row(row.id) is None {
        let r = (s.grant(sym, agent, o, t)->Some_0).0;
        law_first_where(s.leases, |l: LeaseRowV| l.id == row.id);
        assert(r.leases == s.leases.push(row));
        assert(r.symbols == s.symbols);
        assert forall|i: int, j: int|
            0 <= i < r.leases.len() && 0 <= j < r.leases.len() && i != j && (
            #[trigger] r.leases[i]).state is Active && (#[trigger] r.leases[j]).state is Active implies {
            &&& r.leases[i].symbol_id != r.leases[j].symbol_id
            &&& r.leases[i].agent != r.leases[j].agent ==> !r.related(
                r.leases[i].symbol_id,
                r.leases[j].symbol_id,
            )
        } by {
            assert(r.related(r.leases[i].symbol_id, r.leases[j].symbol_id) == s.related(
                r.leases[i].symbol_id,
                r.leases[j].symbol_id,
            ));
        }
    }
}

/// Acquiring keeps exclusion: whatever is asked for, no symbol is held twice, and
/// nobody holds anything inside or around what somebody else holds.
pub proof fn law_acquire_keeps_exclusion(
    s: StoreV,
    symbol: Seq<char>,
    agent: Seq<char>,
    o: AcquireOptionsV,
    t: Tick,
)
    requires
        s.ids_differ(),
        s.exclusive(),
    ensures
        s.acquire(symbol, agent, o, t).0.ids_differ(),
        s.acquire(symbol, agent, o, t).0.exclusive(),
{
    if let Some(sym) = s.symbol(symbol) {
        law_first_where(s.symbols, |x: SymbolV| x.id == symbol);
        let w = s.swept(t.now);
        lemma_swept_fewer(s, t.now);
        lemma_fewer(s, w);
        let here = w.active_on(sym.id);
        let blocking = w.blocking(sym.id, agent);
        if here.len() > 0 && here[0].agent == agent {
            let x = w.extend(here[0], sym, agent, o, t.now).0;
            assert(only_fewer(w, x));
            lemma_fewer(w, x);
        } else if blocking.len() > 0 && !overrides(blocking, o) {
            if let Some((x, out)) = w.deny(sym, agent, o, t, w.conflicts(blocking, t.now)) {
                lemma_deny_keeps(w, sym, agent, o, t, w.conflicts(blocking, t.now));
                assert(only_fewer(w, x));
                lemma_fewer(w, x);
            }
        } else {
            let p = w.preempt_each(blocking, agent, o.priority, t.now);
            lemma_preempt_fewer(w, blocking, agent, o.priority, t.now);
            lemma_fewer(w, p);
            match p.waiter_ahead(sym.id, agent, o.priority, t.now) {
                Some(q) => {
                    let cs = seq![p.queue_conflict(sym, q, t.now)];
                    if let Some((x, out)) = p.deny(sym, agent, o, t, cs) {
                        lemma_deny_keeps(p, sym, agent, o, t, cs);
                        assert(only_fewer(p, x));
                        lemma_fewer(p, x);
                    }
                },
                None => {
                    lemma_clear(w, sym, agent, o, t.now);
                    lemma_grant_exclusive(p, sym, agent, o, t);
                },
            }
        }
    }
}

/// Once the holders in the way are gone, nothing related is held by others, and
/// the symbol itself by nobody.
proof fn lemma_clear(w: StoreV, sym: SymbolV, agent: Seq<char>, o: AcquireOptionsV, now: i64)
    requires
        w.symbol(sym.id) is Some,
        w.ids_differ(),
        w.exclusive(),
        !(w.active_on(sym.id).len() > 0 && w.active_on(sym.id)[0].agent == agent),
    ensures
        ({
            let p = w.preempt_each(w.blocking(sym.id, agent), agent, o.priority, now);
            forall|i: int|
                0 <= i < p.leases.len() && (#[trigger] p.leases[i]).state is Active ==> {
                    &&& p.leases[i].symbol_id != sym.id
                    &&& p.leases[i].agent != agent ==> !p.related(p.leases[i].symbol_id, sym.id)
                }
        }),
{
    let blocking = w.blocking(sym.id, agent);
    let p = w.preempt_each(blocking, agent, o.priority, now);
    let rows = blocking.map_values(|b: BlockerV| b.lease);
    lemma_preempt_keeps(w, blocking, agent, o.priority, now);
    law_covers_itself(w, sym.id);
    assert forall|i: int| 0 <= i < p.leases.len() && (#[trigger] p.leases[i]).state is Active implies {
        &&& p.leases[i].symbol_id != sym.id
        &&& p.leases[i].agent != agent ==> !p.related(p.leases[i].symbol_id, sym.id)
    } by {
        let l = w.leases[i];
        assert(p.leases[i] == ended(l, rows, LeaseState::Preempted, now));
        assert(p.leases[i] == l);
        assert(w.leases.contains(l));
        if l.agent != agent && w.related(l.symbol_id, sym.id) {
            law_related_blocks(w, sym.id, agent, l);
            let k = choose|k: int| 0 <= k < blocking.len() && (#[trigger] blocking[k]).lease == l;
            assert(rows[k].id == l.id);
        }
        if l.agent == agent && l.symbol_id == sym.id {
            let q = |x: LeaseRowV| active_lease(x, sym.id);
            law_filter_has(w.leases, q, l);
            let first = w.active_on(sym.id)[0];
            w.leases.lemma_filter_contains_rev(q, first);
            let j = choose|j: int| 0 <= j < w.leases.len() && w.leases[j] == first;
            if j != i {
                assert(w.leases[i].symbol_id != w.leases[j].symbol_id);
            }
        }
        assert(p.related(l.symbol_id, sym.id) == w.related(l.symbol_id, sym.id));
    }
}

/// A denial touches no lease.
pub(crate) proof fn lemma_deny_keeps(
    s: StoreV,
    sym: SymbolV,
    agent: Seq<char>,
    o: AcquireOptionsV,
    t: Tick,
    conflicts: Seq<crate::model::ConflictV>,
)
    ensures
        s.deny(sym, agent, o, t, conflicts) matches Some((r, out)) ==> r.leases == s.leases && r.symbols
            == s.symbols && out == (AcquireOutcomeV::Denied { conflicts }),
{
}

/// Being denied costs nobody a lease, unless the request was allowed to preempt:
/// only leases that had run out are gone.
pub proof fn law_denied_takes_nothing(
    s: StoreV,
    symbol: Seq<char>,
    agent: Seq<char>,
    o: AcquireOptionsV,
    t: Tick,
)
    requires
        !o.preempt,
    ensures
        s.acquire(symbol, agent, o, t).1 matches Ok(AcquireOutcomeV::Denied { conflicts }) ==> s.acquire(
            symbol,
            agent,
            o,
            t,
        ).0.leases == s.expire_due(t.now).leases && conflicts.len() > 0,
{
    if let Some(sym) = s.symbol(symbol) {
        let w = s.swept(t.now);
        lemma_swept_fewer(s, t.now);
        let blocking = w.blocking(sym.id, agent);
        lemma_deny_keeps(w, sym, agent, o, t, w.conflicts(blocking, t.now));
        if blocking.len() == 0 {
            let p = w.preempt_each(blocking, agent, o.priority, t.now);
            assert(p == w);
            if let Some(q) = p.waiter_ahead(sym.id, agent, o.priority, t.now) {
                lemma_deny_keeps(p, sym, agent, o, t, seq![p.queue_conflict(sym, q, t.now)]);
            }
        }
    }
}

/// Holding a symbol keeps everybody else away from it, from what contains it and
/// from what it contains: a request that may not preempt is denied, with that
/// lease among the reasons.
pub proof fn law_holding_excludes(
    s: StoreV,
    symbol: Seq<char>,
    agent: Seq<char>,
    o: AcquireOptionsV,
    t: Tick,
    l: LeaseRowV,
)
    requires
        s.ids_differ(),
        s.exclusive(),
        s.symbol(symbol) is Some,
        s.swept(t.now).leases.contains(l),
        l.state is Active,
        l.agent != agent,
        s.related(l.symbol_id, symbol),
        s.active_on(symbol).len() == 0 || s.active_on(symbol)[0].agent != agent,
        !o.preempt,
    ensures
        match s.acquire(symbol, agent, o, t).1 {
            Ok(AcquireOutcomeV::Denied { conflicts }) => exists|k: int|
                0 <= k < conflicts.len() && (#[trigger] conflicts[k]).lease_id == l.id
                    && conflicts[k].holder == l.agent,
            Ok(_) => false,
            Err(e) => e.kind is Duplicate,
        },
{
    law_first_where(s.symbols, |x: SymbolV| x.id == symbol);
    let sym = s.symbol(symbol)->0;
    let w = s.swept(t.now);
    lemma_swept_fewer(s, t.now);
    lemma_fewer(s, w);
    assert(w.related(l.symbol_id, symbol) == s.related(l.symbol_id, symbol));
    law_related_blocks(w, symbol, agent, l);
    let blocking = w.blocking(symbol, agent);
    let k = choose|k: int| 0 <= k < blocking.len() && (#[trigger] blocking[k]).lease == l;
    let here = w.active_on(symbol);
    if here.len() > 0 && here[0].agent == agent {
        // A lease that is active after the sweep was active before it.
        let q = |x: LeaseRowV| active_lease(x, symbol);
        w.leases.lemma_filter_contains_rev(q, here[0]);
        let j = choose|j: int| 0 <= j < w.leases.len() && w.leases[j] == here[0];
        let before = s.leases[j];
        assert(before.state is Active && before.agent == agent && before.symbol_id == symbol);
        law_filter_has(s.leases, q, before);
        let first = s.active_on(symbol)[0];
        s.leases.lemma_filter_contains_rev(q, first);
        let m = choose|m: int| 0 <= m < s.leases.len() && s.leases[m] == first;
        if m != j {
            assert(s.leases[m].symbol_id != s.leases[j].symbol_id);
        }
        assert(false);
    }
    let cs = w.conflicts(blocking, t.now);
    assert(cs[k].lease_id == l.id && cs[k].holder == l.agent);
    lemma_deny_keeps(w, sym, agent, o, t, cs);
    assert(!overrides(blocking, o));
    assert(w.acquire_swept(sym, agent, o, t) == w.deny(sym, agent, o, t, cs));
    match w.deny(sym, agent, o, t, cs) {
        Some((r, out)) => {
            assert(s.acquire(symbol, agent, o, t).1 == Ok::<AcquireOutcomeV, crate::store::StoreErrorV>(out));
            assert(out == (AcquireOutcomeV::Denied { conflicts: cs }));
            assert(out->conflicts[k].lease_id == l.id);
        },
        None => {
            assert(s.acquire(symbol, agent, o, t).1 is Err);
        },
    }
}

/// Success is owed where nothing is in the way: nobody else holds anything
/// related, and nobody else waits.
pub proof fn law_free_is_granted(
    s: StoreV,
    symbol: Seq<char>,
    agent: Seq<char>,
    o: AcquireOptionsV,
    t: Tick,
)
    requires
        s.symbol(symbol) is Some,
        s.swept(t.now).blocking(symbol, agent).len() == 0,
        s.swept(t.now).rivals(symbol, agent).len() == 0,
    ensures
        match s.acquire(symbol, agent, o, t).1 {
            Ok(AcquireOutcomeV::Denied { conflicts }) => false,
            Ok(AcquireOutcomeV::Granted { lease }) => lease.agent == agent && lease.symbol_id == symbol,
            Ok(AcquireOutcomeV::Extended { lease }) => s.swept(t.now).active_on(symbol).len() > 0
                && s.swept(t.now).active_on(symbol)[0].agent == agent,
            Err(e) => e.kind is Duplicate,
        },
{
    law_first_where(s.symbols, |x: SymbolV| x.id == symbol);
    let w = s.swept(t.now);
    assert(w.preempt_each(w.blocking(symbol, agent), agent, o.priority, t.now) == w);
}

/// Preemption is for the strictly stronger: whoever loses a lease to a request had
/// a lower priority, and the request was allowed to preempt.
pub proof fn law_preemption_outranks(
    s: StoreV,
    symbol: Seq<char>,
    agent: Seq<char>,
    o: AcquireOptionsV,
    t: Tick,
    i: int,
)
    requires
        s.ids_differ(),
        0 <= i < s.leases.len(),
        s.leases[i].state is Active,
        s.acquire(symbol, agent, o, t).0.leases[i].state is Preempted,
    ensures
        o.preempt,
        s.leases[i].priority < o.priority,
        s.leases[i].agent != agent,
        s.related(s.leases[i].symbol_id, symbol),
{
    if let Some(sym) = s.symbol(symbol) {
        law_first_where(s.symbols, |x: SymbolV| x.id == symbol);
        let w = s.swept(t.now);
        lemma_swept_fewer(s, t.now);
        lemma_expire_keeps(s, t.now);
        lemma_finish_each_keeps(s, s.due_leases(t.now), LeaseState::Expired, "ttl expired"@, t.now);
        assert(!(w.leases[i].state is Preempted));
        let here = w.active_on(sym.id);
        let blocking = w.blocking(sym.id, agent);
        let rows = blocking.map_values(|b: BlockerV| b.lease);
        if here.len() > 0 && here[0].agent == agent {
        } else if blocking.len() > 0 && !overrides(blocking, o) {
            lemma_deny_keeps(w, sym, agent, o, t, w.conflicts(blocking, t.now));
        } else {
            let p = w.preempt_each(blocking, agent, o.priority, t.now);
            lemma_preempt_keeps(w, blocking, agent, o.priority, t.now);
            if let Some(q) = p.waiter_ahead(sym.id, agent, o.priority, t.now) {
                lemma_deny_keeps(p, sym, agent, o, t, seq![p.queue_conflict(sym, q, t.now)]);
            }
            if s.acquire(symbol, agent, o, t).1 is Ok {
                assert(p.leases[i].state is Preempted);
                let l = w.leases[i];
                let k = choose|k: int| 0 <= k < rows.len() && (#[trigger] rows[k]).id == l.id;
                law_blocking_is_related(w, sym.id, agent, k);
                let b = blocking[k].lease;
                let j = choose|j: int| 0 <= j < w.leases.len() && w.leases[j] == b;
                assert(s.leases[j].id == s.leases[i].id);
                assert(j == i);
                assert(blocking[k].lease.priority < o.priority);
                assert(w.related(l.symbol_id, symbol) == s.related(l.symbol_id, symbol));
            }
        }
    }
}

/// Asking again for what one holds extends the same lease.
pub proof fn law_reacquire_extends(
    s: StoreV,
    symbol: Seq<char>,
    agent: Seq<char>,
    o: AcquireOptionsV,
    t: Tick,
)
    requires
        s.symbol(symbol) is Some,
        s.swept(t.now).active_on(symbol).len() > 0,
        s.swept(t.now).active_on(symbol)[0].agent == agent,
    ensures
        ({
            let mine = s.swept(t.now).active_on(symbol)[0];
            s.acquire(symbol, agent, o, t).1 matches Ok(AcquireOutcomeV::Extended { lease }) && lease.id
                == mine.id && lease.expires_at == (t.now + o.ttl_secs * 1000) as i64
        }),
{
    law_first_where(s.symbols, |x: SymbolV| x.id == symbol);
    let w = s.swept(t.now);
    let mine = w.active_on(symbol)[0];
    let q = |x: LeaseRowV| active_lease(x, symbol);
    w.leases.lemma_filter_contains_rev(q, mine);
    let h = |l: LeaseRowV| extended(l, o, t.now);
    lemma_first_changed(w.leases, mine.id, h);
    law_first_where(w.leases, |l: LeaseRowV| l.id == mine.id);
    let j = choose|j: int| 0 <= j < w.leases.len() && w.leases[j] == mine;
    assert(w.leases[j].id == mine.id);
}

/// Handing a lease over never frees the symbol: it is held throughout, under the
/// same id, first by the one and then by the other.
pub proof fn law_transfer_never_frees(s: StoreV, id: Seq<char>, from: Seq<char>, to: Seq<char>, now: i64)
    requires
        s.transfer_lease(id, from, to, now).1 is Ok,
    ensures
        ({
            let r = s.transfer_lease(id, from, to, now).0;
            let l = s.lease_row(id)->0;
            &&& held(l, from)
            &&& r.lease_row(id) matches Some(x) && held(x, to) && x.symbol_id == l.symbol_id
                && x.expires_at == (now + l.ttl_secs * 1000) as i64
            &&& r.place(l.symbol_id, to) is None
        }),
{
    let r = s.transfer_lease(id, from, to, now).0;
    let l = s.lease_row(id)->0;
    law_first_where(s.leases, |x: LeaseRowV| x.id == id);
    let h = |x: LeaseRowV| handed(x, to, now);
    lemma_first_changed(s.leases, id, h);
    assert(r.leases == s.with_lease(id, h).leases);
    law_first_where(r.queue, |q: QueueRowV| waits(q, l.symbol_id, to));
    if let Some(q) = r.place(l.symbol_id, to) {
        let k = choose|k: int| 0 <= k < r.queue.len() && r.queue[k] == q;
        assert(s.queue[k].symbol_id == q.symbol_id);
    }
}

/// Handing a lease over keeps exclusion, provided that the one who hands it over
/// holds nothing else inside or around it.
pub proof fn law_transfer_keeps_exclusion(
    s: StoreV,
    id: Seq<char>,
    from: Seq<char>,
    to: Seq<char>,
    now: i64,
)
    requires
        s.ids_differ(),
        s.exclusive(),
        s.lease_row(id) matches Some(l) ==> forall|i: int|
            0 <= i < s.leases.len() && (#[trigger] s.leases[i]).id != id && held(s.leases[i], from)
                ==> !s.related(s.leases[i].symbol_id, l.symbol_id),
    ensures
        s.transfer_lease(id, from, to, now).0.ids_differ(),
        s.transfer_lease(id, from, to, now).0.exclusive(),
{
    if s.transfer_lease(id, from, to, now).1 is Ok {
        let r = s.transfer_lease(id, from, to, now).0;
        let l = s.lease_row(id)->0;
        law_first_where(s.leases, |x: LeaseRowV| x.id == id);
        let m = choose|m: int| 0 <= m < s.leases.len() && s.leases[m] == l;
        assert(r.symbols == s.symbols);
        assert forall|i: int| 0 <= i < s.leases.len() implies #[trigger] r.leases[i] == (if i == m {
            handed(l, to, now)
        } else {
            s.leases[i]
        }) by {
            if i != m {
                assert(s.leases[i].id != s.leases[m].id);
            }
        }
        assert forall|i: int, j: int|
            0 <= i < r.leases.len() && 0 <= j < r.leases.len() && i != j && (
            #[trigger] r.leases[i]).state is Active && (#[trigger] r.leases[j]).state is Active implies {
            &&& r.leases[i].symbol_id != r.leases[j].symbol_id
            &&& r.leases[i].agent != r.leases[j].agent ==> !r.related(
                r.leases[i].symbol_id,
                r.leases[j].symbol_id,
            )
        } by {
            let a = s.leases[i];
            let b = s.leases[j];
            assert(a.symbol_id != b.symbol_id);
            assert(a.id != b.id);
            assert(r.related(a.symbol_id, b.symbol_id) == s.related(a.symbol_id, b.symbol_id));
            assert(s.related(a.symbol_id, b.symbol_id) == s.related(b.symbol_id, a.symbol_id));
        }
        assert forall|i: int, j: int|
            0 <= i < r.leases.len() && 0 <= j < r.leases.len() && i != j implies (
        #[trigger] r.leases[i]).id != (#[trigger] r.leases[j]).id by {
            assert(s.leases[i].id != s.leases[j].id);
        }
    }
}

/// Releasing, expiring and preempting keep exclusion.
pub proof fn law_ending_keeps_exclusion(
    s: StoreV,
    rows: Seq<LeaseRowV>,
    state: LeaseState,
    reason: Seq<char>,
    now: i64,
)
    requires
        s.ids_differ(),
        s.exclusive(),
        !(state is Active),
    ensures
        s.finish_each(rows, state, reason, now).ids_differ(),
        s.finish_each(rows, state, reason, now).exclusive(),
{
    lemma_finish_each_keeps(s, rows, state, reason, now);
    lemma_fewer(s, s.finish_each(rows, state, reason, now));
}

/// Heartbeats keep exclusion.
pub proof fn law_heartbeat_keeps_exclusion(
    s: StoreV,
    agent: Seq<char>,
    lease: Option<Seq<char>>,
    now: i64,
)
    requires
        s.ids_differ(),
        s.exclusive(),
    ensures
        s.heartbeat(agent, lease, now).ids_differ(),
        s.heartbeat(agent, lease, now).exclusive(),
{
    lemma_swept_fewer(s, now);
    let w = s.expire_due(now);
    lemma_fewer(s, w);
    assert(only_fewer(w, s.heartbeat(agent, lease, now)));
    lemma_fewer(w, s.heartbeat(agent, lease, now));
}

/// After the sweep nothing is left that has run out, and nothing else was ended.
pub proof fn law_expiry_complete(s: StoreV, now: i64, i: int)
    requires
        0 <= i < s.leases.len(),
        s.ids_differ(),
    ensures
        ({
            let r = s.expire_due(now);
            &&& r.leases.len() == s.leases.len()
            &&& !due(r.leases[i], now)
            &&& due(s.leases[i], now) ==> r.leases[i] == finished(s.leases[i], LeaseState::Expired, now)
            &&& !due(s.leases[i], now) ==> r.leases[i] == s.leases[i]
        }),
{
    let rows = s.due_leases(now);
    let p = |l: LeaseRowV| due(l, now);
    lemma_finish_each_keeps(s, rows, LeaseState::Expired, "ttl expired"@, now);
    let l = s.leases[i];
    if due(l, now) {
        law_filter_has(s.leases, p, l);
        let k = choose|k: int| 0 <= k < rows.len() && rows[k] == l;
        assert(rows[k].id == l.id);
    } else if exists|k: int| 0 <= k < rows.len() && (#[trigger] rows[k]).id == l.id {
        let k = choose|k: int| 0 <= k < rows.len() && (#[trigger] rows[k]).id == l.id;
        s.leases.lemma_filter_contains_rev(p, rows[k]);
        let j = choose|j: int| 0 <= j < s.leases.len() && s.leases[j] == rows[k];
        assert(j == i);
    }
}

/// The sweep ends exactly the leases that have run out, and leaves none of them.
pub(crate) proof fn lemma_nothing_due(s: StoreV, now: i64)
    requires
        s.ids_differ(),
    ensures
        s.expire_due(now).due_leases(now).len() == 0,
        s.expire_due(now).leases == s.leases.map_values(
            |l: LeaseRowV|
                if due(l, now) {
                    finished(l, LeaseState::Expired, now)
                } else {
                    l
                },
        ),
{
    let r = s.expire_due(now);
    let f = |l: LeaseRowV|
        if due(l, now) {
            finished(l, LeaseState::Expired, now)
        } else {
            l
        };
    lemma_finish_each_keeps(s, s.due_leases(now), LeaseState::Expired, "ttl expired"@, now);
    assert forall|i: int| 0 <= i < s.leases.len() implies r.leases[i] == s.leases.map_values(f)[i] by {
        law_expiry_complete(s, now, i);
    }
    assert(r.leases =~= s.leases.map_values(f));
    let p = |l: LeaseRowV| due(l, now);
    if r.due_leases(now).len() > 0 {
        let x = r.due_leases(now)[0];
        r.leases.lemma_filter_contains_rev(p, x);
        let j = choose|j: int| 0 <= j < r.leases.len() && r.leases[j] == x;
        law_expiry_complete(s, now, j);
    }
}

/// Sweeping twice is sweeping once.
pub proof fn law_expiry_idempotent(s: StoreV, now: i64)
    requires
        s.ids_differ(),
    ensures
        s.expire_due(now).expire_due(now) == s.expire_due(now),
{
    let r = s.expire_due(now);
    let p = |l: LeaseRowV| due(l, now);
    lemma_finish_each_keeps(s, s.due_leases(now), LeaseState::Expired, "ttl expired"@, now);
    if r.due_leases(now).len() > 0 {
        let x = r.due_leases(now)[0];
        r.leases.lemma_filter_contains_rev(p, x);
        let j = choose|j: int| 0 <= j < r.leases.len() && r.leases[j] == x;
        law_expiry_complete(s, now, j);
    }
    assert(r.due_leases(now) =~= Seq::empty());
}

/// A heartbeat keeps its holder's leases alive: those with a lifetime ahead of them
/// have not run out, and run out no earlier than a lifetime from now.
pub proof fn law_heartbeat_renews(s: StoreV, agent: Seq<char>, now: i64, i: int)
    requires
        s.wf(),
        crate::store::sane_time(now),
        0 <= i < s.leases.len(),
        held(s.leases[i], agent),
        !due(s.leases[i], now),
    ensures
        s.heartbeat(agent, None, now).leases[i] == renewed(s.leases[i], now),
        s.heartbeat(agent, None, now).leases[i].expires_at == now + s.leases[i].ttl_secs * 1000,
{
    law_expiry_complete(s, now, i);
    let w = s.expire_due(now);
    let l = w.leases[i];
    assert(crate::store::lease_ok(s.leases[i]));
    let p = |x: LeaseRowV| held(x, agent);
    law_filter_has(w.leases, p, l);
    let k = choose|k: int| 0 <= k < w.held_by(agent).len() && w.held_by(agent)[k] == l;
    let ids = w.beating(agent, None).map_values(|x: LeaseRowV| x.id);
    assert(ids[k] == l.id);
}

/// Asking again does not cost a waiter its place: the number in line and the time
/// of the request stay.
pub proof fn law_polling_keeps_place(
    s: StoreV,
    sym: SymbolV,
    agent: Seq<char>,
    o: AcquireOptionsV,
    t: Tick,
)
    requires
        s.place(sym.id, agent) is Some,
    ensures
        s.enqueue(sym, agent, o, t) matches Some(r) && r.place(sym.id, agent) matches Some(q) && q.seq
            == s.place(sym.id, agent)->0.seq && q.requested_at == s.place(sym.id, agent)->0.requested_at
            && q.polled_at == t.now,
{
    let mine = s.place(sym.id, agent)->0;
    let f = |q: QueueRowV|
        if q.id == mine.id {
            QueueRowV { polled_at: t.now, priority: o.priority, ..q }
        } else {
            q
        };
    lemma_first_place(s.queue, sym.id, agent, f);
}

proof fn lemma_first_place(
    rows: Seq<QueueRowV>,
    symbol: Seq<char>,
    agent: Seq<char>,
    f: spec_fn(QueueRowV) -> QueueRowV,
)
    requires
        forall|q: QueueRowV|
            (#[trigger] f(q)).agent == q.agent && f(q).symbol_id == q.symbol_id && f(q).state
                == q.state,
    ensures
        ({
            let p = |q: QueueRowV| waits(q, symbol, agent);
            first_where(rows.map_values(f), p) == (match first_where(rows, p) {
                Some(q) => Some(f(q)),
                None => None,
            })
        }),
    decreases rows.len(),
{
    if rows.len() > 0 {
        lemma_first_place(rows.drop_first(), symbol, agent, f);
        assert(rows.map_values(f).drop_first() =~= rows.drop_first().map_values(f));
    }
}

/// The order in which agents wait is one that sorting can use.
pub proof fn law_line_is_ordered()
    ensures
        weak_order(rank::<QueueRow>()),
{
}

/// The line is a line: a lease is granted only to a request that nobody still
/// waiting for the symbol has a better claim than.
pub proof fn law_grant_respects_line(
    s: StoreV,
    symbol: Seq<char>,
    agent: Seq<char>,
    o: AcquireOptionsV,
    t: Tick,
    q: QueueRowV,
)
    requires
        s.acquire(symbol, agent, o, t).1 matches Ok(AcquireOutcomeV::Granted { lease }),
        s.swept(t.now).queue.contains(q),
        rivals(q, symbol, agent),
    ensures
        ({
            let (priority, seq) = match s.swept(t.now).place(symbol, agent) {
                Some(mine) => (mine.priority, mine.seq),
                None => (o.priority, i64::MAX),
            };
            !(q.priority > priority || (q.priority == priority && q.seq < seq))
        }),
{
    law_first_where(s.symbols, |x: SymbolV| x.id == symbol);
    let sym = s.symbol(symbol)->0;
    let w = s.swept(t.now);
    let blocking = w.blocking(symbol, agent);
    let p = w.preempt_each(blocking, agent, o.priority, t.now);
    lemma_preempt_keeps(w, blocking, agent, o.priority, t.now);
    lemma_deny_keeps(w, sym, agent, o, t, w.conflicts(blocking, t.now));
    assert(p.queue == w.queue);
    let test = |x: QueueRowV| rivals(x, symbol, agent);
    let some = p.queue.filter(test);
    let line = p.rivals(symbol, agent);
    law_sorted_keeps(some, rank::<QueueRow>());
    law_sorted_ordered(some, rank::<QueueRow>());
    law_filter_has(p.queue, test, q);
    lemma_listed(some, line, q);
    let k = choose|k: int| 0 <= k < line.len() && line[k] == q;
    lemma_listed(line, some, line[0]);
    p.queue.lemma_filter_contains_rev(test, line[0]);
    let m = choose|m: int| 0 <= m < p.queue.len() && p.queue[m] == line[0];
    assert(!stale(line[0], t.now));
    if k > 0 {
        assert(!rank::<QueueRow>()(line[k], line[0]));
    }
    if let Some(a) = p.waiter_ahead(symbol, agent, o.priority, t.now) {
        lemma_deny_keeps(p, sym, agent, o, t, seq![p.queue_conflict(sym, a, t.now)]);
    }
}

pub(crate) proof fn lemma_listed(a: Seq<QueueRowV>, b: Seq<QueueRowV>, x: QueueRowV)
    requires
        a.to_multiset() == b.to_multiset(),
        a.contains(x),
    ensures
        b.contains(x),
{
    broadcast use vstd::seq_lib::group_to_multiset_ensures;

    assert(a.to_multiset().count(x) > 0);
}

/// Whoever is granted a lease waits for it no more.
pub proof fn law_grant_ends_wait(
    s: StoreV,
    symbol: Seq<char>,
    agent: Seq<char>,
    o: AcquireOptionsV,
    t: Tick,
)
    requires
        s.acquire(symbol, agent, o, t).1 matches Ok(AcquireOutcomeV::Granted { lease }),
    ensures
        s.acquire(symbol, agent, o, t).0.place(symbol, agent) is None,
{
    law_first_where(s.symbols, |x: SymbolV| x.id == symbol);
    let sym = s.symbol(symbol)->0;
    let w = s.swept(t.now);
    let blocking = w.blocking(symbol, agent);
    let p = w.preempt_each(blocking, agent, o.priority, t.now);
    lemma_deny_keeps(w, sym, agent, o, t, w.conflicts(blocking, t.now));
    if let Some(a) = p.waiter_ahead(symbol, agent, o.priority, t.now) {
        lemma_deny_keeps(p, sym, agent, o, t, seq![p.queue_conflict(sym, a, t.now)]);
    }
    let r = s.acquire(symbol, agent, o, t).0;
    law_first_where(r.queue, |q: QueueRowV| waits(q, symbol, agent));
    if let Some(q) = r.place(symbol, agent) {
        let k = choose|k: int| 0 <= k < r.queue.len() && r.queue[k] == q;
        assert(p.queue[k].symbol_id == q.symbol_id);
        assert(p.queue[k].agent == q.agent);
    }
}

/// Does the agent hold the symbol, with time left?
pub open spec fn holds_live(s: StoreV, agent: Seq<char>, symbol: Seq<char>, now: i64) -> bool {
    exists|i: int|
        0 <= i < s.leases.len() && held(#[trigger] s.leases[i], agent) && s.leases[i].symbol_id == symbol
            && !due(s.leases[i], now)
}

/// Acquiring more never costs an agent what it holds.
pub proof fn law_acquire_keeps_own(
    s: StoreV,
    symbol: Seq<char>,
    agent: Seq<char>,
    o: AcquireOptionsV,
    t: Tick,
    x: Seq<char>,
)
    requires
        s.ids_differ(),
        t.ok(),
        0 < o.ttl_secs <= crate::store::TTL_LIMIT,
        holds_live(s, agent, x, t.now),
    ensures
        holds_live(s.acquire(symbol, agent, o, t).0, agent, x, t.now),
{
    let i = choose|i: int|
        0 <= i < s.leases.len() && held(#[trigger] s.leases[i], agent) && s.leases[i].symbol_id == x && !due(
            s.leases[i],
            t.now,
        );
    let r = s.acquire(symbol, agent, o, t).0;
    if let Some(sym) = s.symbol(symbol) {
        law_expiry_complete(s, t.now, i);
        let w = s.swept(t.now);
        lemma_swept_fewer(s, t.now);
        let here = w.active_on(sym.id);
        let blocking = w.blocking(sym.id, agent);
        let rows = blocking.map_values(|b: BlockerV| b.lease);
        if here.len() > 0 && here[0].agent == agent {
            assert(held(r.leases[i], agent));
        } else if blocking.len() > 0 && !overrides(blocking, o) {
            lemma_deny_keeps(w, sym, agent, o, t, w.conflicts(blocking, t.now));
            assert(held(r.leases[i], agent));
        } else {
            let p = w.preempt_each(blocking, agent, o.priority, t.now);
            lemma_preempt_keeps(w, blocking, agent, o.priority, t.now);
            if exists|k: int| 0 <= k < rows.len() && (#[trigger] rows[k]).id == w.leases[i].id {
                let k = choose|k: int| 0 <= k < rows.len() && (#[trigger] rows[k]).id == w.leases[i].id;
                law_blocking_is_related(w, sym.id, agent, k);
                let j = choose|j: int| 0 <= j < w.leases.len() && w.leases[j] == rows[k];
                assert(s.leases[j].id == s.leases[i].id);
            }
            if let Some(q) = p.waiter_ahead(sym.id, agent, o.priority, t.now) {
                lemma_deny_keeps(p, sym, agent, o, t, seq![p.queue_conflict(sym, q, t.now)]);
            }
            assert(held(r.leases[i], agent));
        }
    } else {
        assert(held(r.leases[i], agent));
    }
}

/// What was granted or extended is held, with time left.
pub proof fn law_acquired_is_held(
    s: StoreV,
    symbol: Seq<char>,
    agent: Seq<char>,
    o: AcquireOptionsV,
    t: Tick,
)
    requires
        t.ok(),
        0 < o.ttl_secs <= crate::store::TTL_LIMIT,
        s.acquire(symbol, agent, o, t).1 matches Ok(out) && !(out is Denied),
    ensures
        holds_live(s.acquire(symbol, agent, o, t).0, agent, symbol, t.now),
{
    law_first_where(s.symbols, |x: SymbolV| x.id == symbol);
    let sym = s.symbol(symbol)->0;
    let w = s.swept(t.now);
    let here = w.active_on(symbol);
    let blocking = w.blocking(symbol, agent);
    let r = s.acquire(symbol, agent, o, t).0;
    if here.len() > 0 && here[0].agent == agent {
        let q = |x: LeaseRowV| active_lease(x, symbol);
        w.leases.lemma_filter_contains_rev(q, here[0]);
        let j = choose|j: int| 0 <= j < w.leases.len() && w.leases[j] == here[0];
        assert(held(r.leases[j], agent));
    } else {
        lemma_deny_keeps(w, sym, agent, o, t, w.conflicts(blocking, t.now));
        let p = w.preempt_each(blocking, agent, o.priority, t.now);
        if let Some(q) = p.waiter_ahead(symbol, agent, o.priority, t.now) {
            lemma_deny_keeps(p, sym, agent, o, t, seq![p.queue_conflict(sym, q, t.now)]);
        }
        assert(held(r.leases[p.leases.len() as int], agent));
    }
}

proof fn lemma_each_held(
    s: StoreV,
    scope: Seq<Seq<char>>,
    agent: Seq<char>,
    o: AcquireOptionsV,
    t: Tick,
)
    requires
        s.ids_differ(),
        s.exclusive(),
        t.ok(),
        0 < o.ttl_secs <= crate::store::TTL_LIMIT,
    ensures
        s.acquire_each(scope, agent, o, t).0.ids_differ(),
        s.acquire_each(scope, agent, o, t).0.exclusive(),
        s.acquire_each(scope, agent, o, t).1 matches Ok(cs) && cs.len() == 0 ==> forall|k: int|
            0 <= k < scope.len() ==> holds_live(
                s.acquire_each(scope, agent, o, t).0,
                agent,
                #[trigger] scope[k],
                t.now,
            ),
    decreases scope.len(),
{
    if scope.len() > 0 {
        let init = scope.drop_last();
        lemma_each_held(s, init, agent, o, t);
        let (m, r) = s.acquire_each(init, agent, o, t);
        if r matches Ok(cs) && cs.len() == 0 {
            let x = scope.last();
            law_acquire_keeps_exclusion(m, x, agent, o, t);
            if m.acquire(x, agent, o, t).1 is Err {
            } else {
                let e = s.acquire_each(scope, agent, o, t);
                assert(e.0 == m.acquire(x, agent, o, t).0);
                if e.1 matches Ok(cs) && cs.len() == 0 {
                    lemma_denied_has_conflicts(m, x, agent, o, t);
                    law_acquired_is_held(m, x, agent, o, t);
                    assert forall|k: int| 0 <= k < scope.len() implies holds_live(
                        e.0,
                        agent,
                        #[trigger] scope[k],
                        t.now,
                    ) by {
                        if k < init.len() {
                            assert(scope[k] == init[k]);
                            law_acquire_keeps_own(m, x, agent, o, t, init[k]);
                        }
                    }
                }
            }
        }
    }
}

/// A denial always says why.
proof fn lemma_denied_has_conflicts(
    s: StoreV,
    symbol: Seq<char>,
    agent: Seq<char>,
    o: AcquireOptionsV,
    t: Tick,
)
    ensures
        s.acquire(symbol, agent, o, t).1 matches Ok(AcquireOutcomeV::Denied { conflicts })
            ==> conflicts.len() > 0,
{
    if let Some(sym) = s.symbol(symbol) {
        let w = s.swept(t.now);
        let blocking = w.blocking(sym.id, agent);
        lemma_deny_keeps(w, sym, agent, o, t, w.conflicts(blocking, t.now));
        let p = w.preempt_each(blocking, agent, o.priority, t.now);
        if let Some(q) = p.waiter_ahead(sym.id, agent, o.priority, t.now) {
            lemma_deny_keeps(p, sym, agent, o, t, seq![p.queue_conflict(sym, q, t.now)]);
        }
    }
}

/// A scope is had whole or not at all: with no conflicts, the agent holds every
/// symbol of it; with a conflict or a failure, nothing has changed.
pub proof fn law_scope_all_or_nothing(
    s: StoreV,
    scope: Seq<Seq<char>>,
    agent: Seq<char>,
    o: AcquireOptionsV,
    t: Tick,
)
    requires
        s.ids_differ(),
        s.exclusive(),
        t.ok(),
        0 < o.ttl_secs <= crate::store::TTL_LIMIT,
    ensures
        match s.settle_scope(scope, agent, o, t).1 {
            Ok(cs) => if cs.len() == 0 {
                forall|k: int|
                    0 <= k < scope.len() ==> holds_live(
                        s.settle_scope(scope, agent, o, t).0,
                        agent,
                        #[trigger] scope[k],
                        t.now,
                    )
            } else {
                s.settle_scope(scope, agent, o, t).0 == s
            },
            Err(e) => s.settle_scope(scope, agent, o, t).0 == s,
        },
        s.settle_scope(scope, agent, o, t).0.ids_differ(),
        s.settle_scope(scope, agent, o, t).0.exclusive(),
{
    lemma_each_held(s, scope, agent, o, t);
}

} // verus!
