//! When an edit is in somebody's way.

use vstd::prelude::*;
use vstd::string::*;

use crate::edge_laws::{lemma_parts, lemma_texts};
use crate::guard::{GuardReportV, GuardVerdict};
use crate::holding_laws::{holds_then, is_around, law_covering_is_being_around};
use crate::index::file_id_of;
use crate::lease::active_lease;
use crate::lookup_laws::lemma_filtered;
use crate::model::{ConflictRelation, ConflictV, SymbolV};
use crate::store::{first_where, law_first_where, LeaseRowV, StoreErrorV, StoreV};
use crate::work::TaskViewV;

verus! {

broadcast use vstd::string::group_string_axioms;

/// Does somebody else hold the symbol, what is around it or what is inside it?
pub open spec fn in_the_way(s: StoreV, l: LeaseRowV, symbol: Seq<char>, agent: Seq<char>, now: i64) -> bool {
    &&& s.leases.contains(l)
    &&& holds_then(l, now)
    &&& l.agent != agent
    &&& l.symbol_id == symbol || is_around(s, l.symbol_id, symbol) || is_around(s, symbol, l.symbol_id)
}

/// Where the symbol of a lease lies, seen from another.
pub open spec fn lies_there(s: StoreV, symbol: Seq<char>, other: Seq<char>, relation: ConflictRelation) -> bool {
    if other == symbol {
        relation is Same
    } else if is_around(s, other, symbol) {
        relation is Ancestor
    } else {
        relation is Descendant
    }
}

/// Does a conflict tell of a lease?
pub open spec fn tells_of(s: StoreV, c: ConflictV, l: LeaseRowV, symbol: Seq<char>) -> bool {
    &&& c.lease_id == l.id
    &&& c.holder == l.agent
    &&& c.task == l.task
    &&& c.priority == l.priority
    &&& c.expires_at == l.expires_at
    &&& lies_there(s, symbol, l.symbol_id, c.relation)
}

proof fn lemma_neighbourhood(s: StoreV, symbol: Seq<char>, x: Seq<char>)
    ensures
        s.neighbourhood(symbol).contains(x) <==> x == symbol || is_around(s, x, symbol) || is_around(s, symbol, x),
{
    let a = seq![symbol];
    let b = s.chain(symbol);
    let c = s.inside(symbol);
    lemma_texts(a + b + c, x);
    lemma_parts(a + b, c, x);
    lemma_parts(a, b, x);
    assert(a.contains(x) <==> x == symbol) by {
        assert(a[0] == symbol);
    }
    law_covering_is_being_around(s, x, symbol);
    law_covering_is_being_around(s, symbol, x);
    let p = |y: SymbolV| y.id != symbol && s.covers(symbol, y.id);
    let kept = s.symbols.filter(p);
    if c.contains(x) {
        let n = choose|n: int| 0 <= n < c.len() && c[n] == x;
        assert(kept.contains(kept[n]));
        lemma_filtered(s.symbols, p, kept[n]);
    }
    if s.covers(symbol, x) && x != symbol {
        let q = |y: SymbolV| y.id == x;
        law_first_where(s.symbols, q);
        assert(s.chain(x).len() > 0);
        assert(s.symbol(x) is Some);
        let y = s.symbol(x)->0;
        lemma_filtered(s.symbols, p, y);
        let n = choose|n: int| 0 <= n < kept.len() && kept[n] == y;
        assert(c[n] == x);
    }
}

proof fn lemma_live_conflicts(
    s: StoreV,
    ids: Seq<Seq<char>>,
    symbol: Seq<char>,
    agent: Seq<char>,
    now: i64,
    c: ConflictV,
)
    ensures
        s.live_conflicts(ids, symbol, agent, now).contains(c) <==> exists|l: LeaseRowV|
            #[trigger] s.leases.contains(l) && holds_then(l, now) && l.agent != agent && ids.contains(l.symbol_id) && c
                == s.conflict_from(l, s.relation_of(symbol, l.symbol_id), now),
    decreases ids.len(),
{
    if ids.len() > 0 {
        let init = ids.drop_last();
        let id = ids.last();
        lemma_live_conflicts(s, init, symbol, agent, now, c);
        let a = s.live_conflicts(init, symbol, agent, now);
        let p = |l: LeaseRowV| active_lease(l, id) && l.agent != agent && l.expires_at > now;
        let kept = s.leases.filter(p);
        let b = kept.map_values(|l: LeaseRowV| s.conflict_from(l, s.relation_of(symbol, id), now));
        let all = s.live_conflicts(ids, symbol, agent, now);
        assert(all =~= a + b);
        lemma_parts(a, b, c);
        if b.contains(c) {
            let n = choose|n: int| 0 <= n < b.len() && b[n] == c;
            let l = kept[n];
            assert(kept.contains(l));
            lemma_filtered(s.leases, p, l);
            assert(ids[ids.len() - 1] == l.symbol_id);
            assert(s.leases.contains(l));
        }
        if a.contains(c) {
            let l = choose|l: LeaseRowV|
                #[trigger] s.leases.contains(l) && holds_then(l, now) && l.agent != agent && init.contains(l.symbol_id)
                    && c == s.conflict_from(l, s.relation_of(symbol, l.symbol_id), now);
            let k = choose|k: int| 0 <= k < init.len() && init[k] == l.symbol_id;
            assert(ids[k] == l.symbol_id);
            assert(s.leases.contains(l));
        }
        if exists|l: LeaseRowV|
            #[trigger] s.leases.contains(l) && holds_then(l, now) && l.agent != agent && ids.contains(l.symbol_id) && c
                == s.conflict_from(l, s.relation_of(symbol, l.symbol_id), now) {
            let l = choose|l: LeaseRowV|
                #[trigger] s.leases.contains(l) && holds_then(l, now) && l.agent != agent && ids.contains(l.symbol_id)
                    && c == s.conflict_from(l, s.relation_of(symbol, l.symbol_id), now);
            let k = choose|k: int| 0 <= k < ids.len() && ids[k] == l.symbol_id;
            if k < init.len() {
                assert(init[k] == l.symbol_id);
            } else {
                lemma_filtered(s.leases, p, l);
                let n = choose|n: int| 0 <= n < kept.len() && kept[n] == l;
                assert(b[n] == c);
            }
        }
    }
}

proof fn lemma_relation(s: StoreV, symbol: Seq<char>, other: Seq<char>)
    ensures
        lies_there(s, symbol, other, s.relation_of(symbol, other)),
{
    law_covering_is_being_around(s, other, symbol);
}

/// Everything that is in the way is a conflict, which says who holds it and how it lies.
pub proof fn law_what_is_in_the_way_conflicts(s: StoreV, symbol: Seq<char>, agent: Seq<char>, now: i64, l: LeaseRowV)
    requires
        in_the_way(s, l, symbol, agent, now),
    ensures
        exists|k: int|
            0 <= k < s.conflicts_for(symbol, agent, now).len() && tells_of(
                s,
                #[trigger] s.conflicts_for(symbol, agent, now)[k],
                l,
                symbol,
            ),
{
    let c = s.conflict_from(l, s.relation_of(symbol, l.symbol_id), now);
    lemma_neighbourhood(s, symbol, l.symbol_id);
    lemma_relation(s, symbol, l.symbol_id);
    lemma_live_conflicts(s, s.neighbourhood(symbol), symbol, agent, now, c);
    assert(s.leases.contains(l));
    let all = s.conflicts_for(symbol, agent, now);
    let k = choose|k: int| 0 <= k < all.len() && all[k] == c;
    assert(tells_of(s, all[k], l, symbol));
}

/// Nothing else is a conflict.
pub proof fn law_conflicts_are_in_the_way(s: StoreV, symbol: Seq<char>, agent: Seq<char>, now: i64, k: int)
    requires
        0 <= k < s.conflicts_for(symbol, agent, now).len(),
    ensures
        exists|l: LeaseRowV|
            #[trigger] in_the_way(s, l, symbol, agent, now) && tells_of(
                s,
                s.conflicts_for(symbol, agent, now)[k],
                l,
                symbol,
            ),
{
    let all = s.conflicts_for(symbol, agent, now);
    let c = all[k];
    let ids = s.neighbourhood(symbol);
    assert(all.contains(c));
    lemma_live_conflicts(s, ids, symbol, agent, now, c);
    let l = choose|l: LeaseRowV|
        #[trigger] s.leases.contains(l) && holds_then(l, now) && l.agent != agent && ids.contains(l.symbol_id) && c
            == s.conflict_from(l, s.relation_of(symbol, l.symbol_id), now);
    lemma_neighbourhood(s, symbol, l.symbol_id);
    lemma_relation(s, symbol, l.symbol_id);
    assert(in_the_way(s, l, symbol, agent, now));
}

proof fn lemma_in_the_way(s: StoreV, symbol: Seq<char>, agent: Seq<char>, now: i64)
    ensures
        s.conflicts_for(symbol, agent, now).len() > 0 <==> exists|l: LeaseRowV|
            #[trigger] in_the_way(s, l, symbol, agent, now),
{
    if s.conflicts_for(symbol, agent, now).len() > 0 {
        law_conflicts_are_in_the_way(s, symbol, agent, now, 0);
    }
    if exists|l: LeaseRowV| #[trigger] in_the_way(s, l, symbol, agent, now) {
        let l = choose|l: LeaseRowV| #[trigger] in_the_way(s, l, symbol, agent, now);
        law_what_is_in_the_way_conflicts(s, symbol, agent, now, l);
    }
}

/// What an agent is told before it edits: it is refused where somebody else is in the way;
/// it may go ahead where it holds the symbol or what is around it; and otherwise it is
/// warned that nobody holds it, and told how to take it.
pub proof fn law_verdicts(s: StoreV, agent: Seq<char>, repo: Seq<char>, path: Seq<char>, anchor: SymbolV, now: i64)
    ensures
        ({
            let r = s.judged(agent, repo, path, anchor, now);
            let refused = exists|l: LeaseRowV| #[trigger] in_the_way(s, l, anchor.id, agent, now);
            let own = exists|l: LeaseRowV|
                #[trigger] s.leases.contains(l) && holds_then(l, now) && l.agent == agent && is_around(
                    s,
                    l.symbol_id,
                    anchor.id,
                );
            &&& refused <==> r.verdict is Denied
            &&& !refused && own <==> r.verdict is Allowed
            &&& !refused && !own <==> r.verdict is Warn
            &&& r.verdict is Denied ==> r.conflicts == s.conflicts_for(anchor.id, agent, now) && forall|k: int|
                0 <= k < r.conflicts.len() ==> {
                    &&& (#[trigger] r.suggestions[k]).action == "request-transfer"@
                    &&& r.suggestions[k].holder == Some(r.conflicts[k].holder)
                    &&& r.suggestions[k].symbol == r.conflicts[k].blocking_symbol
                }
            &&& r.verdict is Denied ==> r.suggestions.len() >= r.conflicts.len() && r.conflicts.len() > 0
            &&& r.verdict is Denied && (forall|k: int|
                0 <= k < r.conflicts.len() ==> (#[trigger] r.conflicts[k]).relation is Descendant)
                ==> r.suggestions.len() == r.conflicts.len() + 1 && r.suggestions.last().action == "narrow"@
            &&& r.verdict is Denied && (exists|k: int|
                0 <= k < r.conflicts.len() && !((#[trigger] r.conflicts[k]).relation is Descendant))
                ==> r.suggestions.len() == r.conflicts.len()
            &&& !(r.verdict is Denied) ==> r.conflicts.len() == 0
            &&& r.verdict is Warn ==> r.suggestions.len() == 1 && r.suggestions[0].action == "acquire"@
                && r.suggestions[0].symbol == anchor.handle()
            &&& r.verdict is Allowed ==> r.suggestions.len() == 0 && r.lease_id is Some
            &&& r.agent == agent && r.repo_id == repo && r.path == path && r.anchor == Some(anchor.id) && !r.unindexed
        }),
{
    lemma_in_the_way(s, anchor.id, agent, now);
    let cs = s.conflicts_for(anchor.id, agent, now);
    let apart = |c: ConflictV| !(c.relation is Descendant);
    law_first_where(cs, apart);
    if let Some(c) = first_where(cs, apart) {
        let k = choose|k: int| 0 <= k < cs.len() && cs[k] == c;
        assert(!(cs[k].relation is Descendant));
    } else {
        assert forall|k: int| 0 <= k < cs.len() implies (#[trigger] cs[k]).relation is Descendant by {
            assert(!apart(cs[k]));
        }
    }
    let mine = |l: LeaseRowV| l.state is Active && l.agent == agent && l.expires_at > now;
    let over = |l: LeaseRowV| s.covers(l.symbol_id, anchor.id);
    let held = s.holdings(agent, now);
    assert(held == s.leases.filter(mine));
    law_first_where(held, over);
    let own = exists|l: LeaseRowV|
        #[trigger] s.leases.contains(l) && holds_then(l, now) && l.agent == agent && is_around(
            s,
            l.symbol_id,
            anchor.id,
        );
    if own {
        let l = choose|l: LeaseRowV|
            #[trigger] s.leases.contains(l) && holds_then(l, now) && l.agent == agent && is_around(
                s,
                l.symbol_id,
                anchor.id,
            );
        law_covering_is_being_around(s, l.symbol_id, anchor.id);
        lemma_filtered(s.leases, mine, l);
        let k = choose|k: int| 0 <= k < held.len() && held[k] == l;
        assert(over(held[k]));
    }
    if let Some(l) = s.covering(anchor.id, agent, now) {
        lemma_filtered(s.leases, mine, l);
        law_covering_is_being_around(s, l.symbol_id, anchor.id);
        assert(s.leases.contains(l));
        assert(own);
    }
}

/// Which symbol an edit is judged by: the one that was named, or else the file; in a file
/// that is not indexed nothing can be in the way.
pub proof fn law_what_is_judged(s: StoreV, agent: Seq<char>, repo: Seq<char>, path: Seq<char>, query: Seq<char>, now: i64)
    ensures
        s.resolve(query) matches Ok(x) ==> s.guard(agent, repo, path, Some(query), now) == Ok::<
            GuardReportV,
            StoreErrorV,
        >(s.judged(agent, repo, path, x, now)),
        s.resolve(query) is Err ==> s.guard(agent, repo, path, Some(query), now) is Err,
        s.symbol(file_id_of(repo, path)) matches Some(x) ==> s.guard(agent, repo, path, None, now) == Ok::<
            GuardReportV,
            StoreErrorV,
        >(s.judged(agent, repo, path, x, now)),
        s.symbol(file_id_of(repo, path)) is None ==> (s.guard(agent, repo, path, None, now) matches Ok(r) && r.verdict
            == GuardVerdict::Allowed && r.unindexed && r.conflicts.len() == 0),
{
}

/// Work is kept back by what is in the way of its scope, and by nothing else. Leases of
/// whoever does it are not in the way.
pub proof fn law_contended_work(s: StoreV, t: TaskViewV, agent: Seq<char>, now: i64)
    requires
        t.task.assignee == Some(agent) || t.task.assignee is None && agent == ""@,
    ensures
        s.decorate(t, now).contended_by is Some <==> exists|k: int, l: LeaseRowV|
            0 <= k < s.task_scope(t.task.id).len() && #[trigger] in_the_way(
                s,
                l,
                s.task_scope(t.task.id)[k].id,
                agent,
                now,
            ),
{
    lemma_contention(s, s.task_scope(t.task.id), agent, now);
}

proof fn lemma_contention(s: StoreV, scope: Seq<SymbolV>, agent: Seq<char>, now: i64)
    ensures
        s.contention(scope, agent, now) is Some <==> exists|k: int, l: LeaseRowV|
            0 <= k < scope.len() && #[trigger] in_the_way(s, l, scope[k].id, agent, now),
    decreases scope.len(),
{
    if scope.len() > 0 {
        let rest = scope.drop_first();
        lemma_contention(s, rest, agent, now);
        lemma_in_the_way(s, scope[0].id, agent, now);
        if s.conflicts_for(scope[0].id, agent, now).len() > 0 {
            let l = choose|l: LeaseRowV| #[trigger] in_the_way(s, l, scope[0].id, agent, now);
            assert(in_the_way(s, l, scope[0int].id, agent, now));
        } else if s.contention(rest, agent, now) is Some {
            let (k, l) = choose|k: int, l: LeaseRowV|
                0 <= k < rest.len() && #[trigger] in_the_way(s, l, rest[k].id, agent, now);
            assert(rest[k] == scope[k + 1]);
            assert(in_the_way(s, l, scope[k + 1].id, agent, now));
        }
        if exists|k: int, l: LeaseRowV|
            0 <= k < scope.len() && #[trigger] in_the_way(s, l, scope[k].id, agent, now) {
            let (k, l) = choose|k: int, l: LeaseRowV|
                0 <= k < scope.len() && #[trigger] in_the_way(s, l, scope[k].id, agent, now);
            if k > 0 {
                assert(rest[k - 1] == scope[k]);
                assert(in_the_way(s, l, rest[k - 1].id, agent, now));
            }
        }
    }
}

/// A conflict says in how many whole seconds the symbol is free.
pub proof fn law_how_long_until_free(s: StoreV, l: LeaseRowV, relation: ConflictRelation, now: i64)
    ensures
        ({
            let n = s.conflict_from(l, relation, now).seconds_until_free;
            &&& l.expires_at <= now ==> n == 0
            &&& l.expires_at > now ==> n * 1000 <= l.expires_at - now < (n + 1) * 1000
        }),
{
    let d = l.expires_at - now;
    assert(d > 0 ==> 0 <= d / 1000 <= d && (d / 1000) * 1000 <= d < (d / 1000 + 1) * 1000);
    assert(d <= 0 ==> d / 1000 <= 0);
    assert(d <= 0x1_0000_0000_0000_0000);
    assert(d > 0 ==> d / 1000 <= 0x7fff_ffff_ffff_ffff);
}

} // verus!
