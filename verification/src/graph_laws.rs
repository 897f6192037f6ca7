//! What a change reaches: everything that uses it, through others, within some steps.

use vstd::prelude::*;
use vstd::string::*;

use crate::graph::{reach, step};
use crate::inference_laws::{exists_symbol, lemma_symbol_there};
use crate::model::{EdgeKind, EdgeV, LeaseState, SymbolV};
use crate::store::{first_where, law_first_where, LeaseRowV, StoreV};

verus! {

broadcast use vstd::string::group_string_axioms;

/// Does one symbol call, use, import, query or test the other?
pub open spec fn touches(edges: Seq<EdgeV>, user: Seq<char>, used: Seq<char>) -> bool {
    exists|i: int|
        0 <= i < edges.len() && (#[trigger] edges[i]).src == user && edges[i].dst == used && (edges[i].kind
            == EdgeKind::Calls || edges[i].kind == EdgeKind::Uses || edges[i].kind == EdgeKind::Imports
            || edges[i].kind == EdgeKind::Queries || edges[i].kind == EdgeKind::Tests)
}

/// Does each item of a chain touch the one before it?
pub open spec fn is_chain(edges: Seq<EdgeV>, p: Seq<Seq<char>>) -> bool {
    p.len() > 0 && forall|i: int| 0 <= i < p.len() - 1 ==> touches(edges, #[trigger] p[i + 1], p[i])
}

// ------------------------------------------------------------------------- one step

proof fn lemma_step(edges: Seq<EdgeV>, frontier: Seq<Seq<char>>, reached: Seq<Seq<char>>, x: Seq<char>)
    ensures
        step(edges, frontier, reached).contains(x) <==> !reached.contains(x) && exists|y: Seq<char>|
            #[trigger] frontier.contains(y) && touches(edges, x, y),
    decreases edges.len(),
{
    let all = step(edges, frontier, reached);
    if edges.len() > 0 {
        let init = edges.drop_last();
        let before = step(init, frontier, reached);
        let e = edges.last();
        lemma_step(init, frontier, reached, x);
        if all.contains(x) {
            let k = choose|k: int| 0 <= k < all.len() && all[k] == x;
            if k < before.len() {
                assert(before[k] == x);
                let y = choose|y: Seq<char>| #[trigger] frontier.contains(y) && touches(init, x, y);
                let i = choose|i: int|
                    0 <= i < init.len() && (#[trigger] init[i]).src == x && init[i].dst == y && init[i].kind
                        != EdgeKind::Contains;
                assert(edges[i] == init[i]);
                assert(touches(edges, x, y));
            } else {
                assert(edges[edges.len() - 1] == e);
                assert(frontier.contains(e.dst) && touches(edges, x, e.dst));
            }
        }
        if !reached.contains(x) && exists|y: Seq<char>| #[trigger] frontier.contains(y) && touches(edges, x, y) {
            let y = choose|y: Seq<char>| #[trigger] frontier.contains(y) && touches(edges, x, y);
            let i = choose|i: int|
                0 <= i < edges.len() && (#[trigger] edges[i]).src == x && edges[i].dst == y && edges[i].kind
                    != EdgeKind::Contains;
            if i < init.len() {
                assert(init[i] == edges[i]);
                assert(touches(init, x, y));
            }
            if before.contains(x) {
                let k = choose|k: int| 0 <= k < before.len() && before[k] == x;
                assert(all[k] == x);
            } else {
                assert(i == edges.len() - 1);
                assert(all[before.len() as int] == x);
            }
        }
    }
}

proof fn lemma_step_once(edges: Seq<EdgeV>, frontier: Seq<Seq<char>>, reached: Seq<Seq<char>>)
    ensures
        step(edges, frontier, reached).no_duplicates(),
    decreases edges.len(),
{
    if edges.len() > 0 {
        lemma_step_once(edges.drop_last(), frontier, reached);
        let before = step(edges.drop_last(), frontier, reached);
        let all = step(edges, frontier, reached);
        assert forall|i: int, j: int| 0 <= i < all.len() && 0 <= j < all.len() && i != j implies all[i]
            != all[j] by {
            if i < before.len() && j < before.len() {
            } else if i < before.len() {
                assert(before.contains(before[i]));
            } else {
                assert(before.contains(before[j]));
            }
        }
    }
}

// ------------------------------------------------------------------------ all steps

/// Is whatever uses what was reached, and is not to be looked at again, reached too?
pub open spec fn settled(edges: Seq<EdgeV>, frontier: Seq<Seq<char>>, reached: Seq<Seq<char>>) -> bool {
    forall|x: Seq<char>, y: Seq<char>| #[trigger]
        touches(edges, x, y) && reached.contains(y) && !frontier.contains(y) ==> reached.contains(x)
}

proof fn lemma_settled_on(edges: Seq<EdgeV>, frontier: Seq<Seq<char>>, reached: Seq<Seq<char>>)
    requires
        settled(edges, frontier, reached),
    ensures
        ({
            let next = step(edges, frontier, reached);
            settled(edges, next, reached + next)
        }),
{
    let next = step(edges, frontier, reached);
    let more = reached + next;
    assert forall|x: Seq<char>, y: Seq<char>| #[trigger]
        touches(edges, x, y) && more.contains(y) && !next.contains(y) implies more.contains(x) by {
        lemma_in_both(reached, next, y);
        lemma_in_both(reached, next, x);
        if frontier.contains(y) {
            lemma_step(edges, frontier, reached, x);
        }
    }
}

proof fn lemma_in_both<T>(a: Seq<T>, b: Seq<T>, x: T)
    ensures
        (a + b).contains(x) <==> a.contains(x) || b.contains(x),
{
    let all = a + b;
    if all.contains(x) {
        let k = choose|k: int| 0 <= k < all.len() && all[k] == x;
        if k < a.len() {
            assert(a[k] == x);
        } else {
            assert(b[k - a.len()] == x);
        }
    }
    if a.contains(x) {
        let k = choose|k: int| 0 <= k < a.len() && a[k] == x;
        assert(all[k] == x);
    }
    if b.contains(x) {
        let k = choose|k: int| 0 <= k < b.len() && b[k] == x;
        assert(all[a.len() + k] == x);
    }
}

/// Is something there, at no more than this distance?
pub open spec fn within(ends: Seq<(Seq<char>, nat)>, x: Seq<char>, distance: int) -> bool {
    exists|k: int| 0 <= k < ends.len() && (#[trigger] ends[k]).0 == x && ends[k].1 <= distance
}

proof fn lemma_reach_complete(
    edges: Seq<EdgeV>,
    frontier: Seq<Seq<char>>,
    reached: Seq<Seq<char>>,
    distance: nat,
    steps: nat,
    p: Seq<Seq<char>>,
)
    requires
        is_chain(edges, p),
        reached.contains(p[0]),
        settled(edges, frontier, reached),
        p.len() - 1 <= steps,
    ensures
        reached.contains(p.last()) || within(
            reach(edges, frontier, reached, distance, steps),
            p.last(),
            distance + p.len() - 2,
        ),
    decreases p.len(),
{
    if p.len() > 1 {
        let rest = p.skip(1);
        assert(touches(edges, p[0int + 1], p[0]));
        assert(is_chain(edges, rest)) by {
            assert forall|i: int| 0 <= i < rest.len() - 1 implies touches(
                edges,
                #[trigger] rest[i + 1],
                rest[i],
            ) by {
                assert(touches(edges, p[i + 1 + 1], p[i + 1]));
            }
        }
        assert(rest.last() == p.last());
        let x = p.last();
        let all = reach(edges, frontier, reached, distance, steps);
        if reached.contains(p[1]) {
            lemma_reach_complete(edges, frontier, reached, distance, steps, rest);
            if !reached.contains(x) {
                let k = choose|k: int|
                    0 <= k < all.len() && (#[trigger] all[k]).0 == x && all[k].1 <= distance + rest.len() - 2;
                assert(all[k].0 == x);
            }
        } else {
            let next = step(edges, frontier, reached);
            lemma_step(edges, frontier, reached, p[1]);
            assert(frontier.contains(p[0]));
            lemma_settled_on(edges, frontier, reached);
            lemma_in_both(reached, next, p[1]);
            let later = reach(edges, next, reached + next, distance + 1, (steps - 1) as nat);
            lemma_reach_complete(edges, next, reached + next, distance + 1, (steps - 1) as nat, rest);
            lemma_in_both(reached, next, x);
            if next.contains(x) {
                let k = choose|k: int| 0 <= k < next.len() && next[k] == x;
                assert(all[k] == (x, distance));
            } else if !reached.contains(x) {
                let k = choose|k: int|
                    0 <= k < later.len() && (#[trigger] later[k]).0 == x && later[k].1 <= distance + 1
                        + rest.len() - 2;
                assert(all[next.len() + k] == later[k]);
            }
        }
    }
}

/// A chain that comes from one of some symbols.
pub open spec fn comes_from(edges: Seq<EdgeV>, from: Seq<Seq<char>>, x: Seq<char>, p: Seq<Seq<char>>) -> bool {
    is_chain(edges, p) && from.contains(p[0]) && p.last() == x
}

proof fn lemma_reach_sound(
    edges: Seq<EdgeV>,
    frontier: Seq<Seq<char>>,
    reached: Seq<Seq<char>>,
    distance: nat,
    steps: nat,
    k: int,
) -> (p: Seq<Seq<char>>)
    requires
        0 <= k < reach(edges, frontier, reached, distance, steps).len(),
    ensures
        ({
            let (x, d) = reach(edges, frontier, reached, distance, steps)[k];
            &&& comes_from(edges, frontier, x, p)
            &&& p.len() - 1 == d - distance + 1
            &&& distance <= d < distance + steps
            &&& !reached.contains(x)
        }),
    decreases steps,
{
    let next = step(edges, frontier, reached);
    if k < next.len() {
        let x = next[k];
        assert(next.contains(x));
        lemma_step(edges, frontier, reached, x);
        let y = choose|y: Seq<char>| #[trigger] frontier.contains(y) && touches(edges, x, y);
        let p = seq![y, x];
        assert(touches(edges, p[0int + 1], p[0]));
        p
    } else {
        let later = reach(edges, next, reached + next, distance + 1, (steps - 1) as nat);
        let j = k - next.len();
        let q = lemma_reach_sound(edges, next, reached + next, distance + 1, (steps - 1) as nat, j);
        let z = q[0];
        lemma_step(edges, frontier, reached, z);
        let y = choose|y: Seq<char>| #[trigger] frontier.contains(y) && touches(edges, z, y);
        let p = seq![y] + q;
        assert(is_chain(edges, p)) by {
            assert forall|i: int| 0 <= i < p.len() - 1 implies touches(edges, #[trigger] p[i + 1], p[i]) by {
                if i > 0 {
                    assert(touches(edges, q[i - 1 + 1], q[i - 1]));
                }
            }
        }
        lemma_in_both(reached, next, later[j].0);
        p
    }
}

proof fn lemma_reach_order(
    edges: Seq<EdgeV>,
    frontier: Seq<Seq<char>>,
    reached: Seq<Seq<char>>,
    distance: nat,
    steps: nat,
)
    ensures
        ({
            let all = reach(edges, frontier, reached, distance, steps);
            forall|i: int, j: int|
                0 <= i < j < all.len() ==> (#[trigger] all[i]).1 <= (#[trigger] all[j]).1 && all[i].0 != all[j].0
        }),
    decreases steps,
{
    if steps > 0 {
        let next = step(edges, frontier, reached);
        let all = reach(edges, frontier, reached, distance, steps);
        let later = reach(edges, next, reached + next, distance + 1, (steps - 1) as nat);
        lemma_reach_order(edges, next, reached + next, distance + 1, (steps - 1) as nat);
        lemma_step_once(edges, frontier, reached);
        let n = next.len() as int;
        assert forall|i: int, j: int| 0 <= i < j < all.len() implies (#[trigger] all[i]).1 <= (
        #[trigger] all[j]).1 && all[i].0 != all[j].0 by {
            if j >= n {
                let p = lemma_reach_sound(
                    edges,
                    next,
                    reached + next,
                    distance + 1,
                    (steps - 1) as nat,
                    j - n,
                );
                assert(all[j] == later[j - n]);
                if i < n {
                    assert(next.contains(next[i]));
                    lemma_in_both(reached, next, next[i]);
                } else {
                    assert(all[i] == later[i - n]);
                }
            }
        }
    }
}

// ----------------------------------------------------------------------------- laws

proof fn lemma_impact_has(s: StoreV, ends: Seq<(Seq<char>, nat)>, k: int)
    requires
        0 <= k < ends.len(),
        exists_symbol(s, ends[k].0),
    ensures
        exists|n: int|
            0 <= n < s.impact_of(ends).len() && (#[trigger] s.impact_of(ends)[n]).symbol.id == ends[k].0
                && s.impact_of(ends)[n].distance == ends[k].1 as usize,
    decreases ends.len(),
{
    let before = s.impact_of(ends.drop_last());
    let all = s.impact_of(ends);
    if k < ends.len() - 1 {
        lemma_impact_has(s, ends.drop_last(), k);
        let n = choose|n: int|
            0 <= n < before.len() && (#[trigger] before[n]).symbol.id == ends[k].0 && before[n].distance
                == ends[k].1 as usize;
        assert(all[n] == before[n]);
    } else {
        lemma_symbol_there(s, ends[k].0);
        assert(all[before.len() as int].symbol.id == ends[k].0);
    }
}

proof fn lemma_impact_of(s: StoreV, ends: Seq<(Seq<char>, nat)>, n: int) -> (k: int)
    requires
        0 <= n < s.impact_of(ends).len(),
    ensures
        0 <= k < ends.len(),
        s.impact_of(ends)[n].symbol.id == ends[k].0,
        s.impact_of(ends)[n].distance == ends[k].1 as usize,
        s.symbols.contains(s.impact_of(ends)[n].symbol),
        s.impact_of(ends)[n].lease == s.lease_on(ends[k].0),
    decreases ends.len(),
{
    let before = s.impact_of(ends.drop_last());
    law_first_where(s.symbols, |x: SymbolV| x.id == ends.last().0);
    if n < before.len() {
        lemma_impact_of(s, ends.drop_last(), n)
    } else {
        ends.len() - 1
    }
}

proof fn lemma_start_settled(edges: Seq<EdgeV>, id: Seq<char>)
    ensures
        settled(edges, seq![id], seq![id]),
{
}

/// Everything that uses a symbol, through others, within the steps asked for, is part
/// of the impact of changing it, no further away than the way there is long. To use is
/// to call, to use as a type, to import, to query or to test.
pub proof fn law_impact_reaches_every_user(s: StoreV, id: Seq<char>, depth: usize, p: Seq<Seq<char>>)
    requires
        is_chain(s.edges, p),
        p[0] == id,
        p.last() != id,
        p.len() - 1 <= depth,
        exists_symbol(s, p.last()),
    ensures
        exists|n: int|
            0 <= n < s.impact(id, depth as nat).len() && (#[trigger] s.impact(id, depth as nat)[n]).symbol.id
                == p.last() && s.impact(id, depth as nat)[n].distance <= p.len() - 1,
{
    let one = seq![id];
    assert(one[0] == id);
    lemma_start_settled(s.edges, id);
    lemma_reach_complete(s.edges, one, one, 1, depth as nat, p);
    let ends = reach(s.edges, one, one, 1, depth as nat);
    assert(!one.contains(p.last()));
    let k = choose|k: int|
        0 <= k < ends.len() && (#[trigger] ends[k]).0 == p.last() && ends[k].1 <= 1 + p.len() - 2;
    lemma_impact_has(s, ends, k);
    let all = s.impact(id, depth as nat);
    assert(all == s.impact_of(ends));
    let n = choose|n: int|
        0 <= n < all.len() && (#[trigger] all[n]).symbol.id == ends[k].0 && all[n].distance == ends[k].1 as usize;
    assert(all[n].symbol.id == p.last());
}

/// Nothing else is part of it: whatever is reached uses the symbol through others, on a
/// way as long as its distance says, within the steps asked for. It is a symbol of the
/// graph, other than the one that changes, and shown with the lease that is on it.
pub proof fn law_impact_is_of_users(s: StoreV, id: Seq<char>, depth: usize, n: int) -> (p: Seq<Seq<char>>)
    requires
        0 <= n < s.impact(id, depth as nat).len(),
    ensures
        ({
            let x = s.impact(id, depth as nat)[n];
            &&& is_chain(s.edges, p)
            &&& p[0] == id
            &&& p.last() == x.symbol.id
            &&& p.len() - 1 == x.distance
            &&& 1 <= x.distance <= depth
            &&& x.symbol.id != id
            &&& s.symbols.contains(x.symbol)
            &&& x.lease is Some <==> exists|i: int|
                0 <= i < s.leases.len() && (#[trigger] s.leases[i]).state == LeaseState::Active
                    && s.leases[i].symbol_id == x.symbol.id
        }),
{
    let one = seq![id];
    let ends = reach(s.edges, one, one, 1, depth as nat);
    let k = lemma_impact_of(s, ends, n);
    let p = lemma_reach_sound(s.edges, one, one, 1, depth as nat, k);
    assert(p[0] == one[0]);
    assert(one[0] == id);
    let x = ends[k].0;
    let f = |l: LeaseRowV| crate::lease::active_lease(l, x);
    law_first_where(s.leases, f);
    if let Some(l) = first_where(s.leases, f) {
        let i = choose|i: int| 0 <= i < s.leases.len() && s.leases[i] == l;
        assert(s.leases[i].state == LeaseState::Active);
    } else {
        assert forall|i: int| 0 <= i < s.leases.len() implies !((#[trigger] s.leases[i]).state
            == LeaseState::Active && s.leases[i].symbol_id == x) by {
            assert(!f(s.leases[i]));
        }
    }
    p
}

proof fn lemma_impact_order(s: StoreV, ends: Seq<(Seq<char>, nat)>)
    requires
        forall|i: int, j: int|
            0 <= i < j < ends.len() ==> (#[trigger] ends[i]).1 <= (#[trigger] ends[j]).1 && ends[i].0 != ends[j].0,
        forall|i: int| 0 <= i < ends.len() ==> (#[trigger] ends[i]).1 <= usize::MAX,
    ensures
        forall|i: int, j: int|
            0 <= i < j < s.impact_of(ends).len() ==> (#[trigger] s.impact_of(ends)[i]).distance <= (
            #[trigger] s.impact_of(ends)[j]).distance && s.impact_of(ends)[i].symbol.id != s.impact_of(
                ends,
            )[j].symbol.id,
    decreases ends.len(),
{
    if ends.len() > 0 {
        let init = ends.drop_last();
        assert forall|i: int, j: int| 0 <= i < j < init.len() implies (#[trigger] init[i]).1 <= (
        #[trigger] init[j]).1 && init[i].0 != init[j].0 by {
            assert(ends[i].1 <= ends[j].1);
        }
        assert forall|i: int| 0 <= i < init.len() implies (#[trigger] init[i]).1 <= usize::MAX by {
            assert(ends[i].1 <= usize::MAX);
        }
        lemma_impact_order(s, init);
        let before = s.impact_of(init);
        let all = s.impact_of(ends);
        law_first_where(s.symbols, |x: SymbolV| x.id == ends.last().0);
        assert forall|i: int, j: int| 0 <= i < j < all.len() implies (#[trigger] all[i]).distance <= (
        #[trigger] all[j]).distance && all[i].symbol.id != all[j].symbol.id by {
            if j == before.len() {
                let k = lemma_impact_of(s, init, i);
                assert(ends[k].1 <= ends[ends.len() - 1].1);
            }
        }
    }
}

/// The impact comes nearest first, and names nothing twice.
pub proof fn law_impact_is_ordered(s: StoreV, id: Seq<char>, depth: usize, i: int, j: int)
    requires
        0 <= i < j < s.impact(id, depth as nat).len(),
    ensures
        s.impact(id, depth as nat)[i].distance <= s.impact(id, depth as nat)[j].distance,
        s.impact(id, depth as nat)[i].symbol.id != s.impact(id, depth as nat)[j].symbol.id,
{
    let one = seq![id];
    let ends = reach(s.edges, one, one, 1, depth as nat);
    lemma_reach_order(s.edges, one, one, 1, depth as nat);
    assert forall|k: int| 0 <= k < ends.len() implies (#[trigger] ends[k]).1 <= usize::MAX by {
        let p = lemma_reach_sound(s.edges, one, one, 1, depth as nat, k);
    }
    lemma_impact_order(s, ends);
}

} // verus!
