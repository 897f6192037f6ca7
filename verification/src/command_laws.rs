//! What the commands show and do.

use vstd::prelude::*;
use vstd::string::*;

use crate::arch_laws::lemma_sorted_has;
use crate::claim_laws::lemma_first;
use crate::command::acting;
use crate::graph::NeighborV;
use crate::lease::{ended, held, lemma_finish_each_keeps};
use crate::lookup_laws::lemma_filtered;
use crate::model::{EdgeKind, LeaseState, LeaseV, Role, SymbolV};
use crate::order::{rank, sorted};
use crate::store::{first_where, law_first_where, LeaseRow, LeaseRowV, StoreErrorV, StoreV, TaskRow};
use crate::symbol_laws::law_neighbours;
use crate::text::{trim_end, trim_start, trimmed, white};
use crate::work::TaskViewV;

verus! {

broadcast use vstd::string::group_string_axioms;

/// Who acts: whoever the flag names, or else the variable where it is set, or else the
/// name that was remembered, without the white space around it.
pub proof fn law_who_acts(
    flag: Seq<char>,
    variable: Option<Seq<char>>,
    remembered: Option<Seq<char>>,
    name: Seq<char>,
)
    requires
        name.len() > 0,
        !white(name[0]),
        !white(name.last()),
    ensures
        acting(Some(flag), variable, remembered) == Some(flag),
        acting(None, Some(name), remembered) == Some(name),
        acting(None, None, Some(name)) == Some(name),
        acting(None, None, Some(name + "\n"@)) == Some(name),
        acting(None, Some(""@), Some(name + "\n"@)) == Some(name),
        acting(None, None, None) is None,
        acting(None, None, Some("\n"@)) is None,
{
    reveal_strlit("");
    reveal_strlit("\n");
    let w = |c: char| white(c);
    assert(""@.len() == 0);
    assert("\n"@ =~= seq!['\n']);
    assert(white('\n'));
    assert(trim_start(name, w) == name);
    assert(trim_end(name, w) == name);
    let long = name + "\n"@;
    assert(long[0] == name[0]);
    assert(trim_start(long, w) == long);
    assert(long.last() == '\n');
    assert(long.drop_last() =~= name);
    assert(trim_end(long, w) == name);
    assert(trimmed(long) == name);
    let nl = "\n"@;
    assert(nl.drop_first() =~= Seq::empty());
    assert(trim_start(nl.drop_first(), w).len() == 0);
    assert(trim_start(nl, w).len() == 0);
    assert(trimmed(nl).len() == 0);
}

/// What is shown of a symbol's surroundings: its tests are those at the other end of test
/// edges, what is in it is what has it as its parent, and a role's symbols are those that
/// have the role.
pub proof fn law_surroundings(s: StoreV, query: Seq<char>, n: NeighborV, y: SymbolV, role: Role)
    ensures
        s.covered(query) is Ok <==> s.resolve(query) is Ok,
        s.covered(query) matches Ok(c) ==> (c.tests.contains(n) <==> n.kind == EdgeKind::Tests && exists|i: int|
            0 <= i < s.edges.len() && (#[trigger] s.edges[i]).dst == c.symbol.id && s.edges[i].kind == EdgeKind::Tests
                && s.symbol(s.edges[i].src) == Some(n.symbol)),
        s.shown(query) matches Ok(x) ==> (x.children.contains(y) <==> s.symbols.contains(y) && y.parent_id == Some(
            x.symbol.id,
        )) && s.resolve(query) == Ok::<SymbolV, StoreErrorV>(x.symbol),
        s.with_role(role).contains(y) <==> s.symbols.contains(y) && y.role == Some(role),
{
    if let Ok(x) = s.resolve(query) {
        law_neighbours(s, x.id, n);
        let t = |m: NeighborV| m.kind is Tests;
        lemma_filtered(s.neighbors(x.id).callers, t, n);
        let c = |z: SymbolV| z.parent_id == Some(x.id);
        lemma_filtered(s.symbols, c, y);
    }
    let r = |z: SymbolV| z.role == Some(role);
    lemma_filtered(s.symbols, r, y);
}

/// Who queries a table is whoever has a query edge to it, among others that use it; what a
/// service depends on are the names of those that it imports.
pub proof fn law_uses(s: StoreV, x: SymbolV, n: NeighborV, name: Seq<char>)
    ensures
        s.table_use(x).users.contains(n) <==> s.neighbors(x.id).callers.contains(n),
        s.service_use(x).depends_on.contains(name) <==> exists|m: NeighborV|
            #[trigger] s.neighbors(x.id).callees.contains(m) && m.kind == EdgeKind::Imports && m.symbol.name == name,
{
    let p = |m: NeighborV| m.kind is Imports;
    let all = s.neighbors(x.id).callees;
    let kept = all.filter(p);
    let names = s.service_use(x).depends_on;
    assert(names == kept.map_values(|m: NeighborV| m.symbol.name));
    if names.contains(name) {
        let k = choose|k: int| 0 <= k < names.len() && names[k] == name;
        assert(kept.contains(kept[k]));
        lemma_filtered(all, p, kept[k]);
        assert(all.contains(kept[k]));
    }
    if exists|m: NeighborV|
        #[trigger] s.neighbors(x.id).callees.contains(m) && m.kind == EdgeKind::Imports && m.symbol.name == name {
        let m = choose|m: NeighborV|
            #[trigger] s.neighbors(x.id).callees.contains(m) && m.kind == EdgeKind::Imports && m.symbol.name == name;
        lemma_filtered(all, p, m);
        let k = choose|k: int| 0 <= k < kept.len() && kept[k] == m;
        assert(names[k] == name);
    }
}

/// A lease is meant by its id, or by the symbol that the agent holds; a symbol that the
/// agent does not hold means none.
pub proof fn law_which_lease_is_meant(s: StoreV, target: Seq<char>, agent: Seq<char>, i: int)
    requires
        0 <= i < s.leases.len(),
    ensures
        s.leases[i].id == target && (forall|j: int| 0 <= j < i ==> (#[trigger] s.leases[j]).id != target)
            ==> s.lease_meant(target, agent) == Ok::<Seq<char>, StoreErrorV>(target),
        s.lease_row(target) is None && s.resolve(target) is Ok ==> match s.lease_meant(target, agent) {
            Ok(id) => exists|j: int|
                0 <= j < s.leases.len() && (#[trigger] s.leases[j]).id == id && s.leases[j].agent == agent
                    && s.leases[j].state is Active && s.leases[j].symbol_id == s.resolve(target)->Ok_0.id,
            Err(_) => !(s.leases[i].agent == agent && s.leases[i].state is Active && s.leases[i].symbol_id == s.resolve(
                target,
            )->Ok_0.id),
        },
{
    if s.leases[i].id == target && (forall|j: int| 0 <= j < i ==> (#[trigger] s.leases[j]).id != target) {
        let p = |l: LeaseRowV| l.id == target;
        assert forall|j: int| 0 <= j < i implies !p(#[trigger] s.leases[j]) by {}
        lemma_first(s.leases, p, i);
    }
    if s.lease_row(target) is None && s.resolve(target) is Ok {
        let sym = s.resolve(target)->Ok_0.id;
        let mine = |l: LeaseRowV| l.state is Active && l.agent == agent;
        let here = |l: LeaseV| l.symbol_id == sym;
        let r = rank::<LeaseRow>();
        let kept = s.leases.filter(mine);
        let o = sorted(kept, r);
        let all = s.leases_of(agent);
        law_first_where(all, here);
        match first_where(all, here) {
            Some(l) => {
                let k = choose|k: int| 0 <= k < all.len() && all[k] == l;
                assert(o.contains(o[k]));
                lemma_sorted_has(kept, r, o[k]);
                lemma_filtered(s.leases, mine, o[k]);
                let j = choose|j: int| 0 <= j < s.leases.len() && s.leases[j] == o[k];
                assert(s.leases[j].symbol_id == sym);
            },
            None => {
                let l = s.leases[i];
                if l.agent == agent && l.state is Active && l.symbol_id == sym {
                    assert(s.leases.contains(l));
                    lemma_filtered(s.leases, mine, l);
                    lemma_sorted_has(kept, r, l);
                    let k = choose|k: int| 0 <= k < o.len() && o[k] == l;
                    assert(here(all[k]));
                }
            },
        }
    }
}

/// Releasing everything ends every lease that the agent holds, and no other.
pub proof fn law_releasing_everything(s: StoreV, target: Option<Seq<char>>, agent: Seq<char>, now: i64, i: int)
    requires
        s.ids_differ(),
        0 <= i < s.leases.len(),
    ensures
        ({
            let (r, x) = s.release_meant(target, true, agent, now);
            &&& x is Ok
            &&& r.leases.len() == s.leases.len()
            &&& s.leases[i].agent == agent && s.leases[i].state is Active ==> r.leases[i].state is Released
            &&& s.leases[i].agent != agent || !(s.leases[i].state is Active) ==> r.leases[i] == s.leases[i]
        }),
{
    let p = |l: LeaseRowV| held(l, agent);
    let rows = s.held_by(agent);
    lemma_finish_each_keeps(s, rows, LeaseState::Released, "released"@, now);
    let l = s.leases[i];
    assert(s.leases.contains(l));
    lemma_filtered(s.leases, p, l);
    let r = s.release_meant(target, true, agent, now).0;
    assert(r.leases[i] == ended(l, rows, LeaseState::Released, now));
    if rows.contains(l) {
        let k = choose|k: int| 0 <= k < rows.len() && rows[k] == l;
        assert(rows[k].id == l.id);
    } else if exists|k: int| 0 <= k < rows.len() && (#[trigger] rows[k]).id == l.id {
        let k = choose|k: int| 0 <= k < rows.len() && (#[trigger] rows[k]).id == l.id;
        assert(rows.contains(rows[k]));
        lemma_filtered(s.leases, p, rows[k]);
        let j = choose|j: int| 0 <= j < s.leases.len() && s.leases[j] == rows[k];
        assert(s.leases[j].id != s.leases[i].id || i == j);
    }
}

/// An agent's current task is one that runs for it; it has none only where none does.
pub proof fn law_current_task(s: StoreV, agent: Seq<char>, i: int)
    requires
        0 <= i < s.tasks.len(),
    ensures
        match s.current_task(agent) {
            Some(v) => v.task.state is Running && v.task.assignee == Some(agent) && exists|j: int|
                0 <= j < s.tasks.len() && v == s.view_of(#[trigger] s.tasks[j]),
            None => !(s.tasks[i].state is Running && s.tasks[i].assignee == Some(agent)),
        },
{
    let p = |t: TaskViewV| t.task.state is Running && t.task.assignee == Some(agent);
    let listed = s.tasks_listed();
    let r = rank::<TaskRow>();
    let o = sorted(s.tasks, r);
    law_first_where(listed, p);
    if let Some(v) = s.current_task(agent) {
        let n = choose|n: int| 0 <= n < listed.len() && listed[n] == v;
        assert(o.contains(o[n]));
        lemma_sorted_has(s.tasks, r, o[n]);
        let j = choose|j: int| 0 <= j < s.tasks.len() && s.tasks[j] == o[n];
        assert(v == s.view_of(s.tasks[j]));
    } else {
        assert(s.tasks.contains(s.tasks[i]));
        lemma_sorted_has(s.tasks, r, s.tasks[i]);
        let n = choose|n: int| 0 <= n < o.len() && o[n] == s.tasks[i];
        assert(listed[n] == s.view_of(s.tasks[i]));
        assert(!p(listed[n]));
    }
}

} // verus!
