//! How notices are worded.

use vstd::prelude::*;
use vstd::string::*;

use crate::arch::{at_most, distinct};
use crate::edge_laws::lemma_parts;
use crate::graph::ImpactNodeV;
use crate::hook_laws::{lemma_mentions_on, mentions_text};
use crate::lookup_laws::lemma_filtered;
use crate::map_laws::{lemma_distinct, lemma_some};
use crate::model::RequestV;
use crate::notice::{follow_ups, phrase, Severity, MAX_DEPENDANTS};
use crate::store::StoreV;
use crate::text::{decimal, join, trim_end, trim_start, trimmed, white};

verus! {

broadcast use vstd::string::group_string_axioms;

proof fn lemma_join_mentions(names: Seq<Seq<char>>, sep: Seq<char>, k: int)
    requires
        0 <= k < names.len(),
    ensures
        mentions_text(join(names, sep), names[k]),
    decreases names.len(),
{
    let none = Seq::<char>::empty();
    let all = join(names, sep);
    if names.len() == 1 {
        assert(all =~= none + names[k] + none);
    } else {
        let init = names.drop_last();
        if k < init.len() {
            assert(init[k] == names[k]);
            lemma_join_mentions(init, sep, k);
            lemma_mentions_on(join(init, sep), names[k], sep + names.last());
            assert(all =~= join(init, sep) + (sep + names.last()));
        } else {
            assert(all =~= (join(init, sep) + sep) + names[k] + none);
        }
    }
}

/// A phrase names each of those that it is about, as long as they are few.
proof fn lemma_phrase(names: Seq<Seq<char>>, sep: Seq<char>, tail: Seq<char>, one: Seq<char>, many: Seq<char>, k: int)
    requires
        0 <= k < names.len() <= 3,
    ensures
        mentions_text(phrase(names, sep, tail, one, many), names[k]),
{
    let named = at_most(names, MAX_DEPENDANTS as nat);
    assert(named =~= names);
    let none = Seq::<char>::empty();
    if names.len() == 1 {
        assert(phrase(names, sep, tail, one, many) =~= none + names[k] + (tail + " "@ + one + " this."@));
    } else {
        lemma_join_mentions(names, sep, k);
        lemma_mentions_on(join(names, sep), names[k], tail + " "@ + many + " this."@);
        assert(phrase(names, sep, tail, one, many) =~= join(names, sep) + (tail + " "@ + many + " this."@));
    }
}

proof fn lemma_services_reached(s: StoreV, nodes: Seq<ImpactNodeV>, own: Option<Seq<char>>, name: Seq<char>)
    ensures
        s.services_reached(nodes, own).contains(name) <==> own != Some(name) && exists|k: int|
            0 <= k < nodes.len() && s.owning_service((#[trigger] nodes[k]).symbol.id) == Some(name),
    decreases nodes.len(),
{
    if nodes.len() > 0 {
        let init = nodes.drop_last();
        let last = nodes.len() - 1;
        lemma_services_reached(s, init, own, name);
        let a = s.services_reached(init, own);
        let mine = match s.owning_service(nodes.last().symbol.id) {
            Some(x) => if own == Some(x) {
                Seq::empty()
            } else {
                seq![x]
            },
            None => Seq::empty(),
        };
        assert(s.services_reached(nodes, own) =~= a + mine);
        lemma_parts(a, mine, name);
        if mine.contains(name) {
            assert(s.owning_service(nodes[last].symbol.id) == Some(name));
        }
        if a.contains(name) {
            let k = choose|k: int| 0 <= k < init.len() && s.owning_service((#[trigger] init[k]).symbol.id) == Some(name);
            assert(nodes[k] == init[k]);
        }
        if own != Some(name) && exists|k: int|
            0 <= k < nodes.len() && s.owning_service((#[trigger] nodes[k]).symbol.id) == Some(name) {
            let k = choose|k: int|
                0 <= k < nodes.len() && s.owning_service((#[trigger] nodes[k]).symbol.id) == Some(name);
            if k < last {
                assert(init[k] == nodes[k]);
            } else {
                assert(mine[0] == name);
            }
        }
    }
}

/// The services other than its own that something reaches in two steps.
pub open spec fn other_services(s: StoreV, id: Seq<char>) -> Seq<Seq<char>> {
    distinct(s.services_reached(s.impact(id, 2), s.owning_service(id)))
}

/// The names of the symbols that something reaches in two steps.
pub open spec fn callers_of(s: StoreV, id: Seq<char>) -> Seq<Seq<char>> {
    distinct(
        s.impact(id, 2).filter(|n: ImpactNodeV| n.symbol.id != id).map_values(|n: ImpactNodeV| n.symbol.name),
    )
}

/// Whoever is told of a change is told whom it concerns: the other services that depend on
/// it, through at most one thing in between, or else the symbols that do. As long as there
/// are no more than three, each is named.
pub proof fn law_dependants_are_named(s: StoreV, id: Seq<char>, k: int)
    requires
        0 <= k < s.impact(id, 2).len(),
    ensures
        ({
            let n = s.impact(id, 2)[k];
            let r = s.dependants_phrase(Some(id));
            let service = s.owning_service(n.symbol.id);
            &&& service is Some && service != s.owning_service(id) ==> r is Some && (other_services(s, id).len() <= 3
                ==> mentions_text(r->0, service->0))
            &&& n.symbol.id != id ==> r is Some
            &&& n.symbol.id != id && other_services(s, id).len() == 0 && callers_of(s, id).len() <= 3
                ==> mentions_text(r->0, n.symbol.name)
        }),
{
    let reached = s.impact(id, 2);
    let n = reached[k];
    let own = s.owning_service(id);
    let services = other_services(s, id);
    let callers = callers_of(s, id);
    if let Some(name) = s.owning_service(n.symbol.id) {
        if own != Some(name) {
            lemma_services_reached(s, reached, own, name);
            assert(s.owning_service(reached[k].symbol.id) == Some(name));
            lemma_distinct(s.services_reached(reached, own), name);
            let i = choose|i: int| 0 <= i < services.len() && services[i] == name;
            if services.len() <= 3 {
                lemma_phrase(services, ", "@, ""@, "depends on"@, "depend on"@, i);
            }
        }
    }
    if n.symbol.id != id {
        let p = |x: ImpactNodeV| x.symbol.id != id;
        assert(reached.contains(n));
        lemma_some(reached, p, n);
        let kept = reached.filter(p);
        let names = kept.map_values(|x: ImpactNodeV| x.symbol.name);
        let j = choose|j: int| 0 <= j < kept.len() && kept[j] == n;
        assert(names[j] == n.symbol.name);
        lemma_distinct(names, n.symbol.name);
        let i = choose|i: int| 0 <= i < callers.len() && callers[i] == n.symbol.name;
        assert(callers.len() > 0);
        if services.len() == 0 && callers.len() <= 3 {
            lemma_phrase(callers, "(), "@, "()"@, "calls"@, "call"@, i);
        }
    }
}

/// Where nothing depends on what changed, nobody is named.
pub proof fn law_nobody_to_name(s: StoreV, id: Seq<char>)
    requires
        s.impact(id, 2).len() == 0,
    ensures
        s.dependants_phrase(Some(id)) is None,
        s.dependants_phrase(None) is None,
{
    let p = |x: ImpactNodeV| x.symbol.id != id;
    let kept = s.impact(id, 2).filter(p);
    assert(kept.len() == 0) by {
        if kept.len() > 0 {
            assert(kept.contains(kept[0]));
            lemma_filtered(s.impact(id, 2), p, kept[0]);
        }
    }
}

/// What a request asks for is said in its notice: whose lease is wanted by whom, or what
/// changed and whom it concerns, with the tasks that were opened for it.
pub proof fn law_request_words(s: StoreV, r: RequestV, d: Seq<char>)
    requires
        d.len() > 0,
        !white(d[0]),
        !white(d.last()),
    ensures
        ({
            let w = s.request_wording(r);
            let n = follow_ups(r.body);
            &&& r.kind == "lease-transfer"@ && r.resource_handle is Some ==> w.title == r.from + " wants "@
                + r.resource_handle->0
            &&& r.kind == "lease-transfer"@ && r.resource_handle is None ==> w.title == r.from + " wants "@ + r.subject
            &&& r.kind == "lease-transfer"@ && r.to is Some ==> w.detail == Some(
                "Held by "@ + r.to->0 + ". Accepting hands it over atomically."@,
            )
            &&& r.kind == "api-change"@ ==> w.severity == Severity::Warn
            &&& r.kind == "api-change"@ && r.resource_handle is Some ==> w.title == r.resource_handle->0 + " changed"@
            &&& r.kind == "api-change"@ && s.dependants_phrase(r.resource_symbol) == Some(d) && n == 0 ==> w.detail
                == Some(d)
            &&& r.kind == "api-change"@ && s.dependants_phrase(r.resource_symbol) == Some(d) && n > 0 ==> w.detail
                == Some(d + " "@ + decimal(n) + " follow-up task(s) opened."@)
            &&& r.kind == "api-change"@ && s.dependants_phrase(r.resource_symbol) is None && n == 0 ==> w.detail is None
            &&& r.kind == "dependency"@ ==> w.detail == Some(r.subject)
        }),
{
    reveal_strlit("api-change");
    reveal_strlit("review");
    reveal_strlit("lease-transfer");
    reveal_strlit("dependency");
    assert("api-change"@.len() == 10 && "review"@.len() == 6 && "lease-transfer"@.len() == 14 && "dependency"@.len()
        == 10);
    assert("api-change"@[0] == 'a' && "dependency"@[0] == 'd');
    reveal_strlit(" follow-up task(s) opened.");
    let f = |c: char| white(c);
    assert(trim_start(d, f) == d && trim_end(d, f) == d);
    assert(trimmed(d) == d);
    let t = " follow-up task(s) opened."@;
    let long = d + " "@ + decimal(follow_ups(r.body)) + t;
    assert(long[0] == d[0]);
    assert(t.last() == '.');
    assert(long.last() == t.last());
    assert(!white('.'));
    assert(trim_start(long, f) == long && trim_end(long, f) == long);
    assert(trimmed(long) == long);
}

} // verus!
