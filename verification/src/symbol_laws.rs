//! How symbols are found, and what is next to them.

use vstd::prelude::*;
use vstd::string::*;

use crate::claim_laws::lemma_first;
use crate::edge_laws::{lemma_filter_same, lemma_parts};
use crate::goal_laws::{lemma_resembles, resembles};
use crate::graph::{listed_symbol, the_one, NeighborV};
use crate::lookup_laws::{lemma_filter_count, lemma_filtered};
use crate::model::{EdgeKind, EdgeV, EventV, RepoV, SymbolKind, SymbolV};
use crate::store::{first_where, law_first_where, StoreErrorV, StoreV};
use crate::text::before_first;

verus! {

broadcast use vstd::string::group_string_axioms;

// -------------------------------------------------------------------------- finding one

/// How a symbol is written: a file by its path, a service by its name, anything else by
/// the path and its qualified name.
pub open spec fn is_written(x: SymbolV, text: Seq<char>) -> bool {
    ||| x.kind is File && text == x.path
    ||| x.kind is Service && text == "service:"@ + x.name
    ||| !(x.kind is File) && !(x.kind is Service) && text == x.path + ":"@ + x.fqn
}

/// Is it the only symbol of which something holds?
pub open spec fn alone(s: StoreV, p: spec_fn(SymbolV) -> bool, k: int) -> bool {
    &&& 0 <= k < s.symbols.len()
    &&& p(s.symbols[k])
    &&& forall|j: int| 0 <= j < s.symbols.len() && p(#[trigger] s.symbols[j]) ==> j == k
}

/// Does it hold of no symbol?
pub open spec fn nowhere(s: StoreV, p: spec_fn(SymbolV) -> bool) -> bool {
    forall|j: int| 0 <= j < s.symbols.len() ==> !p(#[trigger] s.symbols[j])
}

/// Does a text start with no repository's name or id and a colon?
pub open spec fn names_no_repo(s: StoreV, text: Seq<char>) -> bool {
    forall|r: int|
        0 <= r < s.repos.len() ==> !((#[trigger] s.repos[r]).name + ":"@).is_prefix_of(text) && !(s.repos[r].id
            + ":"@).is_prefix_of(text)
}

proof fn lemma_the_one_of(s: StoreV, p: spec_fn(SymbolV) -> bool, query: Seq<char>)
    ensures
        forall|k: int| #[trigger] alone(s, p, k) ==> the_one(s.symbols.filter(p), query) == Ok::<
            SymbolV,
            StoreErrorV,
        >(s.symbols[k]) && s.symbols.filter(p).len() > 0,
        nowhere(s, p) ==> s.symbols.filter(p).len() == 0,
        forall|i: int, j: int|
            0 <= i < j < s.symbols.len() && p(#[trigger] s.symbols[i]) && p(#[trigger] s.symbols[j])
                ==> s.symbols.filter(p).len() >= 2,
{
    lemma_filter_count(s.symbols, p);
    assert forall|k: int| #[trigger] alone(s, p, k) implies the_one(s.symbols.filter(p), query) == Ok::<
        SymbolV,
        StoreErrorV,
    >(s.symbols[k]) && s.symbols.filter(p).len() > 0 by {
        assert(p(s.symbols[k]));
        assert(s.symbols.filter(p) == seq![s.symbols[k]]);
    }
}

proof fn lemma_before_first(s: Seq<char>, c: char)
    ensures
        match before_first(s, c) {
            Some(p) => !p.contains(c) && p.push(c).is_prefix_of(s),
            None => !s.contains(c),
        },
    decreases s.len(),
{
    if s.len() > 0 {
        let init = s.drop_last();
        lemma_before_first(init, c);
        match before_first(init, c) {
            Some(p) => {
                assert(init.take(p.len() as int + 1) =~= p.push(c));
                assert(s.take(p.len() as int + 1) =~= p.push(c));
            },
            None => {
                if s.last() == c {
                    assert(init.push(c) =~= s);
                } else if s.contains(c) {
                    let k = choose|k: int| 0 <= k < s.len() && s[k] == c;
                    assert(init[k] == c);
                }
            },
        }
    }
}

proof fn lemma_first_colon(name: Seq<char>, rest: Seq<char>)
    requires
        !name.contains(':'),
    ensures
        before_first(name + ":"@ + rest, ':') == Some(name),
{
    reveal_strlit(":");
    let s = name + ":"@ + rest;
    lemma_before_first(s, ':');
    let n = name.len() as int;
    assert(s[n] == ':');
    let p = before_first(s, ':')->0;
    let m = p.len() as int;
    assert(s.take(m + 1) =~= p.push(':'));
    assert(s[m] == ':') by {
        assert(s.take(m + 1)[m] == ':');
    }
    if m < n {
        assert(name[m] == ':');
    }
    if n < m {
        assert(s.take(m + 1)[n] == p[n]);
        assert(p.contains(':'));
    }
    assert(p =~= name) by {
        assert forall|k: int| 0 <= k < n implies p[k] == name[k] by {
            assert(s.take(m + 1)[k] == p[k]);
        }
    }
}

proof fn lemma_no_repo(s: StoreV, query: Seq<char>)
    requires
        names_no_repo(s, query),
    ensures
        s.named_in_repo(query).len() == 0,
{
    reveal_strlit(":");
    lemma_before_first(query, ':');
    if let Some(name) = before_first(query, ':') {
        assert(name.push(':') =~= name + ":"@);
        let p = |r: RepoV| r.id == name || r.name == name;
        law_first_where(s.repos, p);
        if s.repo_id_of(name) is Some {
            let x = first_where(s.repos, p)->0;
            let r = choose|r: int| 0 <= r < s.repos.len() && s.repos[r] == x;
            assert(s.repos[r].id == name || s.repos[r].name == name);
        }
    }
}

proof fn lemma_handles(s: StoreV, query: Seq<char>)
    ensures
        s.symbols.filter(|x: SymbolV| x.handle() == query) == s.symbols.filter(|x: SymbolV| is_written(x, query)),
{
    lemma_filter_same(s.symbols, |x: SymbolV| x.handle() == query, |x: SymbolV| is_written(x, query));
}

/// A symbol's id finds it.
pub proof fn law_found_by_id(s: StoreV, k: int)
    requires
        0 <= k < s.symbols.len(),
        forall|j: int| 0 <= j < k ==> (#[trigger] s.symbols[j]).id != s.symbols[k].id,
    ensures
        s.resolve(s.symbols[k].id) == Ok::<SymbolV, StoreErrorV>(s.symbols[k]),
{
    let id = s.symbols[k].id;
    let p = |x: SymbolV| x.id == id;
    assert forall|j: int| 0 <= j < k implies !p(#[trigger] s.symbols[j]) by {}
    lemma_first(s.symbols, p, k);
}

/// What is no symbol's id finds the only symbol that is written like it; or, where there
/// is none, the only one with that qualified name; or, where there is none either, the
/// only one with that name. Where there are several nothing is guessed, and where there is
/// none nothing is found.
pub proof fn law_found_by_name(s: StoreV, query: Seq<char>, k: int, h: int)
    requires
        nowhere(s, |x: SymbolV| x.id == query),
        names_no_repo(s, query),
    ensures
        ({
            let written = |x: SymbolV| is_written(x, query);
            let qualified = |x: SymbolV| x.fqn == query;
            let named = |x: SymbolV| x.name == query;
            let found = Ok::<SymbolV, StoreErrorV>(s.symbols[k]);
            let r = s.resolve(query);
            let two = 0 <= k < h < s.symbols.len();
            &&& alone(s, written, k) ==> r == found
            &&& nowhere(s, written) && alone(s, qualified, k) ==> r == found
            &&& nowhere(s, written) && nowhere(s, qualified) && alone(s, named, k) ==> r == found
            &&& two && written(s.symbols[k]) && written(s.symbols[h]) ==> (r matches Err(e) && e.kind
                is AmbiguousSymbol)
            &&& nowhere(s, written) && two && qualified(s.symbols[k]) && qualified(s.symbols[h]) ==> (r matches Err(
                e,
            ) && e.kind is AmbiguousSymbol)
            &&& nowhere(s, written) && nowhere(s, qualified) && two && named(s.symbols[k]) && named(s.symbols[h])
                ==> (r matches Err(e) && e.kind is AmbiguousSymbol)
            &&& nowhere(s, written) && nowhere(s, qualified) && nowhere(s, named) ==> (r matches Err(e) && e.kind
                is UnknownSymbol)
        }),
{
    let written = |x: SymbolV| is_written(x, query);
    let qualified = |x: SymbolV| x.fqn == query;
    let named = |x: SymbolV| x.name == query;
    let id = |x: SymbolV| x.id == query;
    law_first_where(s.symbols, id);
    if s.symbol(query) is Some {
        let x = s.symbol(query)->0;
        let j = choose|j: int| 0 <= j < s.symbols.len() && s.symbols[j] == x;
        assert(id(s.symbols[j]));
    }
    lemma_no_repo(s, query);
    lemma_handles(s, query);
    lemma_the_one_of(s, written, query);
    lemma_the_one_of(s, qualified, query);
    lemma_the_one_of(s, named, query);
}

/// With a repository's name or id and a colon in front, only that repository's symbols are
/// meant.
pub proof fn law_found_in_its_repository(s: StoreV, name: Seq<char>, r: int, text: Seq<char>, k: int)
    requires
        !name.contains(':'),
        0 <= r < s.repos.len(),
        s.repos[r].name == name || s.repos[r].id == name,
        forall|q: int| 0 <= q < r ==> (#[trigger] s.repos[q]).name != name && s.repos[q].id != name,
        nowhere(s, |x: SymbolV| x.id == name + ":"@ + text),
        alone(s, |x: SymbolV| x.repo_id == s.repos[r].id && is_written(x, text), k),
    ensures
        s.resolve(name + ":"@ + text) == Ok::<SymbolV, StoreErrorV>(s.symbols[k]),
{
    let query = name + ":"@ + text;
    let repo = s.repos[r].id;
    let id = |x: SymbolV| x.id == query;
    law_first_where(s.symbols, id);
    if s.symbol(query) is Some {
        let x = s.symbol(query)->0;
        let j = choose|j: int| 0 <= j < s.symbols.len() && s.symbols[j] == x;
        assert(id(s.symbols[j]));
        assert((|x: SymbolV| x.id == name + ":"@ + text)(s.symbols[j]));
    }
    lemma_first_colon(name, text);
    let rp = |x: RepoV| x.id == name || x.name == name;
    assert forall|q: int| 0 <= q < r implies !rp(#[trigger] s.repos[q]) by {}
    lemma_first(s.repos, rp, r);
    let mine = |x: SymbolV| x.repo_id == s.repos[r].id && is_written(x, text);
    assert(alone(s, mine, k));
    assert forall|x: SymbolV| name + ":"@ + x.handle() == query <==> #[trigger] is_written(x, text) by {
        let a = name + ":"@;
        if a + x.handle() == query {
            assert((a + x.handle()).skip(a.len() as int) =~= x.handle());
            assert(query.skip(a.len() as int) =~= text);
        }
    }
    assert(s.named_in_repo(query) == s.symbols.filter(mine)) by {
        assert forall|g: spec_fn(SymbolV) -> bool|
            (forall|x: SymbolV| #[trigger] g(x) <==> x.repo_id == repo && name + ":"@ + x.handle() == query) implies (
        #[trigger] s.symbols.filter(g)) == s.symbols.filter(mine) by {
            assert forall|x: SymbolV| #[trigger] g(x) <==> mine(x) by {
                assert(is_written(x, text) <==> name + ":"@ + x.handle() == query);
            }
            lemma_filter_same(s.symbols, g, mine);
        }
    }
    lemma_the_one_of(s, mine, query);
}

// ------------------------------------------------------------------------- listing them

/// A list of symbols holds those that are asked for, and no others: under a path, of a
/// kind, and with a piece of text in their name, qualified name or path, capitals or not.
pub proof fn law_listed_symbols(
    s: StoreV,
    path: Option<Seq<char>>,
    kind: Option<SymbolKind>,
    pattern: Option<Seq<char>>,
    x: SymbolV,
)
    ensures
        s.matching(path, kind, pattern).contains(x) <==> {
            &&& s.symbols.contains(x)
            &&& path is None || path->0.is_prefix_of(x.path)
            &&& kind is None || x.kind == kind->0
            &&& pattern is None || resembles(x, pattern->0)
        },
{
    let p = |y: SymbolV| listed_symbol(y, path, kind, pattern);
    lemma_filtered(s.symbols, p, x);
    if pattern is Some {
        lemma_resembles(x, pattern->0);
    }
}

// --------------------------------------------------------------------------- neighbours

proof fn lemma_neighbours(s: StoreV, ends: Seq<(Seq<char>, EdgeKind)>, n: NeighborV)
    ensures
        s.neighbours(ends).contains(n) <==> exists|i: int|
            0 <= i < ends.len() && s.symbol((#[trigger] ends[i]).0) == Some(n.symbol) && ends[i].1 == n.kind,
    decreases ends.len(),
{
    if ends.len() > 0 {
        let init = ends.drop_last();
        let last = ends.len() - 1;
        lemma_neighbours(s, init, n);
        let a = s.neighbours(init);
        let mine = match s.symbol(ends.last().0) {
            Some(x) => seq![NeighborV { symbol: x, kind: ends.last().1 }],
            None => Seq::empty(),
        };
        assert(s.neighbours(ends) =~= a + mine);
        lemma_parts(a, mine, n);
        if mine.contains(n) {
            assert(s.symbol(ends[last].0) == Some(n.symbol) && ends[last].1 == n.kind);
        }
        if a.contains(n) {
            let i = choose|i: int|
                0 <= i < init.len() && s.symbol((#[trigger] init[i]).0) == Some(n.symbol) && init[i].1 == n.kind;
            assert(ends[i] == init[i]);
        }
        if exists|i: int|
            0 <= i < ends.len() && s.symbol((#[trigger] ends[i]).0) == Some(n.symbol) && ends[i].1 == n.kind {
            let i = choose|i: int|
                0 <= i < ends.len() && s.symbol((#[trigger] ends[i]).0) == Some(n.symbol) && ends[i].1 == n.kind;
            if i < last {
                assert(init[i] == ends[i]);
            } else {
                assert(mine[0] == n);
            }
        }
    }
}

/// Does a kind of edge say more than that one thing is inside another?
pub open spec fn says_something(kind: EdgeKind) -> bool {
    kind == EdgeKind::Calls || kind == EdgeKind::Uses || kind == EdgeKind::Imports || kind == EdgeKind::Queries || kind
        == EdgeKind::Tests
}

/// Next to a symbol are those at the other end of its edges, users on one side and what it
/// uses on the other, with the kind of edge; containment is not among them.
pub proof fn law_neighbours(s: StoreV, id: Seq<char>, n: NeighborV)
    ensures
        s.neighbors(id).callees.contains(n) <==> says_something(n.kind) && exists|i: int|
            0 <= i < s.edges.len() && (#[trigger] s.edges[i]).src == id && s.edges[i].kind == n.kind && s.symbol(
                s.edges[i].dst,
            ) == Some(n.symbol),
        s.neighbors(id).callers.contains(n) <==> says_something(n.kind) && exists|i: int|
            0 <= i < s.edges.len() && (#[trigger] s.edges[i]).dst == id && s.edges[i].kind == n.kind && s.symbol(
                s.edges[i].src,
            ) == Some(n.symbol),
{
    let out = |e: EdgeV| e.src == id && e.kind.semantic();
    let into = |e: EdgeV| e.dst == id && e.kind.semantic();
    let outs = s.edges.filter(out);
    let ins = s.edges.filter(into);
    let a = outs.map_values(|e: EdgeV| (e.dst, e.kind));
    let b = ins.map_values(|e: EdgeV| (e.src, e.kind));
    lemma_neighbours(s, a, n);
    lemma_neighbours(s, b, n);
    if s.neighbors(id).callees.contains(n) {
        let i = choose|i: int| 0 <= i < a.len() && s.symbol((#[trigger] a[i]).0) == Some(n.symbol) && a[i].1 == n.kind;
        assert(outs.contains(outs[i]));
        lemma_filtered(s.edges, out, outs[i]);
        let j = choose|j: int| 0 <= j < s.edges.len() && s.edges[j] == outs[i];
        assert(s.edges[j].src == id);
    }
    if s.neighbors(id).callers.contains(n) {
        let i = choose|i: int| 0 <= i < b.len() && s.symbol((#[trigger] b[i]).0) == Some(n.symbol) && b[i].1 == n.kind;
        assert(ins.contains(ins[i]));
        lemma_filtered(s.edges, into, ins[i]);
        let j = choose|j: int| 0 <= j < s.edges.len() && s.edges[j] == ins[i];
        assert(s.edges[j].dst == id);
    }
    if says_something(n.kind) && exists|i: int|
        0 <= i < s.edges.len() && (#[trigger] s.edges[i]).src == id && s.edges[i].kind == n.kind && s.symbol(
            s.edges[i].dst,
        ) == Some(n.symbol) {
        let i = choose|i: int|
            0 <= i < s.edges.len() && (#[trigger] s.edges[i]).src == id && s.edges[i].kind == n.kind && s.symbol(
                s.edges[i].dst,
            ) == Some(n.symbol);
        assert(s.edges.contains(s.edges[i]));
        lemma_filtered(s.edges, out, s.edges[i]);
        let j = choose|j: int| 0 <= j < outs.len() && outs[j] == s.edges[i];
        assert(s.symbol(a[j].0) == Some(n.symbol) && a[j].1 == n.kind);
    }
    if says_something(n.kind) && exists|i: int|
        0 <= i < s.edges.len() && (#[trigger] s.edges[i]).dst == id && s.edges[i].kind == n.kind && s.symbol(
            s.edges[i].src,
        ) == Some(n.symbol) {
        let i = choose|i: int|
            0 <= i < s.edges.len() && (#[trigger] s.edges[i]).dst == id && s.edges[i].kind == n.kind && s.symbol(
                s.edges[i].src,
            ) == Some(n.symbol);
        assert(s.edges.contains(s.edges[i]));
        lemma_filtered(s.edges, into, s.edges[i]);
        let j = choose|j: int| 0 <= j < ins.len() && ins[j] == s.edges[i];
        assert(s.symbol(b[j].0) == Some(n.symbol) && b[j].1 == n.kind);
    }
}

// ------------------------------------------------------------------------------- events

/// What happened since an event is everything after it, the earliest first where there is
/// a limit; the most recent events are the last ones.
pub proof fn law_events(s: StoreV, id: i64, limit: nat, e: EventV)
    ensures
        ({
            let since = s.events_since(id, limit);
            let recent = s.recent(limit);
            &&& since.contains(e) ==> s.events.contains(e) && e.id > id
            &&& since.len() < limit && s.events.contains(e) && e.id > id ==> since.contains(e)
            &&& since.len() <= limit && recent.len() <= limit
            &&& recent.len() < limit ==> recent == s.events
            &&& forall|k: int|
                0 <= k < recent.len() ==> #[trigger] recent[k] == s.events[s.events.len() - recent.len() + k]
        }),
{
    let p = |x: EventV| x.id > id;
    let all = s.events.filter(p);
    lemma_filtered(s.events, p, e);
    let since = s.events_since(id, limit);
    if since.contains(e) {
        let k = choose|k: int| 0 <= k < since.len() && since[k] == e;
        assert(all[k] == e);
    }
    if since.len() < limit && all.contains(e) {
        let k = choose|k: int| 0 <= k < all.len() && all[k] == e;
        assert(since[k] == e);
    }
}

} // verus!
