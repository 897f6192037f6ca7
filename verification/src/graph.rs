//! The graph: finding symbols, and what lies around them.

use vstd::prelude::*;
use vstd::string::*;

use crate::arch::at_most;
use crate::lease::active_lease;
use crate::model::{
    Edge, EdgeKind, EdgeV, Event, EventV, Lease, LeaseState, LeaseV, Symbol, SymbolKind, SymbolV,
};
use crate::rows::{find_row, keep, Row};
use crate::sql::holds_text;
use crate::store::{
    append, fail_about, failure, first_where, no_rows, seen, ErrorKind, LeaseRow, LeaseRowV, Store,
    StoreError, StoreErrorV, StoreV,
};
use crate::text::{
    ascii_lower, before_first, contains, contains_text, same, starts_with, to_ascii_lowercase, up_to_first,
};

verus! {

broadcast use vstd::string::group_string_axioms;

/// A symbol at the other end of an edge.
#[derive(Debug)]
pub struct Neighbor {
    pub symbol: Symbol,
    pub kind: EdgeKind,
}

/// The contents of a [`Neighbor`].
pub struct NeighborV {
    pub symbol: SymbolV,
    pub kind: EdgeKind,
}

impl DeepView for Neighbor {
    type V = NeighborV;

    open spec fn deep_view(&self) -> NeighborV {
        NeighborV {
            symbol: self.symbol.deep_view(),
            kind: self.kind,
        }
    }
}

impl Clone for Neighbor {
    fn clone(&self) -> (r: Self)
        ensures
            r.deep_view() == self.deep_view(),
    {
        let r = Neighbor {
            symbol: self.symbol.clone(),
            kind: self.kind,
        };
        r
    }
}

/// What refers to a symbol, and what it refers to.
#[derive(Debug)]
pub struct Neighbors {
    pub callers: Vec<Neighbor>,
    pub callees: Vec<Neighbor>,
}

/// The contents of a [`Neighbors`].
pub struct NeighborsV {
    pub callers: Seq<NeighborV>,
    pub callees: Seq<NeighborV>,
}

impl DeepView for Neighbors {
    type V = NeighborsV;

    open spec fn deep_view(&self) -> NeighborsV {
        NeighborsV {
            callers: self.callers.deep_view(),
            callees: self.callees.deep_view(),
        }
    }
}

impl Clone for Neighbors {
    fn clone(&self) -> (r: Self)
        ensures
            r.deep_view() == self.deep_view(),
    {
        let r = Neighbors {
            callers: self.callers.clone(),
            callees: self.callees.clone(),
        };
        assert(r.callers.deep_view() =~= self.callers.deep_view());
        assert(r.callees.deep_view() =~= self.callees.deep_view());
        r
    }
}

/// A symbol that a change reaches.
#[derive(Debug)]
pub struct ImpactNode {
    pub symbol: Symbol,
    /// How many edges away.
    pub distance: usize,
    /// Who holds it right now.
    pub lease: Option<Lease>,
}

/// The contents of a [`ImpactNode`].
pub struct ImpactNodeV {
    pub symbol: SymbolV,
    pub distance: usize,
    pub lease: Option<LeaseV>,
}

impl DeepView for ImpactNode {
    type V = ImpactNodeV;

    open spec fn deep_view(&self) -> ImpactNodeV {
        ImpactNodeV {
            symbol: self.symbol.deep_view(),
            distance: self.distance,
            lease: self.lease.deep_view(),
        }
    }
}

impl Clone for ImpactNode {
    fn clone(&self) -> (r: Self)
        ensures
            r.deep_view() == self.deep_view(),
    {
        let r = ImpactNode {
            symbol: self.symbol.clone(),
            distance: self.distance,
            lease: self.lease.clone(),
        };
        r
    }
}

impl EdgeKind {
    /// Does the edge describe behaviour rather than structure?
    pub open spec fn semantic(self) -> bool {
        !(self is Contains)
    }
}

/// The ids in a list of edges, from the far end, of those that start a step:
/// every source of an edge into `frontier` that was not reached before, once.
pub open spec fn step(edges: Seq<EdgeV>, frontier: Seq<Seq<char>>, reached: Seq<Seq<char>>) -> Seq<
    Seq<char>,
>
    decreases edges.len(),
{
    if edges.len() == 0 {
        Seq::empty()
    } else {
        let before = step(edges.drop_last(), frontier, reached);
        let e = edges.last();
        if e.kind.semantic() && frontier.contains(e.dst) && !reached.contains(e.src) && !before.contains(
            e.src,
        ) {
            before.push(e.src)
        } else {
            before
        }
    }
}

/// What is reached against the edges within some steps, with the number of steps,
/// nearest first.
pub open spec fn reach(
    edges: Seq<EdgeV>,
    frontier: Seq<Seq<char>>,
    reached: Seq<Seq<char>>,
    distance: nat,
    steps: nat,
) -> Seq<(Seq<char>, nat)>
    decreases steps,
{
    if steps == 0 {
        Seq::empty()
    } else {
        let next = step(edges, frontier, reached);
        next.map_values(|id: Seq<char>| (id, distance)) + reach(
            edges,
            next,
            reached + next,
            distance + 1,
            (steps - 1) as nat,
        )
    }
}

impl Row for Neighbor {
    fn copy(&self) -> (r: Self) {
        self.clone()
    }
}

impl StoreV {
    /// The symbols that contain a symbol, inside out.
    pub open spec fn ancestors(self, id: Seq<char>) -> Seq<SymbolV> {
        let all = self.chain(id);
        if all.len() == 0 {
            Seq::empty()
        } else {
            self.symbols_of(all.drop_first())
        }
    }

    /// The symbols with these ids; ids without a symbol are passed over.
    pub open spec fn symbols_of(self, ids: Seq<Seq<char>>) -> Seq<SymbolV>
        decreases ids.len(),
    {
        if ids.len() == 0 {
            Seq::empty()
        } else {
            match self.symbol(ids.last()) {
                Some(s) => self.symbols_of(ids.drop_last()).push(s),
                None => self.symbols_of(ids.drop_last()),
            }
        }
    }

    /// The symbols strictly inside a symbol.
    pub open spec fn descendants(self, id: Seq<char>) -> Seq<SymbolV> {
        self.symbols.filter(|s: SymbolV| s.id != id && self.covers(id, s.id))
    }

    /// The symbols that match every condition given.
    pub open spec fn matching(
        self,
        path: Option<Seq<char>>,
        kind: Option<SymbolKind>,
        pattern: Option<Seq<char>>,
    ) -> Seq<SymbolV> {
        self.symbols.filter(|s: SymbolV| listed_symbol(s, path, kind, pattern))
    }

    /// The symbol that a reference names; the reference may be an id, a handle, a
    /// handle with a repository in front, a qualified name or a name. A reference
    /// that could mean more than one symbol names none.
    pub open spec fn resolve(self, query: Seq<char>) -> Result<SymbolV, StoreErrorV> {
        match self.symbol(query) {
            Some(s) => Ok(s),
            None => {
                let in_repo = self.named_in_repo(query);
                let by_handle = self.symbols.filter(|s: SymbolV| s.handle() == query);
                let by_fqn = self.symbols.filter(|s: SymbolV| s.fqn == query);
                let by_name = self.symbols.filter(|s: SymbolV| s.name == query);
                if in_repo.len() > 0 {
                    the_one(in_repo, query)
                } else if by_handle.len() > 0 {
                    the_one(by_handle, query)
                } else if by_fqn.len() > 0 {
                    the_one(by_fqn, query)
                } else {
                    the_one(by_name, query)
                }
            },
        }
    }

    /// The symbols that `repository:handle` names.
    pub open spec fn named_in_repo(self, query: Seq<char>) -> Seq<SymbolV> {
        match before_first(query, ':') {
            None => Seq::empty(),
            Some(name) => match self.repo_id_of(name) {
                None => Seq::empty(),
                Some(repo) => self.symbols.filter(
                    |s: SymbolV| s.repo_id == repo && name + ":"@ + s.handle() == query,
                ),
            },
        }
    }

    /// The ends of some edges that a symbol is the other end of.
    pub open spec fn neighbours(self, ends: Seq<(Seq<char>, EdgeKind)>) -> Seq<NeighborV>
        decreases ends.len(),
    {
        if ends.len() == 0 {
            Seq::empty()
        } else {
            let before = self.neighbours(ends.drop_last());
            match self.symbol(ends.last().0) {
                Some(s) => before.push(NeighborV { symbol: s, kind: ends.last().1 }),
                None => before,
            }
        }
    }

    /// What lies around a symbol, structure left aside.
    pub open spec fn neighbors(self, id: Seq<char>) -> NeighborsV {
        NeighborsV {
            callers: self.neighbours(
                self.edges.filter(|e: EdgeV| e.dst == id && e.kind.semantic()).map_values(
                    |e: EdgeV| (e.src, e.kind),
                ),
            ),
            callees: self.neighbours(
                self.edges.filter(|e: EdgeV| e.src == id && e.kind.semantic()).map_values(
                    |e: EdgeV| (e.dst, e.kind),
                ),
            ),
        }
    }

    /// The first active lease on a symbol.
    pub open spec fn lease_on(self, symbol: Seq<char>) -> Option<LeaseV> {
        match first_where(self.leases, |l: LeaseRowV| active_lease(l, symbol)) {
            Some(l) => Some(self.lease_of(l)),
            None => None,
        }
    }

    /// The symbols at some distances.
    pub open spec fn impact_of(self, ends: Seq<(Seq<char>, nat)>) -> Seq<ImpactNodeV>
        decreases ends.len(),
    {
        if ends.len() == 0 {
            Seq::empty()
        } else {
            let before = self.impact_of(ends.drop_last());
            match self.symbol(ends.last().0) {
                Some(s) => before.push(
                    ImpactNodeV {
                        symbol: s,
                        distance: ends.last().1 as usize,
                        lease: self.lease_on(s.id),
                    },
                ),
                None => before,
            }
        }
    }

    /// What a change to a symbol reaches, within some steps.
    pub open spec fn impact(self, id: Seq<char>, depth: nat) -> Seq<ImpactNodeV> {
        self.impact_of(reach(self.edges, seq![id], seq![id], 1, depth))
    }
}

/// Does a symbol meet the conditions of a search? The pattern is looked for in
/// name, qualified name and path, whatever the case of its ASCII letters.
pub open spec fn listed_symbol(
    s: SymbolV,
    path: Option<Seq<char>>,
    kind: Option<SymbolKind>,
    pattern: Option<Seq<char>>,
) -> bool {
    &&& path matches Some(p) ==> p.is_prefix_of(s.path)
    &&& kind matches Some(k) ==> s.kind == k
    &&& pattern matches Some(p) ==> mentions(s, p)
}

/// Does the pattern occur in the symbol's name, qualified name or path?
pub open spec fn mentions(s: SymbolV, pattern: Seq<char>) -> bool {
    let p = ascii_lower(pattern);
    contains_text(ascii_lower(s.name), p) || contains_text(ascii_lower(s.fqn), p) || contains_text(
        ascii_lower(s.path),
        p,
    )
}

/// The only item of a list.
pub open spec fn the_one(found: Seq<SymbolV>, query: Seq<char>) -> Result<SymbolV, StoreErrorV> {
    if found.len() == 1 {
        Ok(found[0])
    } else if found.len() == 0 {
        Err(failure(ErrorKind::UnknownSymbol, "no symbol matches: "@ + query))
    } else {
        Err(failure(ErrorKind::AmbiguousSymbol, "more than one symbol matches: "@ + query))
    }
}

fn only_one(found: &Vec<Symbol>, query: &str) -> (r: Result<Symbol, StoreError>)
    ensures
        seen(r) == the_one(found.deep_view(), query@),
{
    assert(found@.len() == found.deep_view().len());
    if found.len() == 1 {
        assert(found.deep_view()[0] == found@[0].deep_view());
        Ok(found[0].clone())
    } else if found.len() == 0 {
        Err(fail_about(ErrorKind::UnknownSymbol, "no symbol matches: ", query))
    } else {
        Err(fail_about(ErrorKind::AmbiguousSymbol, "more than one symbol matches: ", query))
    }
}

fn has(s: &str, p: &str) -> (r: bool)
    ensures
        r == contains_text(ascii_lower(s@), p@),
{
    contains(to_ascii_lowercase(s).as_str(), p)
}

fn is_mentioned(s: &Symbol, pattern: &str) -> (r: bool)
    ensures
        r == mentions(s.deep_view(), pattern@),
{
    let p = to_ascii_lowercase(pattern);
    has(s.name.as_str(), p.as_str()) || has(s.fqn.as_str(), p.as_str()) || has(
        s.path.as_str(),
        p.as_str(),
    )
}

fn one_step(edges: &Vec<Edge>, frontier: &Vec<String>, reached: &Vec<String>) -> (r: Vec<String>)
    ensures
        r.deep_view() == step(edges.deep_view(), frontier.deep_view(), reached.deep_view()),
{
    let ghost all = edges.deep_view();
    let mut out: Vec<String> = no_rows();
    let mut i: usize = 0;
    while i < edges.len()
        invariant
            all == edges.deep_view(),
            i <= edges@.len(),
            out.deep_view() == step(
                all.take(i as int),
                frontier.deep_view(),
                reached.deep_view(),
            ),
        decreases edges@.len() - i,
    {
        let e = &edges[i];
        proof {
            assert(all.take(i + 1).drop_last() =~= all.take(i as int));
            assert(all.take(i + 1).last() == e.deep_view());
        }
        if e.kind.is_semantic() && holds_text(frontier, e.dst.as_str()) && !holds_text(
            reached,
            e.src.as_str(),
        ) && !holds_text(&out, e.src.as_str()) {
            append(&mut out, e.src.clone());
        }
        i += 1;
    }
    assert(all.take(i as int) =~= all);
    out
}

impl Store {
    pub(crate) fn symbols_of(&self, ids: &Vec<String>) -> (r: Vec<Symbol>)
        ensures
            r.deep_view() == self@.symbols_of(ids.deep_view()),
    {
        let ghost all = ids.deep_view();
        let mut out: Vec<Symbol> = no_rows();
        let mut i: usize = 0;
        while i < ids.len()
            invariant
                all == ids.deep_view(),
                i <= ids@.len(),
                out.deep_view() == self@.symbols_of(all.take(i as int)),
            decreases ids@.len() - i,
        {
            proof {
                assert(all.take(i + 1).drop_last() =~= all.take(i as int));
                assert(all.take(i + 1).last() == ids@[i as int]@);
            }
            if let Some(s) = self.symbol(ids[i].as_str()) {
                append(&mut out, s);
            }
            i += 1;
        }
        assert(all.take(i as int) =~= all);
        out
    }

    /// The symbols that contain a symbol, inside out.
    pub fn ancestors(&self, id: &str) -> (r: Vec<Symbol>)
        ensures
            r.deep_view() == self@.ancestors(id@),
    {
        let chain = self.chain(id);
        let ghost all = chain.deep_view();
        assert(all.len() == chain@.len());
        if chain.len() == 0 {
            return no_rows();
        }
        let mut rest: Vec<String> = no_rows();
        let mut i: usize = 1;
        while i < chain.len()
            invariant
                all == chain.deep_view(),
                1 <= i <= chain@.len(),
                rest.deep_view() =~= all.drop_first().take(i - 1),
            decreases chain@.len() - i,
        {
            append(&mut rest, chain[i].clone());
            assert(all.drop_first().take(i as int) =~= all.drop_first().take(i - 1).push(
                all[i as int],
            ));
            i += 1;
        }
        assert(all.drop_first().take(i - 1) =~= all.drop_first());
        self.symbols_of(&rest)
    }

    /// The symbols strictly inside a symbol.
    pub fn descendants(&self, id: &str) -> (r: Vec<Symbol>)
        ensures
            r.deep_view() == self@.descendants(id@),
    {
        let test = |s: &Symbol| -> (b: bool)
            ensures b == (s.deep_view().id != id@ && self@.covers(id@, s.deep_view().id))
        {
            !same(s.id.as_str(), id) && self.covers(id, s.id.as_str())
        };
        keep(&self.symbols, test, Ghost(|s: SymbolV| s.id != id@ && self@.covers(id@, s.id)))
    }

    /// The symbols that match every condition given, at most `limit` of them.
    pub fn list_symbols(
        &self,
        path: &Option<String>,
        kind: Option<SymbolKind>,
        pattern: &Option<String>,
        limit: usize,
    ) -> (r: Vec<Symbol>)
        ensures
            ({
                let all = self@.matching(path.deep_view(), kind, pattern.deep_view());
                r.deep_view() == all.take(
                    if all.len() < limit {
                        all.len() as int
                    } else {
                        limit as int
                    },
                )
            }),
    {
        let test = |s: &Symbol| -> (b: bool)
            ensures b == listed_symbol(s.deep_view(), path.deep_view(), kind, pattern.deep_view())
        {
            (match path {
                Some(p) => starts_with(s.path.as_str(), p.as_str()),
                None => true,
            }) && (match kind {
                Some(k) => s.kind == k,
                None => true,
            }) && (match pattern {
                Some(p) => is_mentioned(s, p.as_str()),
                None => true,
            })
        };
        let all = keep(
            &self.symbols,
            test,
            Ghost(
                |s: SymbolV| listed_symbol(s, path.deep_view(), kind, pattern.deep_view()),
            ),
        );
        first_rows(&all, limit)
    }

    /// The symbol that a reference names.
    pub fn resolve(&self, query: &str) -> (r: Result<Symbol, StoreError>)
        ensures
            seen(r) == self@.resolve(query@),
    {
        if let Some(s) = self.symbol(query) {
            return Ok(s);
        }
        let found = self.named_in_repo(query);
        assert(found@.len() == found.deep_view().len());
        if found.len() > 0 {
            return only_one(&found, query);
        }
        let by_handle = |s: &Symbol| -> (b: bool)
            ensures b == (s.deep_view().handle() == query@)
        {
            same(s.handle().as_str(), query)
        };
        let found = keep(&self.symbols, by_handle, Ghost(|s: SymbolV| s.handle() == query@));
        assert(found@.len() == found.deep_view().len());
        if found.len() > 0 {
            return only_one(&found, query);
        }
        let by_fqn = |s: &Symbol| -> (b: bool)
            ensures b == (s.deep_view().fqn == query@)
        {
            same(s.fqn.as_str(), query)
        };
        let found = keep(&self.symbols, by_fqn, Ghost(|s: SymbolV| s.fqn == query@));
        assert(found@.len() == found.deep_view().len());
        if found.len() > 0 {
            return only_one(&found, query);
        }
        let by_name = |s: &Symbol| -> (b: bool)
            ensures b == (s.deep_view().name == query@)
        {
            same(s.name.as_str(), query)
        };
        only_one(&keep(&self.symbols, by_name, Ghost(|s: SymbolV| s.name == query@)), query)
    }

    fn named_in_repo(&self, query: &str) -> (r: Vec<Symbol>)
        ensures
            r.deep_view() == self@.named_in_repo(query@),
    {
        let name = match up_to_first(query, ':') {
            Some(n) => n,
            None => {
                return no_rows();
            },
        };
        let repo = match self.resolve_repo_id(name.as_str()) {
            Some(r) => r,
            None => {
                return no_rows();
            },
        };
        let test = |s: &Symbol| -> (b: bool)
            ensures b == (s.deep_view().repo_id == repo@ && name@ + ":"@ + s.deep_view().handle() == query@)
        {
            same(s.repo_id.as_str(), repo.as_str()) && same(
                crate::text::cat3(name.as_str(), ":", s.handle().as_str()).as_str(),
                query,
            )
        };
        keep(
            &self.symbols,
            test,
            Ghost(
                |s: SymbolV| s.repo_id == repo@ && name@ + ":"@ + s.handle() == query@,
            ),
        )
    }

    fn neighbours(&self, ends: &Vec<(String, EdgeKind)>) -> (r: Vec<Neighbor>)
        ensures
            r.deep_view() == self@.neighbours(end_views(ends@)),
    {
        let ghost all = end_views(ends@);
        let mut out: Vec<Neighbor> = no_rows();
        let mut i: usize = 0;
        while i < ends.len()
            invariant
                all == end_views(ends@),
                i <= ends@.len(),
                out.deep_view() == self@.neighbours(all.take(i as int)),
            decreases ends@.len() - i,
        {
            proof {
                assert(all.take(i + 1).drop_last() =~= all.take(i as int));
                assert(all.take(i + 1).last() == all[i as int]);
            }
            if let Some(s) = self.symbol(ends[i].0.as_str()) {
                append(&mut out, Neighbor { symbol: s, kind: ends[i].1 });
            }
            i += 1;
        }
        assert(all.take(i as int) =~= all);
        out
    }

    /// What refers to a symbol, and what it refers to.
    pub fn neighbors(&self, id: &str) -> (r: Neighbors)
        ensures
            r.deep_view() == self@.neighbors(id@),
    {
        let into = |e: &Edge| -> (b: bool)
            ensures b == (e.deep_view().dst == id@ && e.deep_view().kind.semantic())
        {
            same(e.dst.as_str(), id) && e.kind.is_semantic()
        };
        let from = |e: &Edge| -> (b: bool)
            ensures b == (e.deep_view().src == id@ && e.deep_view().kind.semantic())
        {
            same(e.src.as_str(), id) && e.kind.is_semantic()
        };
        let a = keep(&self.edges, into, Ghost(|e: EdgeV| e.dst == id@ && e.kind.semantic()));
        let b = keep(&self.edges, from, Ghost(|e: EdgeV| e.src == id@ && e.kind.semantic()));
        let x = ends_of(&a, true);
        let y = ends_of(&b, false);
        assert(end_views(x@) =~= a.deep_view().map_values(|e: EdgeV| (e.src, e.kind)));
        assert(end_views(y@) =~= b.deep_view().map_values(|e: EdgeV| (e.dst, e.kind)));
        Neighbors { callers: self.neighbours(&x), callees: self.neighbours(&y) }
    }

    /// The first active lease on a symbol.
    pub(crate) fn lease_on(&self, symbol: &str) -> (r: Option<Lease>)
        ensures
            r.deep_view() == self@.lease_on(symbol@),
    {
        let test = |l: &LeaseRow| -> (b: bool)
            ensures b == active_lease(l.deep_view(), symbol@)
        {
            same(l.symbol_id.as_str(), symbol) && l.state == LeaseState::Active
        };
        match find_row(&self.leases, test, Ghost(|l: LeaseRowV| active_lease(l, symbol@))) {
            Some(i) => Some(self.lease_of(&self.leases[i])),
            None => None,
        }
    }

    /// What a change to a symbol reaches: everything that refers to it, directly or
    /// through others, within `depth` steps, nearest first.
    pub fn impact(&self, id: &str, depth: usize) -> (r: Vec<ImpactNode>)
        ensures
            r.deep_view() == self@.impact(id@, depth as nat),
    {
        let mut frontier: Vec<String> = no_rows();
        append(&mut frontier, id.to_owned());
        let mut reached: Vec<String> = no_rows();
        append(&mut reached, id.to_owned());
        let mut out: Vec<ImpactNode> = no_rows();
        let ghost whole = reach(self@.edges, seq![id@], seq![id@], 1, depth as nat);
        let ghost mut done: Seq<(Seq<char>, nat)> = Seq::empty();
        let mut d: usize = 0;
        assert(frontier.deep_view() =~= seq![id@]);
        assert(done + whole =~= whole);
        while d < depth
            invariant
                d <= depth,
                whole == done + reach(
                    self@.edges,
                    frontier.deep_view(),
                    reached.deep_view(),
                    (d + 1) as nat,
                    (depth - d) as nat,
                ),
                out.deep_view() == self@.impact_of(done),
            decreases depth - d,
        {
            let next = one_step(&self.edges, &frontier, &reached);
            let ghost nv = next.deep_view();
            let ghost pairs = nv.map_values(|id: Seq<char>| (id, (d + 1) as nat));
            let ghost done0 = done;
            let mut i: usize = 0;
            assert(done0 + pairs.take(0) =~= done0);
            while i < next.len()
                invariant
                    i <= next@.len(),
                    d < depth,
                    nv == next.deep_view(),
                    pairs == nv.map_values(|id: Seq<char>| (id, (d + 1) as nat)),
                    out.deep_view() == self@.impact_of(done0 + pairs.take(i as int)),
                decreases next@.len() - i,
            {
                proof {
                    assert((done0 + pairs.take(i + 1)).drop_last() =~= done0 + pairs.take(i as int));
                    assert((done0 + pairs.take(i + 1)).last() == pairs[i as int]);
                    assert(nv[i as int] == next@[i as int]@);
                }
                if let Some(s) = self.symbol(next[i].as_str()) {
                    let lease = self.lease_on(s.id.as_str());
                    append(&mut out, ImpactNode { symbol: s, distance: d + 1, lease });
                }
                i += 1;
            }
            proof {
                assert(pairs.take(i as int) =~= pairs);
                done = done0 + pairs;
                let rest = reach(
                    self@.edges,
                    nv,
                    reached.deep_view() + nv,
                    (d + 2) as nat,
                    (depth - d - 1) as nat,
                );
                assert(done0 + (pairs + rest) =~= done + rest);
            }
            let ghost rv = reached.deep_view();
            let mut k: usize = 0;
            assert(rv + nv.take(0) =~= rv);
            while k < next.len()
                invariant
                    k <= next@.len(),
                    nv == next.deep_view(),
                    reached.deep_view() == rv + nv.take(k as int),
                decreases next@.len() - k,
            {
                append(&mut reached, next[k].clone());
                assert((rv + nv.take(k as int)).push(nv[k as int]) =~= rv + nv.take(k + 1));
                k += 1;
            }
            assert(nv.take(k as int) =~= nv);
            frontier = next;
            d += 1;
        }
        assert(done + Seq::<(Seq<char>, nat)>::empty() =~= done);
        out
    }
}

/// The first rows of a list.
pub(crate) fn first_rows<T: Row>(rows: &Vec<T>, limit: usize) -> (r: Vec<T>)
    ensures
        ({
            let all = rows.deep_view();
            r.deep_view() == all.take(
                if all.len() < limit {
                    all.len() as int
                } else {
                    limit as int
                },
            )
        }),
{
    let n = if rows.len() < limit {
        rows.len()
    } else {
        limit
    };
    let ghost all = rows.deep_view();
    let mut out: Vec<T> = no_rows();
    let mut i: usize = 0;
    while i < n
        invariant
            n <= rows@.len(),
            i <= n,
            all == rows.deep_view(),
            out.deep_view() =~= all.take(i as int),
        decreases n - i,
    {
        append(&mut out, rows[i].copy());
        i += 1;
    }
    out
}

impl StoreV {
    /// The last events, oldest first.
    pub open spec fn recent(self, limit: nat) -> Seq<EventV> {
        if self.events.len() > limit {
            self.events.skip(self.events.len() - limit)
        } else {
            self.events
        }
    }

    /// The first events after one, oldest first.
    pub open spec fn events_since(self, id: i64, limit: nat) -> Seq<EventV> {
        at_most(self.events.filter(|e: EventV| e.id > id), limit)
    }
}

impl Store {
    /// The first events after the one with this id, oldest first.
    pub fn events_since(&self, id: i64, limit: usize) -> (r: Vec<Event>)
        ensures
            r.deep_view() == self@.events_since(id, limit as nat),
    {
        let test = |e: &Event| -> (b: bool)
            ensures b == (e.deep_view().id > id)
        {
            e.id > id
        };
        let later = keep(&self.events, test, Ghost(|e: EventV| e.id > id));
        first_rows(&later, limit)
    }

    /// The last events, oldest first.
    pub fn recent_events(&self, limit: usize) -> (r: Vec<Event>)
        ensures
            r.deep_view() == self@.recent(limit as nat),
    {
        let ghost all = self@.events;
        assert(self.events@.len() == all.len());
        let start = if self.events.len() > limit {
            self.events.len() - limit
        } else {
            0
        };
        let mut out: Vec<Event> = no_rows();
        let mut i: usize = start;
        while i < self.events.len()
            invariant
                all == self@.events,
                start <= i <= self.events@.len(),
                out.deep_view() =~= all.subrange(start as int, i as int),
            decreases self.events@.len() - i,
        {
            append(&mut out, self.events[i].clone());
            assert(all.subrange(start as int, i + 1) =~= all.subrange(start as int, i as int).push(
                all[i as int],
            ));
            i += 1;
        }
        assert(all.subrange(start as int, i as int) =~= all.skip(start as int));
        assert(all.skip(0) =~= all);
        out
    }
}

/// The contents of a list of edge ends.
pub open spec fn end_views(s: Seq<(String, EdgeKind)>) -> Seq<(Seq<char>, EdgeKind)> {
    s.map_values(|e: (String, EdgeKind)| (e.0@, e.1))
}

/// One end of every edge.
fn ends_of(edges: &Vec<Edge>, sources: bool) -> (r: Vec<(String, EdgeKind)>)
    ensures
        end_views(r@) == edges.deep_view().map_values(
            |e: EdgeV|
                (
                    if sources {
                        e.src
                    } else {
                        e.dst
                    },
                    e.kind,
                ),
        ),
{
    let mut out: Vec<(String, EdgeKind)> = Vec::new();
    let mut i: usize = 0;
    while i < edges.len()
        invariant
            i <= edges@.len(),
            out@.len() == i,
            forall|k: int|
                0 <= k < i ==> #[trigger] end_views(out@)[k] == (
                    if sources {
                        edges@[k].src@
                    } else {
                        edges@[k].dst@
                    },
                    edges@[k].kind,
                ),
        decreases edges@.len() - i,
    {
        let ghost before = out@;
        let id = if sources {
            edges[i].src.clone()
        } else {
            edges[i].dst.clone()
        };
        out.push((id, edges[i].kind));
        assert forall|k: int| 0 <= k < i + 1 implies #[trigger] end_views(out@)[k] == (
            if sources {
                edges@[k].src@
            } else {
                edges@[k].dst@
            },
            edges@[k].kind,
        ) by {
            if k < i {
                assert(end_views(before)[k] == end_views(out@)[k]);
            }
        }
        i += 1;
    }
    out
}

} // verus!
