//! What the picture promises.

use vstd::prelude::*;
use vstd::string::*;

use crate::arch::{
    add_node, arrow, blank, clamp_depth, distinct, home_of, import_links, laid_out, loose_id, longest_home,
    node_in, put_node, put_nodes, service_box, table_box, top_dir, under, ActivityV, ArchEdgeV, ArchKind,
    ArchNode, ArchNodeV, LayoutV, OwnedV,
};
use crate::depends::is_cycle;
use crate::edges::edge_lt;
use crate::imports::parent_of;
use crate::model::{EdgeV, LeaseV, SymbolV};
use crate::order::{deduped, law_sorted_keeps, rank, sorted};
use crate::rows::law_filter_has;
use crate::scan_laws::{lemma_first_changed, lemma_first_pushed, lemma_kept};
use crate::schedule::last_where;
use crate::store::{first_where, law_first_where, StoreV};
use crate::walk::{closed, law_a_loop_is_found, law_found_loops_are_loops};

verus! {

broadcast use vstd::string::group_string_axioms;

// -------------------------------------------------------------------- the lists

pub(crate) proof fn lemma_sorted_has<T>(s: Seq<T>, before: spec_fn(T, T) -> bool, x: T)
    ensures
        sorted(s, before).contains(x) <==> s.contains(x),
{
    broadcast use vstd::seq_lib::group_to_multiset_ensures;

    law_sorted_keeps(s, before);
    assert(sorted(s, before).contains(x) <==> sorted(s, before).to_multiset().count(x) > 0);
    assert(s.contains(x) <==> s.to_multiset().count(x) > 0);
}

proof fn lemma_deduped_has<T>(s: Seq<T>, x: T)
    requires
        deduped(s).contains(x),
    ensures
        s.contains(x),
    decreases s.len(),
{
    let i = choose|i: int| 0 <= i < deduped(s).len() && deduped(s)[i] == x;
    if s.len() >= 2 {
        let t = s.drop_last();
        if s.last() == s[s.len() - 2] {
            lemma_deduped_has(t, x);
            let k = choose|k: int| 0 <= k < t.len() && t[k] == x;
            assert(s[k] == x);
        } else if i == deduped(s).len() - 1 {
            assert(s[s.len() - 1] == x);
        } else {
            assert(deduped(t)[i] == x);
            lemma_deduped_has(t, x);
            let k = choose|k: int| 0 <= k < t.len() && t[k] == x;
            assert(s[k] == x);
        }
    } else {
        assert(s[i] == x);
    }
}

proof fn lemma_last_where<T>(s: Seq<T>, p: spec_fn(T) -> bool)
    ensures
        match last_where(s, p) {
            Some(x) => p(x) && s.contains(x),
            None => forall|i: int| 0 <= i < s.len() ==> !p(#[trigger] s[i]),
        },
    decreases s.len(),
{
    if s.len() > 0 {
        let t = s.drop_last();
        lemma_last_where(t, p);
        if p(s.last()) {
            assert(s[s.len() - 1] == s.last());
        } else {
            match last_where(t, p) {
                Some(x) => {
                    let k = choose|k: int| 0 <= k < t.len() && t[k] == x;
                    assert(s[k] == x);
                },
                None => {
                    assert forall|i: int| 0 <= i < s.len() implies !p(#[trigger] s[i]) by {
                        if i < t.len() {
                            assert(t[i] == s[i]);
                        }
                    }
                },
            }
        }
    }
}

// -------------------------------------------------------------------- the boxes

/// Is there a box with this id?
pub open spec fn is_box(nodes: Seq<ArchNodeV>, id: Seq<char>) -> bool {
    node_in(nodes, id) is Some
}

proof fn lemma_box(nodes: Seq<ArchNodeV>, id: Seq<char>)
    ensures
        is_box(nodes, id) <==> exists|i: int| 0 <= i < nodes.len() && (#[trigger] nodes[i]).id == id,
{
    let p = |n: ArchNodeV| n.id == id;
    law_first_where(nodes, p);
    if is_box(nodes, id) {
        let n = node_in(nodes, id)->Some_0;
        let i = choose|i: int| 0 <= i < nodes.len() && nodes[i] == n;
        assert(nodes[i].id == id);
    } else {
        assert forall|i: int| 0 <= i < nodes.len() implies (#[trigger] nodes[i]).id != id by {
            assert(!p(nodes[i]));
        }
    }
}

proof fn lemma_add_node(nodes: Seq<ArchNodeV>, n: ArchNodeV, id: Seq<char>)
    ensures
        is_box(add_node(nodes, n), id) <==> is_box(nodes, id) || id == n.id,
        is_box(nodes, id) ==> node_in(add_node(nodes, n), id) == node_in(nodes, id),
{
    lemma_first_pushed(nodes, |x: ArchNodeV| x.id == id, n);
}

proof fn lemma_put_node(nodes: Seq<ArchNodeV>, n: ArchNodeV, id: Seq<char>)
    ensures
        is_box(put_node(nodes, n), id) <==> is_box(nodes, id) || id == n.id,
        node_in(put_node(nodes, n), id) == (if id == n.id {
            Some(n)
        } else {
            node_in(nodes, id)
        }),
{
    let p = |x: ArchNodeV| x.id == id;
    if is_box(nodes, n.id) {
        let f = |x: ArchNodeV|
            if x.id == n.id {
                n
            } else {
                x
            };
        lemma_first_changed(nodes, p, f);
        law_first_where(nodes, p);
        assert(put_node(nodes, n) == nodes.map_values(f));
        if id == n.id {
            assert(is_box(nodes, id));
            assert(first_where(nodes, p) is Some);
        }
    } else {
        lemma_first_pushed(nodes, p, n);
    }
}

proof fn lemma_put_nodes(nodes: Seq<ArchNodeV>, more: Seq<ArchNodeV>, id: Seq<char>)
    ensures
        is_box(nodes, id) ==> is_box(put_nodes(nodes, more), id),
        forall|i: int| 0 <= i < more.len() ==> is_box(put_nodes(nodes, more), (#[trigger] more[i]).id),
    decreases more.len(),
{
    if more.len() > 0 {
        let init = more.drop_last();
        lemma_put_nodes(nodes, init, id);
        let m = put_nodes(nodes, init);
        lemma_put_node(m, more.last(), id);
        assert forall|i: int| 0 <= i < more.len() implies is_box(
            put_nodes(nodes, more),
            (#[trigger] more[i]).id,
        ) by {
            lemma_put_node(m, more.last(), more[i].id);
            if i < init.len() {
                assert(init[i] == more[i]);
            }
        }
    }
}

/// Does every file belong to a box that is there, and is there a box for each of
/// the services?
spec fn housed(l: LayoutV, services: Seq<SymbolV>) -> bool {
    &&& forall|i: int| 0 <= i < l.owner.len() ==> is_box(l.nodes, (#[trigger] l.owner[i]).node)
    &&& forall|i: int| 0 <= i < services.len() ==> is_box(l.nodes, (#[trigger] services[i]).id)
}

proof fn lemma_longest_home(services: Seq<SymbolV>)
    ensures
        longest_home(services) matches Some(s) ==> services.contains(s),
    decreases services.len(),
{
    if services.len() > 0 {
        let t = services.drop_last();
        lemma_longest_home(t);
        assert(services[services.len() - 1] == services.last());
        if let Some(s) = longest_home(t) {
            let k = choose|k: int| 0 <= k < t.len() && t[k] == s;
            assert(services[k] == s);
        }
    }
}

proof fn lemma_home(services: Seq<SymbolV>, f: SymbolV)
    ensures
        home_of(services, f) matches Some(s) ==> services.contains(s) && s.repo_id == f.repo_id && under(
            f.path,
            parent_of(s.path),
        ),
{
    let p = |s: SymbolV| s.repo_id == f.repo_id && under(f.path, parent_of(s.path));
    lemma_longest_home(services.filter(p));
    if let Some(s) = home_of(services, f) {
        let i = choose|i: int| 0 <= i < services.filter(p).len() && services.filter(p)[i] == s;
        lemma_kept(services, p, i);
    }
}

proof fn lemma_with_file(l: LayoutV, services: Seq<SymbolV>, f: SymbolV, depth: usize)
    requires
        housed(l, services),
    ensures
        housed(l.with_file(services, f, depth), services),
        l.with_file(services, f, depth).owner.len() == l.owner.len() + 1,
        l.owner.is_prefix_of(l.with_file(services, f, depth).owner),
        l.with_file(services, f, depth).owner.last().repo_id == f.repo_id,
        l.with_file(services, f, depth).owner.last().path == f.path,
{
    let r = l.with_file(services, f, depth);
    lemma_home(services, f);
    if let Some(s) = home_of(services, f) {
        let k = choose|k: int| 0 <= k < services.len() && services[k] == s;
        assert(is_box(l.nodes, services[k].id));
    }
    assert forall|id: Seq<char>| is_box(l.nodes, id) || id == r.owner.last().node implies #[trigger] is_box(
        r.nodes,
        id,
    ) by {
        let service = match home_of(services, f) {
            Some(s) => s.id,
            None => loose_id(f.repo_id),
        };
        let loose = blank(service, ArchKind::Repo, f.repo_id, None, f.repo_id, None);
        lemma_add_node(l.nodes, loose, id);
        let nodes = match home_of(services, f) {
            Some(_) => l.nodes,
            None => add_node(l.nodes, loose),
        };
        let (base, name) = match node_in(nodes, service) {
            Some(n) => (
                match n.path {
                    Some(p) => parent_of(p),
                    None => Seq::empty(),
                },
                n.name,
            ),
            None => (Seq::empty(), Seq::empty()),
        };
        let dir = top_dir(f.path, base);
        lemma_add_node(
            nodes,
            blank(
                crate::arch::dir_id(f.repo_id, dir),
                ArchKind::Dir,
                name + "/"@ + crate::text::after_last(dir, '/'),
                Some(dir),
                f.repo_id,
                Some(service),
            ),
            id,
        );
        lemma_put_node(
            nodes,
            blank(
                f.id,
                ArchKind::File,
                crate::text::after_last(f.path, '/'),
                Some(f.path),
                f.repo_id,
                Some(service),
            ),
            id,
        );
    }
    assert forall|i: int| 0 <= i < r.owner.len() implies is_box(r.nodes, (#[trigger] r.owner[i]).node) by {
        if i < l.owner.len() {
            assert(r.owner[i] == l.owner[i]);
        }
    }
}

proof fn lemma_with_files(l: LayoutV, services: Seq<SymbolV>, files: Seq<SymbolV>, depth: usize)
    requires
        housed(l, services),
    ensures
        housed(l.with_files(services, files, depth), services),
        forall|k: int|
            0 <= k < files.len() ==> l.with_files(services, files, depth).owner_of(
                (#[trigger] files[k]).repo_id,
                files[k].path,
            ) is Some,
    decreases files.len(),
{
    if files.len() > 0 {
        let init = files.drop_last();
        lemma_with_files(l, services, init, depth);
        let m = l.with_files(services, init, depth);
        lemma_with_file(m, services, files.last(), depth);
        let r = l.with_files(services, files, depth);
        assert forall|k: int| 0 <= k < files.len() implies r.owner_of(
            (#[trigger] files[k]).repo_id,
            files[k].path,
        ) is Some by {
            let f = files[k];
            let p = |o: OwnedV| o.repo_id == f.repo_id && o.path == f.path;
            lemma_last_where(r.owner, p);
            lemma_last_where(m.owner, p);
            if k < init.len() {
                assert(init[k] == f);
                let o = last_where(m.owner, p)->Some_0;
                let j = choose|j: int| 0 <= j < m.owner.len() && m.owner[j] == o;
                assert(r.owner[j] == o);
                assert(p(r.owner[j]));
            } else {
                assert(p(r.owner[r.owner.len() - 1]));
            }
        }
    }
}

/// Every file of the symbols has a box: files with no manifest above them still have
/// to live somewhere. And whatever a file belongs to is there.
pub proof fn law_every_file_has_a_box(symbols: Seq<SymbolV>, depth: usize, f: SymbolV)
    requires
        symbols.contains(f),
        f.kind is File,
    ensures
        laid_out(symbols, depth).owner_of(f.repo_id, f.path) matches Some(id) && is_box(
            laid_out(symbols, depth).nodes,
            id,
        ),
{
    lemma_laid_out(symbols, depth);
    let files = symbols.filter(|s: SymbolV| s.kind is File);
    law_filter_has(symbols, |s: SymbolV| s.kind is File, f);
    let k = choose|k: int| 0 <= k < files.len() && files[k] == f;
    assert(laid_out(symbols, depth).owner_of(files[k].repo_id, files[k].path) is Some);
    lemma_owner(laid_out(symbols, depth), f.repo_id, f.path);
}

spec fn owners_there(l: LayoutV) -> bool {
    forall|i: int| 0 <= i < l.owner.len() ==> is_box(l.nodes, (#[trigger] l.owner[i]).node)
}

proof fn lemma_owner(l: LayoutV, repo: Seq<char>, path: Seq<char>)
    requires
        owners_there(l),
    ensures
        l.owner_of(repo, path) matches Some(id) ==> is_box(l.nodes, id),
{
    let p = |o: OwnedV| o.repo_id == repo && o.path == path;
    lemma_last_where(l.owner, p);
    if let Some(o) = last_where(l.owner, p) {
        let j = choose|j: int| 0 <= j < l.owner.len() && l.owner[j] == o;
        assert(is_box(l.nodes, l.owner[j].node));
    }
}

proof fn lemma_laid_out(symbols: Seq<SymbolV>, depth: usize)
    ensures
        owners_there(laid_out(symbols, depth)),
        ({
            let files = symbols.filter(|s: SymbolV| s.kind is File);
            forall|k: int|
                0 <= k < files.len() ==> laid_out(symbols, depth).owner_of(
                    (#[trigger] files[k]).repo_id,
                    files[k].path,
                ) is Some
        }),
        ({
            let tables = symbols.filter(|s: SymbolV| s.kind is Table);
            forall|k: int|
                0 <= k < tables.len() ==> is_box(
                    laid_out(symbols, depth).nodes,
                    (#[trigger] tables[k]).id,
                )
        }),
{
    let services = symbols.filter(|s: SymbolV| s.kind is Service);
    let files = symbols.filter(|s: SymbolV| s.kind is File);
    let tables = symbols.filter(|s: SymbolV| s.kind is Table);
    let boxes = services.map_values(|s: SymbolV| service_box(s));
    let start = LayoutV { nodes: put_nodes(Seq::empty(), boxes), owner: Seq::empty() };
    lemma_put_nodes(Seq::empty(), boxes, Seq::empty());
    assert forall|i: int| 0 <= i < services.len() implies is_box(
        start.nodes,
        (#[trigger] services[i]).id,
    ) by {
        assert(boxes[i].id == services[i].id);
    }
    lemma_with_files(start, services, files, depth);
    let l = start.with_files(services, files, depth);
    let more = tables.map_values(|s: SymbolV| table_box(s));
    let r = laid_out(symbols, depth);
    assert forall|i: int| 0 <= i < r.owner.len() implies is_box(r.nodes, (#[trigger] r.owner[i]).node) by {
        assert(is_box(l.nodes, l.owner[i].node));
        lemma_put_nodes(l.nodes, more, r.owner[i].node);
    }
    lemma_put_nodes(l.nodes, more, Seq::empty());
    assert forall|k: int| 0 <= k < tables.len() implies is_box(r.nodes, (#[trigger] tables[k]).id) by {
        assert(more[k].id == tables[k].id);
    }
}

proof fn lemma_end_box(s: StoreV, symbols: Seq<SymbolV>, depth: usize, id: Seq<char>)
    ensures
        s.end_box(laid_out(symbols, depth), symbols, id) matches Some(b) ==> is_box(
            laid_out(symbols, depth).nodes,
            b,
        ),
{
    let l = laid_out(symbols, depth);
    lemma_laid_out(symbols, depth);
    if let Some(x) = first_where(symbols, |s: SymbolV| s.id == id) {
        lemma_owner(l, x.repo_id, x.path);
    }
}

proof fn lemma_box_edges(s: StoreV, symbols: Seq<SymbolV>, depth: usize, edges: Seq<EdgeV>)
    ensures
        ({
            let l = laid_out(symbols, depth);
            let all = s.box_edges(l, symbols, edges);
            forall|i: int|
                0 <= i < all.len() ==> is_box(l.nodes, (#[trigger] all[i]).src) && is_box(
                    l.nodes,
                    all[i].dst,
                ) && all[i].src != all[i].dst && (all[i].kind is Imports || all[i].kind is Queries)
        }),
    decreases edges.len(),
{
    if edges.len() > 0 {
        lemma_box_edges(s, symbols, depth, edges.drop_last());
        lemma_end_box(s, symbols, depth, edges.last().src);
        lemma_end_box(s, symbols, depth, edges.last().dst);
    }
}

proof fn lemma_arrows(s: StoreV, symbols: Seq<SymbolV>, depth: usize, i: int)
    requires
        0 <= i < s.arrows(laid_out(symbols, depth), symbols).len(),
    ensures
        ({
            let l = laid_out(symbols, depth);
            let e = s.arrows(l, symbols)[i];
            &&& is_box(l.nodes, e.from)
            &&& is_box(l.nodes, e.to)
            &&& e.from != e.to
            &&& e.kind is Imports || e.kind is Queries
            &&& e.weight >= 1
        }),
{
    let l = laid_out(symbols, depth);
    let all = s.box_edges(l, symbols, s.edges);
    let lt = |a: EdgeV, b: EdgeV| edge_lt(a, b);
    let once = deduped(sorted(all, lt));
    let x = once[i];
    assert(once.contains(x));
    lemma_deduped_has(sorted(all, lt), x);
    lemma_sorted_has(all, lt, x);
    let k = choose|k: int| 0 <= k < all.len() && all[k] == x;
    lemma_box_edges(s, symbols, depth, s.edges);
    assert(is_box(l.nodes, all[k].src));
    assert(s.arrows(l, symbols)[i] == arrow(all, x));
    let p = crate::arch::is_edge(x);
    law_filter_has(all, p, x);
    assert(all.filter(p).len() > 0);
    let e = s.arrows(l, symbols)[i];
    assert(e.from == x.src && e.to == x.dst && e.kind == x.kind);
}

proof fn lemma_graph_box(
    s: StoreV,
    repo: Option<Seq<char>>,
    depth: usize,
    live: Seq<ActivityV>,
    now: i64,
    id: Seq<char>,
)
    ensures
        is_box(s.architecture(repo, depth, live, now).nodes, id) <==> is_box(
            laid_out(s.arch_symbols(repo), clamp_depth(depth)).nodes,
            id,
        ),
{
    let symbols = s.arch_symbols(repo);
    let l = laid_out(symbols, clamp_depth(depth));
    let f = |n: ArchNodeV| s.filled(l, symbols, live, now, n);
    let m = l.nodes.map_values(f);
    let nodes = s.architecture(repo, depth, live, now).nodes;
    lemma_box(l.nodes, id);
    lemma_box(nodes, id);
    if is_box(l.nodes, id) {
        let i = choose|i: int| 0 <= i < l.nodes.len() && (#[trigger] l.nodes[i]).id == id;
        assert(m[i].id == id);
        assert(m.contains(m[i]));
        lemma_sorted_has(m, rank::<ArchNode>(), m[i]);
        let j = choose|j: int| 0 <= j < nodes.len() && nodes[j] == m[i];
        assert(nodes[j].id == id);
    }
    if is_box(nodes, id) {
        let j = choose|j: int| 0 <= j < nodes.len() && (#[trigger] nodes[j]).id == id;
        assert(nodes.contains(nodes[j]));
        lemma_sorted_has(m, rank::<ArchNode>(), nodes[j]);
        let i = choose|i: int| 0 <= i < m.len() && m[i] == nodes[j];
        assert(l.nodes[i].id == id);
    }
}

/// Every arrow joins two different boxes of the picture, and stands for at least one
/// import or query.
pub proof fn law_arrows_join_boxes(
    s: StoreV,
    repo: Option<Seq<char>>,
    depth: usize,
    live: Seq<ActivityV>,
    now: i64,
    i: int,
)
    requires
        0 <= i < s.architecture(repo, depth, live, now).edges.len(),
    ensures
        ({
            let g = s.architecture(repo, depth, live, now);
            &&& is_box(g.nodes, g.edges[i].from)
            &&& is_box(g.nodes, g.edges[i].to)
            &&& g.edges[i].from != g.edges[i].to
            &&& g.edges[i].kind is Imports || g.edges[i].kind is Queries
            &&& g.edges[i].weight >= 1
        }),
{
    let symbols = s.arch_symbols(repo);
    lemma_arrows(s, symbols, clamp_depth(depth), i);
    let g = s.architecture(repo, depth, live, now);
    lemma_graph_box(s, repo, depth, live, now, g.edges[i].from);
    lemma_graph_box(s, repo, depth, live, now, g.edges[i].to);
}

/// A table is a box of its own at every depth.
pub proof fn law_tables_are_boxes(
    s: StoreV,
    repo: Option<Seq<char>>,
    depth: usize,
    live: Seq<ActivityV>,
    now: i64,
    t: SymbolV,
)
    requires
        s.symbols.contains(t),
        t.kind is Table,
        repo is None || repo == Some(t.repo_id),
    ensures
        is_box(s.architecture(repo, depth, live, now).nodes, t.id),
{
    let p = |x: SymbolV| repo is None || x.repo_id == repo->Some_0;
    law_filter_has(s.symbols, p, t);
    let symbols = s.arch_symbols(repo);
    lemma_sorted_has(s.symbols.filter(p), rank::<crate::arch::ByPath>(), t);
    let q = |x: SymbolV| x.kind is Table;
    law_filter_has(symbols, q, t);
    let tables = symbols.filter(q);
    let k = choose|k: int| 0 <= k < tables.len() && tables[k] == t;
    lemma_laid_out(symbols, clamp_depth(depth));
    assert(is_box(laid_out(symbols, clamp_depth(depth)).nodes, tables[k].id));
    lemma_graph_box(s, repo, depth, live, now, t.id);
}

proof fn lemma_closed(
    s: StoreV,
    repo: Option<Seq<char>>,
    depth: usize,
    live: Seq<ActivityV>,
    now: i64,
)
    ensures
        ({
            let g = s.architecture(repo, depth, live, now);
            closed(g.nodes.map_values(|n: ArchNodeV| n.id), import_links(g.edges))
        }),
{
    let g = s.architecture(repo, depth, live, now);
    let ids = g.nodes.map_values(|n: ArchNodeV| n.id);
    let links = import_links(g.edges);
    let p = |e: ArchEdgeV| e.kind is Imports;
    assert forall|i: int| 0 <= i < links.len() implies ids.contains((#[trigger] links[i]).right) by {
        let e = g.edges.filter(p)[i];
        lemma_kept(g.edges, p, i);
        let k = choose|k: int| 0 <= k < g.edges.len() && g.edges[k] == e;
        law_arrows_join_boxes(s, repo, depth, live, now, k);
        lemma_box(g.nodes, e.to);
        let j = choose|j: int| 0 <= j < g.nodes.len() && (#[trigger] g.nodes[j]).id == e.to;
        assert(ids[j] == links[i].right);
    }
}

/// Every reported cycle is one: each box depends on the next, and the last on the
/// first.
pub proof fn law_reported_cycles_are_cycles(
    s: StoreV,
    repo: Option<Seq<char>>,
    depth: usize,
    live: Seq<ActivityV>,
    now: i64,
    i: int,
)
    requires
        0 <= i < s.architecture(repo, depth, live, now).cycles.len(),
    ensures
        is_cycle(
            import_links(s.architecture(repo, depth, live, now).edges),
            s.architecture(repo, depth, live, now).cycles[i],
        ),
{
    let g = s.architecture(repo, depth, live, now);
    lemma_closed(s, repo, depth, live, now);
    law_found_loops_are_loops(
        g.nodes.map_values(|n: ArchNodeV| n.id),
        import_links(g.edges),
        i,
    );
}

/// A dependency cycle is reported rather than hidden.
pub proof fn law_cycles_are_not_hidden(
    s: StoreV,
    repo: Option<Seq<char>>,
    depth: usize,
    live: Seq<ActivityV>,
    now: i64,
    p: Seq<Seq<char>>,
)
    requires
        is_cycle(import_links(s.architecture(repo, depth, live, now).edges), p),
    ensures
        s.architecture(repo, depth, live, now).cycles.len() > 0,
{
    let g = s.architecture(repo, depth, live, now);
    lemma_closed(s, repo, depth, live, now);
    law_a_loop_is_found(g.nodes.map_values(|n: ArchNodeV| n.id), import_links(g.edges), p);
}

proof fn lemma_distinct_has(s: Seq<Seq<char>>, x: Seq<char>)
    ensures
        distinct(s).contains(x) <==> s.contains(x),
        distinct(s).no_duplicates(),
    decreases s.len(),
{
    if s.len() > 0 {
        let t = s.drop_last();
        lemma_distinct_has(t, x);
        let d = distinct(t);
        let r = distinct(s);
        assert(s[s.len() - 1] == s.last());
        if s.contains(x) {
            let i = choose|i: int| 0 <= i < s.len() && s[i] == x;
            if i < t.len() {
                assert(t[i] == x);
                let k = choose|k: int| 0 <= k < d.len() && d[k] == x;
                assert(r[k] == x);
            } else if d.contains(s.last()) {
            } else {
                assert(r[r.len() - 1] == x);
            }
        }
        if r.contains(x) {
            let k = choose|k: int| 0 <= k < r.len() && r[k] == x;
            if k < d.len() {
                assert(d[k] == x);
                let i = choose|i: int| 0 <= i < t.len() && t[i] == x;
                assert(s[i] == x);
            }
        }
        assert forall|i: int, j: int| 0 <= i < r.len() && 0 <= j < r.len() && i != j implies r[i]
            != r[j] by {
            if i >= d.len() {
                assert(d.contains(d[j]));
            } else if j >= d.len() {
                assert(d.contains(d[i]));
            }
        }
    }
}

/// Whoever holds a lease on something in a file is shown on every box that holds the
/// file, once.
pub proof fn law_holders_show_on_their_boxes(
    s: StoreV,
    l: LayoutV,
    symbols: Seq<SymbolV>,
    live: Seq<ActivityV>,
    now: i64,
    n: ArchNodeV,
    x: LeaseV,
)
    requires
        s.held_now().contains(x),
        s.lease_place(l, x).contains(n.id),
    ensures
        s.filled(l, symbols, live, now, n).workers.contains(x.agent),
        s.filled(l, symbols, live, now, n).workers.no_duplicates(),
        s.filled(l, symbols, live, now, n).leases >= 1,
{
    let p = |y: LeaseV| s.lease_place(l, y).contains(n.id);
    law_filter_has(s.held_now(), p, x);
    let held = s.held_now().filter(p);
    let acts = live.filter(|a: ActivityV| l.place(a.repo_id, a.path).contains(n.id));
    let k = choose|k: int| 0 <= k < held.len() && held[k] == x;
    let who = held.map_values(|y: LeaseV| y.agent) + acts.map_values(|a: ActivityV| a.agent);
    assert(who[k] == x.agent);
    lemma_distinct_has(who, x.agent);
}

// ------------------------------------------------------------------------ nesting

/// Is the id that of an outermost box: a service, or the loose files of a
/// repository?
spec fn outer_id(services: Seq<SymbolV>, id: Seq<char>) -> bool {
    "repo:"@.is_prefix_of(id) || exists|k: int|
        0 <= k < services.len() && (#[trigger] services[k]).id == id
}

/// Does a box fit: is what it names as its parent an outermost box that is there,
/// and has it none if it is outermost itself?
spec fn nests(nodes: Seq<ArchNodeV>, services: Seq<SymbolV>, n: ArchNodeV) -> bool {
    &&& n.parent matches Some(p) ==> outer_id(services, p) && is_box(nodes, p)
    &&& outer_id(services, n.id) ==> n.parent is None
}

spec fn all_nest(nodes: Seq<ArchNodeV>, services: Seq<SymbolV>) -> bool {
    forall|i: int| 0 <= i < nodes.len() ==> nests(nodes, services, #[trigger] nodes[i])
}

proof fn lemma_nest_add(nodes: Seq<ArchNodeV>, services: Seq<SymbolV>, n: ArchNodeV)
    requires
        all_nest(nodes, services),
        nests(nodes, services, n),
    ensures
        all_nest(add_node(nodes, n), services),
        all_nest(put_node(nodes, n), services),
{
    let a = add_node(nodes, n);
    let b = put_node(nodes, n);
    assert forall|i: int| 0 <= i < a.len() implies nests(a, services, #[trigger] a[i]) by {
        if let Some(p) = a[i].parent {
            lemma_add_node(nodes, n, p);
            if i < nodes.len() {
                assert(nests(nodes, services, nodes[i]));
            }
        } else if i < nodes.len() {
            assert(nests(nodes, services, nodes[i]));
        }
    }
    assert forall|i: int| 0 <= i < b.len() implies nests(b, services, #[trigger] b[i]) by {
        if let Some(p) = b[i].parent {
            lemma_put_node(nodes, n, p);
        }
        if i < nodes.len() {
            assert(nests(nodes, services, nodes[i]));
        }
    }
}

proof fn lemma_nest_put_all(nodes: Seq<ArchNodeV>, services: Seq<SymbolV>, more: Seq<ArchNodeV>)
    requires
        all_nest(nodes, services),
        forall|i: int| 0 <= i < more.len() ==> (#[trigger] more[i]).parent is None,
    ensures
        all_nest(put_nodes(nodes, more), services),
    decreases more.len(),
{
    if more.len() > 0 {
        let init = more.drop_last();
        assert forall|i: int| 0 <= i < init.len() implies (#[trigger] init[i]).parent is None by {
            assert(init[i] == more[i]);
        }
        lemma_nest_put_all(nodes, services, init);
        assert(more[more.len() - 1].parent is None);
        lemma_nest_add(put_nodes(nodes, init), services, more.last());
    }
}

proof fn lemma_nest_file(l: LayoutV, services: Seq<SymbolV>, f: SymbolV, depth: usize)
    requires
        housed(l, services),
        all_nest(l.nodes, services),
        "s_"@.is_prefix_of(f.id),
        !outer_id(services, f.id),
        forall|k: int| 0 <= k < services.len() ==> "s_"@.is_prefix_of((#[trigger] services[k]).id),
    ensures
        all_nest(l.with_file(services, f, depth).nodes, services),
{
    lemma_home(services, f);
    let service = match home_of(services, f) {
        Some(s) => s.id,
        None => loose_id(f.repo_id),
    };
    let loose = blank(service, ArchKind::Repo, f.repo_id, None, f.repo_id, None);
    if home_of(services, f) is None {
        lemma_nest_add(l.nodes, services, loose);
        lemma_add_node(l.nodes, loose, service);
        assert("repo:"@ =~= loose_id(f.repo_id).subrange(0, "repo:"@.len() as int));
    } else {
        let s = home_of(services, f)->Some_0;
        let k = choose|k: int| 0 <= k < services.len() && services[k] == s;
        assert(is_box(l.nodes, services[k].id));
        assert(outer_id(services, services[k].id));
    }
    let nodes = match home_of(services, f) {
        Some(_) => l.nodes,
        None => add_node(l.nodes, loose),
    };
    assert(is_box(nodes, service) && outer_id(services, service));
    let (base, name) = match node_in(nodes, service) {
        Some(n) => (
            match n.path {
                Some(p) => parent_of(p),
                None => Seq::empty(),
            },
            n.name,
        ),
        None => (Seq::empty(), Seq::empty()),
    };
    let dir = top_dir(f.path, base);
    let dir_box = blank(
        crate::arch::dir_id(f.repo_id, dir),
        ArchKind::Dir,
        name + "/"@ + crate::text::after_last(dir, '/'),
        Some(dir),
        f.repo_id,
        Some(service),
    );
    let file_box = blank(
        f.id,
        ArchKind::File,
        crate::text::after_last(f.path, '/'),
        Some(f.path),
        f.repo_id,
        Some(service),
    );
    assert(!outer_id(services, dir_box.id)) by {
        reveal_strlit("dir:");
        reveal_strlit("repo:");
        reveal_strlit("s_");
        assert(dir_box.id[0] == 'd');
        if "repo:"@.is_prefix_of(dir_box.id) {
            assert(dir_box.id[0] == "repo:"@[0]);
        }
        if exists|k: int| 0 <= k < services.len() && (#[trigger] services[k]).id == dir_box.id {
            let k = choose|k: int| 0 <= k < services.len() && (#[trigger] services[k]).id == dir_box.id;
            assert("s_"@.is_prefix_of(services[k].id));
            assert(services[k].id[0] == "s_"@[0]);
        }
    }
    lemma_nest_add(nodes, services, dir_box);
    lemma_nest_add(nodes, services, file_box);
}

proof fn lemma_nest_files(l: LayoutV, services: Seq<SymbolV>, files: Seq<SymbolV>, depth: usize)
    requires
        housed(l, services),
        all_nest(l.nodes, services),
        forall|k: int|
            0 <= k < files.len() ==> "s_"@.is_prefix_of((#[trigger] files[k]).id) && !outer_id(
                services,
                files[k].id,
            ),
        forall|k: int| 0 <= k < services.len() ==> "s_"@.is_prefix_of((#[trigger] services[k]).id),
    ensures
        all_nest(l.with_files(services, files, depth).nodes, services),
    decreases files.len(),
{
    if files.len() > 0 {
        let init = files.drop_last();
        assert forall|k: int| 0 <= k < init.len() implies "s_"@.is_prefix_of((#[trigger] init[k]).id)
            && !outer_id(services, init[k].id) by {
            assert(init[k] == files[k]);
        }
        lemma_nest_files(l, services, init, depth);
        lemma_with_files(l, services, init, depth);
        assert(files.last() == files[files.len() - 1]);
        lemma_nest_file(l.with_files(services, init, depth), services, files.last(), depth);
    }
}

/// Boxes nest at most once: whatever a box names as its parent is there and has no
/// parent itself. So the box of a file and the one around it are all that hold the
/// file.
pub proof fn law_boxes_nest_once(symbols: Seq<SymbolV>, depth: usize, i: int)
    requires
        forall|a: int, b: int|
            0 <= a < symbols.len() && 0 <= b < symbols.len() && a != b ==> (#[trigger] symbols[a]).id
                != (#[trigger] symbols[b]).id,
        forall|a: int| 0 <= a < symbols.len() ==> "s_"@.is_prefix_of((#[trigger] symbols[a]).id),
        0 <= i < laid_out(symbols, depth).nodes.len(),
    ensures
        ({
            let nodes = laid_out(symbols, depth).nodes;
            nodes[i].parent matches Some(p) ==> (node_in(nodes, p) matches Some(q) && q.parent is None)
        }),
{
    let is_service = |s: SymbolV| s.kind is Service;
    let is_file = |s: SymbolV| s.kind is File;
    let services = symbols.filter(is_service);
    let files = symbols.filter(is_file);
    let tables = symbols.filter(|s: SymbolV| s.kind is Table);
    let boxes = services.map_values(|s: SymbolV| service_box(s));
    let start = LayoutV { nodes: put_nodes(Seq::empty(), boxes), owner: Seq::empty() };
    lemma_put_nodes(Seq::empty(), boxes, Seq::empty());
    assert forall|k: int| 0 <= k < services.len() implies is_box(
        start.nodes,
        (#[trigger] services[k]).id,
    ) && "s_"@.is_prefix_of(services[k].id) by {
        assert(boxes[k].id == services[k].id);
        lemma_kept(symbols, is_service, k);
        let a = choose|a: int| 0 <= a < symbols.len() && symbols[a] == services[k];
        assert("s_"@.is_prefix_of(symbols[a].id));
    }
    assert forall|k: int| 0 <= k < files.len() implies "s_"@.is_prefix_of((#[trigger] files[k]).id)
        && !outer_id(services, files[k].id) by {
        lemma_kept(symbols, is_file, k);
        let a = choose|a: int| 0 <= a < symbols.len() && symbols[a] == files[k];
        assert("s_"@.is_prefix_of(symbols[a].id));
        if "repo:"@.is_prefix_of(files[k].id) {
            reveal_strlit("repo:");
            reveal_strlit("s_");
            assert(files[k].id[0] == "repo:"@[0]);
            assert(files[k].id[0] == "s_"@[0]);
        }
        if exists|j: int| 0 <= j < services.len() && (#[trigger] services[j]).id == files[k].id {
            let j = choose|j: int| 0 <= j < services.len() && (#[trigger] services[j]).id == files[k].id;
            lemma_kept(symbols, is_service, j);
            let b = choose|b: int| 0 <= b < symbols.len() && symbols[b] == services[j];
            assert(symbols[a].id == symbols[b].id);
        }
    }
    lemma_nest_put_all(Seq::empty(), services, boxes);
    lemma_nest_files(start, services, files, depth);
    let l = start.with_files(services, files, depth);
    let more = tables.map_values(|s: SymbolV| table_box(s));
    lemma_nest_put_all(l.nodes, services, more);
    let nodes = laid_out(symbols, depth).nodes;
    assert(nests(nodes, services, nodes[i]));
    if let Some(p) = nodes[i].parent {
        law_first_where(nodes, |n: ArchNodeV| n.id == p);
        let q = node_in(nodes, p)->Some_0;
        let j = choose|j: int| 0 <= j < nodes.len() && nodes[j] == q;
        assert(nests(nodes, services, nodes[j]));
    }
}

} // verus!
