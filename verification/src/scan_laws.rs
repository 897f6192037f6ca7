//! What a scan promises.
//!
//! That it stays within its repository, that it skips what did not change, and
//! that a lease on what disappears is ended rather than left dangling.

use vstd::prelude::*;
use vstd::string::*;

use crate::edges::{law_edges_start_in_their_file, IndexedV};
use crate::ids::{short_hash, symbol_id_of};
use crate::index::{
    file_id_of, file_row, lemma_retire_keeps, refreshed, refreshed_service, service_row,
    sql_file_row, sym_ids, symbol_row, table_id_of, table_row, with_edges, RoleOfV, ServiceV,
};
use crate::json::{member, JsonV};
use crate::lease::active_lease;
use crate::model::{EdgeKind, EdgeV, Role, SymbolKind, SymbolV};
use crate::parse::ParsedFileV;
use crate::scan::{home, paths_of, plus, roles_of, ScanInputV, ScanStats, SourceFileV};
use crate::sql::TableDefV;
use crate::store::{first_where, law_first_where, LeaseRowV, StoreV};

verus! {

broadcast use vstd::string::group_string_axioms;

// ------------------------------------------------------------------- the lists

/// Keeping twice is keeping once, where the second asks for no less than the first.
pub(crate) proof fn lemma_keep_twice<T>(s: Seq<T>, p: spec_fn(T) -> bool, q: spec_fn(T) -> bool)
    requires
        forall|i: int| 0 <= i < s.len() && p(#[trigger] s[i]) ==> q(s[i]),
    ensures
        s.filter(q).filter(p) == s.filter(p),
    decreases s.len(),
{
    reveal(Seq::filter);
    if s.len() > 0 {
        let t = s.drop_last();
        lemma_keep_twice(t, p, q);
        assert(s.last() == s[s.len() - 1]);
        if q(s.last()) {
            assert(t.filter(q).push(s.last()).drop_last() =~= t.filter(q));
        }
    }
}

/// Changing only what is not kept changes nothing of what is kept.
pub(crate) proof fn lemma_keep_changed<T>(s: Seq<T>, p: spec_fn(T) -> bool, f: spec_fn(T) -> T)
    requires
        forall|i: int| 0 <= i < s.len() ==> p(f(#[trigger] s[i])) == p(s[i]),
        forall|i: int| 0 <= i < s.len() && p(#[trigger] s[i]) ==> f(s[i]) == s[i],
    ensures
        s.map_values(f).filter(p) == s.filter(p),
    decreases s.len(),
{
    reveal(Seq::filter);
    if s.len() > 0 {
        let t = s.drop_last();
        lemma_keep_changed(t, p, f);
        assert(s.last() == s[s.len() - 1]);
        assert(s.map_values(f).drop_last() =~= t.map_values(f));
    }
}

/// What is kept comes from the list and passes the test.
pub(crate) proof fn lemma_kept<T>(s: Seq<T>, p: spec_fn(T) -> bool, i: int)
    requires
        0 <= i < s.filter(p).len(),
    ensures
        p(s.filter(p)[i]),
        s.contains(s.filter(p)[i]),
{
    s.lemma_filter_pred(p, i);
    assert(s.filter(p).contains(s.filter(p)[i]));
    s.lemma_filter_contains_rev(p, s.filter(p)[i]);
}

// ----------------------------------------------------------- within a repository

/// Is the id one that a symbol of this repository gets?
pub open spec fn is_ours(repo: Seq<char>, id: Seq<char>) -> bool {
    exists|path: Seq<char>, kind: SymbolKind, fqn: Seq<char>, d: u32|
        id == #[trigger] symbol_id_of(repo, path, kind, fqn, d)
}

/// The symbols of the other repositories.
pub open spec fn others(s: StoreV, repo: Seq<char>) -> Seq<SymbolV> {
    s.symbols.filter(|x: SymbolV| x.repo_id != repo)
}

/// The edges out of anything but a symbol of this repository.
pub open spec fn out_of_others(s: StoreV, repo: Seq<char>) -> Seq<EdgeV> {
    s.edges.filter(starts_elsewhere(repo))
}

/// Does an edge start outside the repository?
pub open spec fn starts_elsewhere(repo: Seq<char>) -> spec_fn(EdgeV) -> bool {
    |e: EdgeV| !is_ours(repo, e.src)
}

/// Do the ids tell this repository's symbols from the others, and leases from each
/// other? The symbols of the repository have ids of its own; those of the others
/// have none, nor a parent with one, and no edge leads from them into it.
pub open spec fn ids_apart(s: StoreV, repo: Seq<char>) -> bool {
    &&& forall|i: int|
        0 <= i < s.symbols.len() && (#[trigger] s.symbols[i]).repo_id == repo ==> is_ours(
            repo,
            s.symbols[i].id,
        )
    &&& forall|i: int|
        0 <= i < s.symbols.len() && (#[trigger] s.symbols[i]).repo_id != repo ==> !is_ours(
            repo,
            s.symbols[i].id,
        ) && (s.symbols[i].parent_id matches Some(p) ==> !is_ours(repo, p))
    &&& forall|i: int|
        0 <= i < s.edges.len() && !is_ours(repo, (#[trigger] s.edges[i]).src) ==> !is_ours(
            repo,
            s.edges[i].dst,
        )
    &&& s.ids_differ()
}

/// Are the other repositories as they were? Their symbols are the same, and so are
/// the edges out of them and the leases on anything but a symbol of this repository.
pub open spec fn untouched(a: StoreV, b: StoreV, repo: Seq<char>) -> bool {
    &&& others(b, repo) == others(a, repo)
    &&& out_of_others(b, repo) == out_of_others(a, repo)
    &&& b.leases.len() == a.leases.len()
    &&& forall|i: int|
        0 <= i < a.leases.len() ==> (#[trigger] b.leases[i]).id == a.leases[i].id
            && b.leases[i].symbol_id == a.leases[i].symbol_id && (!is_ours(
            repo,
            a.leases[i].symbol_id,
        ) ==> b.leases[i] == a.leases[i])
}

proof fn lemma_apart(a: StoreV, b: StoreV, repo: Seq<char>)
    requires
        ids_apart(a, repo),
        untouched(a, b, repo),
        forall|i: int|
            0 <= i < b.symbols.len() && (#[trigger] b.symbols[i]).repo_id == repo ==> is_ours(
                repo,
                b.symbols[i].id,
            ),
    ensures
        ids_apart(b, repo),
{
    let p = |x: SymbolV| x.repo_id != repo;
    assert forall|i: int|
        0 <= i < b.symbols.len() && (#[trigger] b.symbols[i]).repo_id != repo implies !is_ours(
        repo,
        b.symbols[i].id,
    ) && (b.symbols[i].parent_id matches Some(q) ==> !is_ours(repo, q)) by {
        let x = b.symbols[i];
        crate::rows::law_filter_has(b.symbols, p, x);
        let k = choose|k: int| 0 <= k < others(a, repo).len() && others(a, repo)[k] == x;
        lemma_kept(a.symbols, p, k);
        let j = choose|j: int| 0 <= j < a.symbols.len() && a.symbols[j] == x;
        assert(a.symbols[j].repo_id != repo);
    }
    let q = starts_elsewhere(repo);
    assert forall|i: int|
        0 <= i < b.edges.len() && !is_ours(repo, (#[trigger] b.edges[i]).src) implies !is_ours(
        repo,
        b.edges[i].dst,
    ) by {
        let e = b.edges[i];
        crate::rows::law_filter_has(b.edges, q, e);
        let k = choose|k: int|
            0 <= k < out_of_others(a, repo).len() && out_of_others(a, repo)[k] == e;
        lemma_kept(a.edges, q, k);
        let j = choose|j: int| 0 <= j < a.edges.len() && a.edges[j] == e;
        assert(!is_ours(repo, a.edges[j].src));
    }
    assert forall|i: int, j: int|
        0 <= i < b.leases.len() && 0 <= j < b.leases.len() && i != j implies (#[trigger] b.leases[i]).id
        != (#[trigger] b.leases[j]).id by {
        assert(a.leases[i].id != a.leases[j].id);
    }
}

/// More edges out of this repository change nothing of the others'.
proof fn lemma_more_edges(edges: Seq<EdgeV>, more: Seq<EdgeV>, repo: Seq<char>)
    requires
        forall|i: int| 0 <= i < more.len() ==> is_ours(repo, (#[trigger] more[i]).src),
    ensures
        with_edges(edges, more).filter(starts_elsewhere(repo)) == edges.filter(
            starts_elsewhere(repo),
        ),
    decreases more.len(),
{
    if more.len() > 0 {
        let init = more.drop_last();
        assert forall|i: int| 0 <= i < init.len() implies is_ours(repo, (#[trigger] init[i]).src) by {
            assert(init[i] == more[i]);
        }
        lemma_more_edges(edges, init, repo);
        assert(more.last() == more[more.len() - 1]);
        with_edges(edges, init).lemma_filter_push(more.last(), starts_elsewhere(repo));
    }
}

proof fn lemma_same_symbols(a: StoreV, b: StoreV, repo: Seq<char>)
    requires
        ids_apart(a, repo),
        b.symbols == a.symbols,
        b.leases == a.leases,
        out_of_others(b, repo) == out_of_others(a, repo),
    ensures
        untouched(a, b, repo),
        ids_apart(b, repo),
{
    lemma_apart(a, b, repo);
}

proof fn lemma_upsert_apart(s: StoreV, row: SymbolV, service: bool, repo: Seq<char>)
    requires
        ids_apart(s, repo),
        row.repo_id == repo,
        is_ours(repo, row.id),
    ensures
        untouched(s, s.upsert(row, service), repo),
        ids_apart(s.upsert(row, service), repo),
{
    let r = s.upsert(row, service);
    let p = |x: SymbolV| x.repo_id != repo;
    if s.symbol(row.id) is Some {
        let f = |x: SymbolV|
            if x.id != row.id {
                x
            } else if service {
                refreshed_service(x, row)
            } else {
                refreshed(x, row)
            };
        lemma_keep_changed(s.symbols, p, f);
        assert forall|i: int|
            0 <= i < r.symbols.len() && (#[trigger] r.symbols[i]).repo_id == repo implies is_ours(
            repo,
            r.symbols[i].id,
        ) by {
            assert(r.symbols[i] == f(s.symbols[i]));
            assert(s.symbols[i].repo_id == repo);
        }
    } else {
        s.symbols.lemma_filter_push(row, p);
        assert forall|i: int|
            0 <= i < r.symbols.len() && (#[trigger] r.symbols[i]).repo_id == repo implies is_ours(
            repo,
            r.symbols[i].id,
        ) by {
            if i < s.symbols.len() {
                assert(r.symbols[i] == s.symbols[i]);
            }
        }
    }
    lemma_apart(s, r, repo);
}

proof fn lemma_upserts_apart(s: StoreV, rows: Seq<SymbolV>, service: bool, repo: Seq<char>)
    requires
        ids_apart(s, repo),
        forall|i: int|
            0 <= i < rows.len() ==> (#[trigger] rows[i]).repo_id == repo && is_ours(repo, rows[i].id),
    ensures
        untouched(s, s.upsert_all(rows, service), repo),
        ids_apart(s.upsert_all(rows, service), repo),
    decreases rows.len(),
{
    if rows.len() > 0 {
        let init = rows.drop_last();
        assert forall|i: int| 0 <= i < init.len() implies (#[trigger] init[i]).repo_id == repo
            && is_ours(repo, init[i].id) by {
            assert(init[i] == rows[i]);
        }
        lemma_upserts_apart(s, init, service, repo);
        assert(rows.last() == rows[rows.len() - 1]);
        lemma_upsert_apart(s.upsert_all(init, service), rows.last(), service, repo);
    }
}

/// Retiring leases leaves alone what is not listed.
proof fn lemma_retire_only(
    s: StoreV,
    rows: Seq<LeaseRowV>,
    handle: Seq<char>,
    reason: Seq<char>,
    now: i64,
    i: int,
)
    requires
        0 <= i < s.leases.len(),
        forall|k: int| 0 <= k < rows.len() ==> (#[trigger] rows[k]).id != s.leases[i].id,
    ensures
        s.retire_each(rows, handle, reason, now).leases[i] == s.leases[i],
    decreases rows.len(),
{
    if rows.len() > 0 {
        let init = rows.drop_last();
        assert forall|k: int| 0 <= k < init.len() implies (#[trigger] init[k]).id != s.leases[i].id by {
            assert(init[k] == rows[k]);
        }
        lemma_retire_only(s, init, handle, reason, now, i);
        lemma_retire_keeps(s, init, handle, reason, now);
        assert(rows[rows.len() - 1].id != s.leases[i].id);
    }
}

/// Retiring the leases on a symbol leaves alone those on another.
proof fn lemma_retire_other(
    s: StoreV,
    symbol: Seq<char>,
    handle: Seq<char>,
    reason: Seq<char>,
    now: i64,
    i: int,
)
    requires
        s.ids_differ(),
        0 <= i < s.leases.len(),
        s.leases[i].symbol_id != symbol,
    ensures
        s.retire_leases_on(symbol, handle, reason, now).leases[i] == s.leases[i],
{
    let p = |l: LeaseRowV| active_lease(l, symbol);
    let rows = s.active_on(symbol);
    assert forall|k: int| 0 <= k < rows.len() implies (#[trigger] rows[k]).id != s.leases[i].id by {
        lemma_kept(s.leases, p, k);
        let j = choose|j: int| 0 <= j < s.leases.len() && s.leases[j] == rows[k];
        if rows[k].id == s.leases[i].id {
            assert(i == j);
        }
    }
    lemma_retire_only(s, rows, handle, reason, now, i);
}

proof fn lemma_retire_apart(
    s: StoreV,
    symbol: Seq<char>,
    handle: Seq<char>,
    reason: Seq<char>,
    now: i64,
    repo: Seq<char>,
)
    requires
        ids_apart(s, repo),
        is_ours(repo, symbol),
    ensures
        untouched(s, s.retire_leases_on(symbol, handle, reason, now), repo),
        ids_apart(s.retire_leases_on(symbol, handle, reason, now), repo),
        s.retire_leases_on(symbol, handle, reason, now).symbols == s.symbols,
{
    let r = s.retire_leases_on(symbol, handle, reason, now);
    lemma_retire_keeps(s, s.active_on(symbol), handle, reason, now);
    assert forall|i: int| 0 <= i < s.leases.len() implies (#[trigger] r.leases[i]).id
        == s.leases[i].id && r.leases[i].symbol_id == s.leases[i].symbol_id && (!is_ours(
        repo,
        s.leases[i].symbol_id,
    ) ==> r.leases[i] == s.leases[i]) by {
        if !is_ours(repo, s.leases[i].symbol_id) {
            lemma_retire_other(s, symbol, handle, reason, now, i);
        }
    }
    lemma_apart(s, r, repo);
}

proof fn lemma_without_apart(s: StoreV, id: Seq<char>, repo: Seq<char>)
    requires
        ids_apart(s, repo),
        is_ours(repo, id),
    ensures
        untouched(s, s.without_symbol(id), repo),
        ids_apart(s.without_symbol(id), repo),
{
    let r = s.without_symbol(id);
    let p = |x: SymbolV| x.repo_id != repo;
    let q = |x: SymbolV| x.id != id;
    lemma_keep_twice(s.symbols, p, q);
    let apart = |e: EdgeV| e.src != id && e.dst != id;
    assert forall|i: int|
        0 <= i < s.edges.len() && starts_elsewhere(repo)(#[trigger] s.edges[i]) implies apart(
        s.edges[i],
    ) by {
        assert(!is_ours(repo, s.edges[i].dst));
    }
    lemma_keep_twice(s.edges, starts_elsewhere(repo), apart);
    assert forall|i: int|
        0 <= i < r.symbols.len() && (#[trigger] r.symbols[i]).repo_id == repo implies is_ours(
        repo,
        r.symbols[i].id,
    ) by {
        lemma_kept(s.symbols, q, i);
        let j = choose|j: int| 0 <= j < s.symbols.len() && s.symbols[j] == r.symbols[i];
        assert(s.symbols[j].repo_id == repo);
    }
    lemma_apart(s, r, repo);
}

proof fn lemma_drop_apart(s: StoreV, rows: Seq<SymbolV>, now: i64, repo: Seq<char>)
    requires
        ids_apart(s, repo),
        forall|i: int| 0 <= i < rows.len() ==> is_ours(repo, (#[trigger] rows[i]).id),
    ensures
        untouched(s, s.drop_symbols(rows, now).0, repo),
        ids_apart(s.drop_symbols(rows, now).0, repo),
    decreases rows.len(),
{
    if rows.len() > 0 {
        let init = rows.drop_last();
        assert forall|i: int| 0 <= i < init.len() implies is_ours(repo, (#[trigger] init[i]).id) by {
            assert(init[i] == rows[i]);
        }
        lemma_drop_apart(s, init, now, repo);
        let m = s.drop_symbols(init, now).0;
        let x = rows.last();
        assert(x == rows[rows.len() - 1]);
        let handle = x.path + ":"@ + x.fqn;
        lemma_retire_apart(m, x.id, handle, "symbol removed"@, now, repo);
        lemma_without_apart(
            m.retire_leases_on(x.id, handle, "symbol removed"@, now),
            x.id,
            repo,
        );
    }
}

proof fn lemma_missing_apart(s: StoreV, repo: Seq<char>, path: Seq<char>, keep: Seq<Seq<char>>, now: i64)
    requires
        ids_apart(s, repo),
    ensures
        untouched(s, s.retire_missing(repo, path, keep, now).0, repo),
        ids_apart(s.retire_missing(repo, path, keep, now).0, repo),
{
    let p = |x: SymbolV|
        x.repo_id == repo && x.path == path && !(x.kind is Service) && !keep.contains(x.id);
    let rows = s.missing(repo, path, keep);
    assert forall|i: int| 0 <= i < rows.len() implies is_ours(repo, (#[trigger] rows[i]).id) by {
        lemma_kept(s.symbols, p, i);
        let j = choose|j: int| 0 <= j < s.symbols.len() && s.symbols[j] == rows[i];
        assert(s.symbols[j].repo_id == repo);
    }
    lemma_drop_apart(s, rows, now, repo);
}

proof fn lemma_write_file_apart(
    s: StoreV,
    repo: Seq<char>,
    path: Seq<char>,
    pf: ParsedFileV,
    hash: Seq<char>,
    size: usize,
    roles: Seq<RoleOfV>,
    role: Option<Role>,
    service: Option<Seq<char>>,
    now: i64,
)
    requires
        ids_apart(s, repo),
    ensures
        untouched(s, s.write_file(repo, path, pf, hash, size, roles, role, service, now).0, repo),
        ids_apart(s.write_file(repo, path, pf, hash, size, roles, role, service, now).0, repo),
{
    let keep = seq![file_id_of(repo, path)] + sym_ids(repo, path, pf);
    lemma_missing_apart(s, repo, path, keep, now);
    let m = s.retire_missing(repo, path, keep, now).0;
    let row = file_row(repo, path, pf, hash, size, role, service);
    assert(is_ours(repo, row.id));
    lemma_upsert_apart(m, row, false, repo);
    let rows = Seq::new(pf.symbols.len(), |i: int| symbol_row(repo, path, pf, roles, i));
    assert forall|i: int| 0 <= i < rows.len() implies (#[trigger] rows[i]).repo_id == repo && is_ours(
        repo,
        rows[i].id,
    ) by {
        let x = pf.symbols[i];
        assert(rows[i].id == symbol_id_of(repo, path, x.kind, x.fqn, x.disambiguator));
    }
    lemma_upserts_apart(m.upsert(row, false), rows, false, repo);
}

proof fn lemma_write_sql_apart(
    s: StoreV,
    repo: Seq<char>,
    path: Seq<char>,
    source: Seq<u8>,
    hash: Seq<char>,
    defs: Seq<TableDefV>,
    service: Option<Seq<char>>,
    now: i64,
)
    requires
        ids_apart(s, repo),
    ensures
        untouched(s, s.write_sql(repo, path, source, hash, defs, service, now).0, repo),
        ids_apart(s.write_sql(repo, path, source, hash, defs, service, now).0, repo),
{
    let keep = seq![file_id_of(repo, path)] + defs.map_values(
        |d: TableDefV| table_id_of(repo, path, d),
    );
    lemma_missing_apart(s, repo, path, keep, now);
    let m = s.retire_missing(repo, path, keep, now).0;
    let row = sql_file_row(repo, path, source, hash, defs.len(), service);
    assert(is_ours(repo, row.id));
    lemma_upsert_apart(m, row, false, repo);
    let rows = defs.map_values(|d: TableDefV| table_row(repo, path, source, d));
    assert forall|i: int| 0 <= i < rows.len() implies (#[trigger] rows[i]).repo_id == repo && is_ours(
        repo,
        rows[i].id,
    ) by {
        assert(rows[i].id == symbol_id_of(repo, path, SymbolKind::Table, defs[i].name, 0));
    }
    lemma_upserts_apart(m.upsert(row, false), rows, false, repo);
    let file = file_id_of(repo, path);
    let more = defs.map_values(
        |d: TableDefV|
            EdgeV { src: file, dst: table_id_of(repo, path, d), kind: EdgeKind::Contains },
    );
    assert(is_ours(repo, file));
    lemma_more_edges(m.upsert(row, false).upsert_all(rows, false).edges, more, repo);
    lemma_same_symbols(
        m.upsert(row, false).upsert_all(rows, false),
        s.write_sql(repo, path, source, hash, defs, service, now).0,
        repo,
    );
}

proof fn lemma_services_apart(s: StoreV, repo: Seq<char>, services: Seq<ServiceV>)
    requires
        ids_apart(s, repo),
    ensures
        untouched(s, s.write_services(repo, services), repo),
        ids_apart(s.write_services(repo, services), repo),
{
    let rows = services.map_values(|x: ServiceV| service_row(repo, x, services));
    assert forall|i: int| 0 <= i < rows.len() implies (#[trigger] rows[i]).repo_id == repo && is_ours(
        repo,
        rows[i].id,
    ) by {
        let x = services[i];
        assert(rows[i].id == symbol_id_of(repo, x.manifest, SymbolKind::Service, x.name, 0));
    }
    lemma_upserts_apart(s, rows, true, repo);
}

proof fn lemma_drop_services_apart(s: StoreV, rows: Seq<SymbolV>, now: i64, repo: Seq<char>)
    requires
        ids_apart(s, repo),
        forall|i: int| 0 <= i < rows.len() ==> is_ours(repo, (#[trigger] rows[i]).id),
    ensures
        untouched(s, s.drop_services(rows, now), repo),
        ids_apart(s.drop_services(rows, now), repo),
    decreases rows.len(),
{
    if rows.len() > 0 {
        let init = rows.drop_last();
        assert forall|i: int| 0 <= i < init.len() implies is_ours(repo, (#[trigger] init[i]).id) by {
            assert(init[i] == rows[i]);
        }
        lemma_drop_services_apart(s, init, now, repo);
        let x = rows.last();
        assert(x == rows[rows.len() - 1]);
        let m = s.drop_services(init, now);
        lemma_retire_apart(m, x.id, x.path, "service removed"@, now, repo);
        let n = m.retire_leases_on(x.id, x.path, "service removed"@, now);
        let f = |y: SymbolV|
            if y.parent_id == Some(x.id) {
                SymbolV { parent_id: None, ..y }
            } else {
                y
            };
        let o = StoreV { symbols: n.symbols.map_values(f), ..n };
        let p = |y: SymbolV| y.repo_id != repo;
        lemma_keep_changed(n.symbols, p, f);
        assert forall|i: int|
            0 <= i < o.symbols.len() && (#[trigger] o.symbols[i]).repo_id == repo implies is_ours(
            repo,
            o.symbols[i].id,
        ) by {
            assert(o.symbols[i] == f(n.symbols[i]));
            assert(n.symbols[i].repo_id == repo);
        }
        lemma_apart(n, o, repo);
        lemma_without_apart(o, x.id, repo);
    }
}

proof fn lemma_prune_apart(s: StoreV, repo: Seq<char>, live: Seq<Seq<char>>, now: i64)
    requires
        ids_apart(s, repo),
    ensures
        untouched(s, s.prune_services(repo, live, now), repo),
        ids_apart(s.prune_services(repo, live, now), repo),
{
    let p = |x: SymbolV| x.kind is Service && x.repo_id == repo && !live.contains(x.path);
    let rows = s.dead_services(repo, live);
    assert forall|i: int| 0 <= i < rows.len() implies is_ours(repo, (#[trigger] rows[i]).id) by {
        lemma_kept(s.symbols, p, i);
        let j = choose|j: int| 0 <= j < s.symbols.len() && s.symbols[j] == rows[i];
        assert(s.symbols[j].repo_id == repo);
    }
    lemma_drop_services_apart(s, rows, now, repo);
}

proof fn lemma_sql_pass_apart(
    s: StoreV,
    st: ScanStats,
    repo: Seq<char>,
    services: Seq<ServiceV>,
    files: Seq<SourceFileV>,
    force: bool,
    now: i64,
)
    requires
        ids_apart(s, repo),
    ensures
        untouched(s, s.sql_pass(st, repo, services, files, force, now).0, repo),
        ids_apart(s.sql_pass(st, repo, services, files, force, now).0, repo),
    decreases files.len(),
{
    if files.len() > 0 {
        lemma_sql_pass_apart(s, st, repo, services, files.drop_last(), force, now);
        let m = s.sql_pass(st, repo, services, files.drop_last(), force, now).0;
        let f = files.last();
        if let Some(b) = f.bytes {
            lemma_write_sql_apart(
                m,
                repo,
                f.path,
                b,
                short_hash(b, 16),
                crate::sql::declared(b),
                home(repo, f.path, services),
                now,
            );
        }
    }
}

proof fn lemma_source_pass_apart(
    s: StoreV,
    st: ScanStats,
    repo: Seq<char>,
    services: Seq<ServiceV>,
    files: Seq<SourceFileV>,
    force: bool,
    now: i64,
)
    requires
        ids_apart(s, repo),
    ensures
        untouched(s, s.source_pass(st, repo, services, files, force, now).0, repo),
        ids_apart(s.source_pass(st, repo, services, files, force, now).0, repo),
    decreases files.len(),
{
    if files.len() > 0 {
        lemma_source_pass_apart(s, st, repo, services, files.drop_last(), force, now);
        let m = s.source_pass(st, repo, services, files.drop_last(), force, now).0;
        let f = files.last();
        if let Some(b) = f.bytes {
            if let Ok(pf) = crate::scan::parse_of(f.path, b) {
                lemma_write_file_apart(
                    m,
                    repo,
                    f.path,
                    pf,
                    short_hash(b, 16),
                    b.len() as usize,
                    roles_of(f.tests, f.endpoints, pf.symbols.len()),
                    if f.test_file {
                        Some(Role::Test)
                    } else {
                        None
                    },
                    home(repo, f.path, services),
                    now,
                );
            }
        }
    }
}

proof fn lemma_remove_pass_apart(s: StoreV, st: ScanStats, repo: Seq<char>, paths: Seq<Seq<char>>, now: i64)
    requires
        ids_apart(s, repo),
    ensures
        untouched(s, s.remove_pass(st, repo, paths, now).0, repo),
        ids_apart(s.remove_pass(st, repo, paths, now).0, repo),
    decreases paths.len(),
{
    if paths.len() > 0 {
        lemma_remove_pass_apart(s, st, repo, paths.drop_last(), now);
        let m = s.remove_pass(st, repo, paths.drop_last(), now).0;
        lemma_missing_apart(m, repo, paths.last(), Seq::empty(), now);
        lemma_same_symbols(
            m.retire_missing(repo, paths.last(), Seq::empty(), now).0,
            m.remove_file(repo, paths.last(), now).0,
            repo,
        );
    }
}

proof fn lemma_edge_pass_apart(s: StoreV, st: ScanStats, repo: Seq<char>, files: Seq<IndexedV>)
    requires
        ids_apart(s, repo),
    ensures
        untouched(s, s.edge_pass(st, repo, files).0, repo),
        ids_apart(s.edge_pass(st, repo, files).0, repo),
        s.edge_pass(st, repo, files).0.symbols == s.symbols,
    decreases files.len(),
{
    if files.len() > 0 {
        lemma_edge_pass_apart(s, st, repo, files.drop_last());
        let m = s.edge_pass(st, repo, files.drop_last()).0;
        let f = files.last();
        let ids = sym_ids(repo, f.path, f.parsed);
        let from = ids.push(file_id_of(repo, f.path));
        assert forall|x: Seq<char>| ids.contains(x) implies is_ours(repo, x) by {
            let k = ids.index_of(x);
            let y = f.parsed.symbols[k];
            assert(x == symbol_id_of(repo, f.path, y.kind, y.fqn, y.disambiguator));
        }
        assert(is_ours(repo, file_id_of(repo, f.path)));
        let kept = |e: EdgeV| !from.contains(e.src);
        assert forall|i: int|
            0 <= i < m.edges.len() && starts_elsewhere(repo)(#[trigger] m.edges[i]) implies kept(
            m.edges[i],
        ) by {
            if from.contains(m.edges[i].src) {
                let k = from.index_of(m.edges[i].src);
                if k < ids.len() {
                    assert(ids[k] == m.edges[i].src);
                }
            }
        }
        lemma_keep_twice(m.edges, starts_elsewhere(repo), kept);
        let more = m.edges_of(repo, f);
        assert forall|k: int| 0 <= k < more.len() implies is_ours(repo, (#[trigger] more[k]).src) by {
            law_edges_start_in_their_file(m, repo, f, k);
        }
        lemma_more_edges(m.edges.filter(kept), more, repo);
        lemma_same_symbols(m, m.replace_edges(from, more), repo);
        lemma_chain(s, m, m.replace_edges(from, more), repo);
    }
}

/// What rolling up adds starts at services of the repository.
proof fn lemma_rolled_ours(s: StoreV, repo: Seq<char>, edges: Seq<EdgeV>)
    requires
        ids_apart(s, repo),
    ensures
        forall|k: int|
            0 <= k < s.rolled_all(repo, edges).len() ==> is_ours(
                repo,
                (#[trigger] s.rolled_all(repo, edges)[k]).src,
            ),
    decreases edges.len(),
{
    if edges.len() > 0 {
        lemma_rolled_ours(s, repo, edges.drop_last());
        if let Some(e) = s.rolled(repo, edges.last()) {
            lemma_symbol_ours(s, repo, e.src);
        }
    }
}

proof fn lemma_symbol_ours(s: StoreV, repo: Seq<char>, id: Seq<char>)
    requires
        ids_apart(s, repo),
        s.is_in(repo, id),
    ensures
        is_ours(repo, id),
{
    law_first_where(s.symbols, |x: SymbolV| x.id == id);
    let x = s.symbol(id)->0;
    let k = s.symbols.index_of(x);
    assert(s.symbols[k].repo_id == repo);
}

proof fn lemma_roll_up_apart(s: StoreV, repo: Seq<char>)
    requires
        ids_apart(s, repo),
    ensures
        untouched(s, s.roll_up(repo), repo),
        ids_apart(s.roll_up(repo), repo),
{
    let plain = |e: EdgeV| !s.is_rolled(repo, e);
    assert forall|i: int|
        0 <= i < s.edges.len() && starts_elsewhere(repo)(#[trigger] s.edges[i]) implies plain(
        s.edges[i],
    ) by {
        if s.is_rolled(repo, s.edges[i]) {
            lemma_symbol_ours(s, repo, s.edges[i].src);
        }
    }
    lemma_keep_twice(s.edges, starts_elsewhere(repo), plain);
    let kept = s.edges.filter(plain);
    lemma_rolled_ours(s, repo, kept);
    lemma_more_edges(kept, s.rolled_all(repo, kept), repo);
    lemma_same_symbols(s, s.roll_up(repo), repo);
}

/// Scanning one repository leaves the others alone: their symbols stay as they are,
/// and so do the edges out of them and the leases on them, even where paths are the
/// same in both.
pub proof fn law_scan_stays_in_its_repository(
    s: StoreV,
    repo: Seq<char>,
    input: ScanInputV,
    force: bool,
    now: i64,
)
    requires
        ids_apart(s, repo),
    ensures
        untouched(s, s.scan(repo, input, force, now).0, repo),
        ids_apart(s.scan(repo, input, force, now).0, repo),
{
    let services = match input.services {
        Some(d) => d,
        None => s.known_services(repo),
    };
    let s1 = match input.services {
        Some(d) => s.write_services(repo, d),
        None => s,
    };
    lemma_services_apart(s, repo, services);
    lemma_read_pass_apart(s1, repo, services, input, force, now);
    let (s2, st2, files) = s1.read_pass(repo, services, input, force, now);
    let present = paths_of(input.sources) + paths_of(input.sql);
    lemma_prune_pass_apart(s2, st2, repo, services, present, now);
    let (s3, st3) = if input.services is Some {
        s2.prune_pass(st2, repo, services, present, now)
    } else {
        (s2, st2)
    };
    lemma_link_pass_apart(s3, st3, repo, services, files);
    let s4 = s3.link_pass(st3, repo, services, files).0;
    assert(untouched(s, s4, repo)) by {
        lemma_chain(s, s1, s2, repo);
        if input.services is Some {
            lemma_chain(s, s2, s3, repo);
        }
        lemma_chain(s, s3, s4, repo);
    }
    let end = s.scan(repo, input, force, now).0;
    assert(end.edges == s4.edges);
    lemma_same_symbols(s4, end, repo);
    lemma_chain(s, s4, end, repo);
}

proof fn lemma_read_pass_apart(
    s: StoreV,
    repo: Seq<char>,
    services: Seq<ServiceV>,
    input: ScanInputV,
    force: bool,
    now: i64,
)
    requires
        ids_apart(s, repo),
    ensures
        untouched(s, s.read_pass(repo, services, input, force, now).0, repo),
        ids_apart(s.read_pass(repo, services, input, force, now).0, repo),
{
    reveal(StoreV::read_pass);
    let st = ScanStats {
        files_seen: plus(input.sources.len() as usize, input.sql.len()),
        services: services.len() as usize,
        ..crate::scan::no_stats()
    };
    lemma_sql_pass_apart(s, st, repo, services, input.sql, force, now);
    let (m, st1) = s.sql_pass(st, repo, services, input.sql, force, now);
    lemma_source_pass_apart(m, st1, repo, services, input.sources, force, now);
    lemma_chain(s, m, m.source_pass(st1, repo, services, input.sources, force, now).0, repo);
}

proof fn lemma_prune_pass_apart(
    s: StoreV,
    st: ScanStats,
    repo: Seq<char>,
    services: Seq<ServiceV>,
    present: Seq<Seq<char>>,
    now: i64,
)
    requires
        ids_apart(s, repo),
    ensures
        untouched(s, s.prune_pass(st, repo, services, present, now).0, repo),
        ids_apart(s.prune_pass(st, repo, services, present, now).0, repo),
{
    reveal(StoreV::prune_pass);
    let gone = s.vanished(repo, present);
    lemma_remove_pass_apart(s, st, repo, gone, now);
    let m = s.remove_pass(st, repo, gone, now).0;
    let live = services.map_values(|x: ServiceV| x.manifest);
    lemma_prune_apart(m, repo, live, now);
    lemma_chain(s, m, m.prune_services(repo, live, now), repo);
}

proof fn lemma_link_pass_apart(
    s: StoreV,
    st: ScanStats,
    repo: Seq<char>,
    services: Seq<ServiceV>,
    files: Seq<IndexedV>,
)
    requires
        ids_apart(s, repo),
    ensures
        untouched(s, s.link_pass(st, repo, services, files).0, repo),
        ids_apart(s.link_pass(st, repo, services, files).0, repo),
{
    reveal(StoreV::link_pass);
    lemma_edge_pass_apart(s, st, repo, files);
    let m = s.edge_pass(st, repo, files).0;
    lemma_roll_up_apart(m, repo);
    lemma_chain(s, m, m.roll_up(repo), repo);
}

proof fn lemma_chain(a: StoreV, b: StoreV, c: StoreV, repo: Seq<char>)
    requires
        untouched(a, b, repo),
        untouched(b, c, repo),
    ensures
        untouched(a, c, repo),
{
    assert forall|i: int| 0 <= i < a.leases.len() implies (#[trigger] c.leases[i]).id
        == a.leases[i].id && c.leases[i].symbol_id == a.leases[i].symbol_id && (!is_ours(
        repo,
        a.leases[i].symbol_id,
    ) ==> c.leases[i] == a.leases[i]) by {
        assert(b.leases[i].id == a.leases[i].id);
    }
}

// ------------------------------------------------------------------- incremental

/// Is every file there, and is it the one that was indexed?
pub open spec fn all_unchanged(s: StoreV, repo: Seq<char>, files: Seq<SourceFileV>) -> bool {
    forall|i: int|
        0 <= i < files.len() ==> ((#[trigger] files[i]).bytes matches Some(b) && s.unchanged(
            repo,
            files[i].path,
            b,
        ))
}

/// Files that did not change are skipped: they are counted, nothing is written, and
/// nothing is handed on to have its edges built.
pub proof fn law_unchanged_files_are_skipped(
    s: StoreV,
    st: ScanStats,
    repo: Seq<char>,
    services: Seq<ServiceV>,
    files: Seq<SourceFileV>,
    now: i64,
)
    requires
        all_unchanged(s, repo, files),
    ensures
        s.sql_pass(st, repo, services, files, false, now) == (
            s,
            ScanStats { files_unchanged: plus(st.files_unchanged, files.len()), ..st },
        ),
        s.source_pass(st, repo, services, files, false, now) == (
            s,
            ScanStats { files_unchanged: plus(st.files_unchanged, files.len()), ..st },
            Seq::<IndexedV>::empty(),
        ),
    decreases files.len(),
{
    if files.len() > 0 {
        let init = files.drop_last();
        assert forall|i: int| 0 <= i < init.len() implies ((
        #[trigger] init[i]).bytes matches Some(b) && s.unchanged(repo, init[i].path, b)) by {
            assert(init[i] == files[i]);
        }
        law_unchanged_files_are_skipped(s, st, repo, services, init, now);
        assert(files.last() == files[files.len() - 1]);
    }
}

/// Refreshing files that did not change changes nothing at all.
pub proof fn law_refresh_without_changes(s: StoreV, repo: Seq<char>, input: ScanInputV, now: i64)
    requires
        input.services is None,
        all_unchanged(s, repo, input.sql),
        all_unchanged(s, repo, input.sources),
    ensures
        s.scan(repo, input, false, now).0 == s,
        s.scan(repo, input, false, now).1.files_indexed == 0,
        s.scan(repo, input, false, now).1.files_unchanged == plus(
            plus(0, input.sql.len()),
            input.sources.len(),
        ),
{
    reveal(StoreV::read_pass);
    reveal(StoreV::link_pass);
    let services = s.known_services(repo);
    let st = ScanStats {
        files_seen: plus(input.sources.len() as usize, input.sql.len()),
        services: services.len() as usize,
        ..crate::scan::no_stats()
    };
    law_unchanged_files_are_skipped(s, st, repo, services, input.sql, now);
    let st2 = ScanStats { files_unchanged: plus(st.files_unchanged, input.sql.len()), ..st };
    law_unchanged_files_are_skipped(s, st2, repo, services, input.sources, now);
}

// ------------------------------------------------------------- what disappears

/// Writing a symbol changes what is found under its own id only.
pub(crate) proof fn lemma_upsert_other(s: StoreV, row: SymbolV, service: bool, id: Seq<char>)
    requires
        row.id != id,
    ensures
        s.upsert(row, service).symbol(id) == s.symbol(id),
{
    let p = |x: SymbolV| x.id == id;
    if s.symbol(row.id) is Some {
        let f = |x: SymbolV|
            if x.id != row.id {
                x
            } else if service {
                refreshed_service(x, row)
            } else {
                refreshed(x, row)
            };
        lemma_first_mapped(s.symbols, p, f);
    } else {
        lemma_first_pushed(s.symbols, p, row);
    }
}

proof fn lemma_first_mapped<T>(s: Seq<T>, p: spec_fn(T) -> bool, f: spec_fn(T) -> T)
    requires
        forall|x: T| #[trigger] p(f(x)) == p(x),
        forall|x: T| p(x) ==> #[trigger] f(x) == x,
    ensures
        first_where(s.map_values(f), p) == first_where(s, p),
    decreases s.len(),
{
    if s.len() > 0 {
        lemma_first_mapped(s.drop_first(), p, f);
        assert(s.map_values(f).drop_first() =~= s.drop_first().map_values(f));
        assert(p(f(s[0])) == p(s[0]));
    }
}

pub(crate) proof fn lemma_first_changed<T>(s: Seq<T>, p: spec_fn(T) -> bool, f: spec_fn(T) -> T)
    requires
        forall|x: T| #[trigger] p(f(x)) == p(x),
    ensures
        first_where(s.map_values(f), p) == (match first_where(s, p) {
            Some(x) => Some(f(x)),
            None => None,
        }),
    decreases s.len(),
{
    if s.len() > 0 {
        lemma_first_changed(s.drop_first(), p, f);
        assert(s.map_values(f).drop_first() =~= s.drop_first().map_values(f));
        assert(p(f(s[0])) == p(s[0]));
    }
}

pub(crate) proof fn lemma_first_pushed<T>(s: Seq<T>, p: spec_fn(T) -> bool, x: T)
    ensures
        first_where(s.push(x), p) == (match first_where(s, p) {
            Some(y) => Some(y),
            None => if p(x) {
                Some(x)
            } else {
                None
            },
        }),
    decreases s.len(),
{
    if s.len() > 0 {
        lemma_first_pushed(s.drop_first(), p, x);
        assert(s.push(x).drop_first() =~= s.drop_first().push(x));
    } else {
        reveal_with_fuel(first_where, 2);
        assert(s.push(x).drop_first() =~= Seq::empty());
    }
}

proof fn lemma_first_filtered<T>(s: Seq<T>, p: spec_fn(T) -> bool, q: spec_fn(T) -> bool)
    requires
        forall|x: T| p(x) ==> #[trigger] q(x),
    ensures
        first_where(s.filter(q), p) == first_where(s, p),
    decreases s.len(),
{
    if s.len() > 0 {
        let t = s.drop_last();
        lemma_first_filtered(t, p, q);
        assert(t.push(s.last()) =~= s);
        lemma_first_pushed(t, p, s.last());
        t.lemma_filter_push(s.last(), q);
        if q(s.last()) {
            lemma_first_pushed(t.filter(q), p, s.last());
        }
    }
}

pub(crate) proof fn lemma_upserts_other(s: StoreV, rows: Seq<SymbolV>, service: bool, id: Seq<char>)
    requires
        forall|i: int| 0 <= i < rows.len() ==> (#[trigger] rows[i]).id != id,
    ensures
        s.upsert_all(rows, service).symbol(id) == s.symbol(id),
        s.upsert_all(rows, service) == (StoreV {
            symbols: s.upsert_all(rows, service).symbols,
            ..s
        }),
    decreases rows.len(),
{
    if rows.len() > 0 {
        let init = rows.drop_last();
        assert forall|i: int| 0 <= i < init.len() implies (#[trigger] init[i]).id != id by {
            assert(init[i] == rows[i]);
        }
        lemma_upserts_other(s, init, service, id);
        assert(rows[rows.len() - 1].id != id);
        lemma_upsert_other(s.upsert_all(init, service), rows.last(), service, id);
    }
}

/// Is nothing left of a symbol: not the symbol, no edge, no lease in force?
pub open spec fn gone(s: StoreV, id: Seq<char>) -> bool {
    &&& s.symbol(id) is None
    &&& forall|i: int|
        0 <= i < s.edges.len() ==> (#[trigger] s.edges[i]).src != id && s.edges[i].dst != id
    &&& forall|i: int|
        0 <= i < s.leases.len() && (#[trigger] s.leases[i]).symbol_id == id ==> !(
        s.leases[i].state is Active)
}

/// Dropping one symbol: it is gone, and what was gone stays gone.
proof fn lemma_drop_one(s: StoreV, x: SymbolV, now: i64, id: Seq<char>)
    requires
        gone(s, id) || id == x.id,
    ensures
        gone(
            s.retire_leases_on(x.id, x.path + ":"@ + x.fqn, "symbol removed"@, now).without_symbol(
                x.id,
            ),
            id,
        ),
{
    let handle = x.path + ":"@ + x.fqn;
    let rows = s.active_on(x.id);
    let m = s.retire_leases_on(x.id, handle, "symbol removed"@, now);
    let r = m.without_symbol(x.id);
    lemma_retire_keeps(s, rows, handle, "symbol removed"@, now);
    let q = |y: SymbolV| y.id != x.id;
    let p = |y: SymbolV| y.id == id;
    let e = |y: EdgeV| y.src != x.id && y.dst != x.id;
    law_first_where(r.symbols, p);
    law_first_where(s.symbols, p);
    if let Some(y) = r.symbol(id) {
        let k = choose|k: int| 0 <= k < r.symbols.len() && r.symbols[k] == y;
        lemma_kept(m.symbols, q, k);
        let j = choose|j: int| 0 <= j < s.symbols.len() && s.symbols[j] == y;
        assert(p(s.symbols[j]));
    }
    assert forall|i: int| 0 <= i < r.edges.len() implies (#[trigger] r.edges[i]).src != id
        && r.edges[i].dst != id by {
        lemma_kept(m.edges, e, i);
        let j = choose|j: int| 0 <= j < s.edges.len() && s.edges[j] == r.edges[i];
        if id != x.id {
            assert(s.edges[j].src != id);
        }
    }
    assert forall|i: int|
        0 <= i < r.leases.len() && (#[trigger] r.leases[i]).symbol_id == id implies !(
    r.leases[i].state is Active) by {
        let l = s.leases[i];
        assert(m.leases[i].symbol_id == l.symbol_id);
        if l.state is Active {
            let a = |y: LeaseRowV| active_lease(y, x.id);
            assert(id == x.id);
            assert(s.leases.contains(l));
            crate::rows::law_filter_has(s.leases, a, l);
            let k = choose|k: int| 0 <= k < rows.len() && rows[k] == l;
            assert(rows[k].id == s.leases[i].id);
            assert(m.leases[i].state is Expired);
        }
    }
}

proof fn lemma_drop_gone(s: StoreV, rows: Seq<SymbolV>, now: i64, k: int)
    requires
        0 <= k < rows.len(),
    ensures
        gone(s.drop_symbols(rows, now).0, rows[k].id),
    decreases rows.len(),
{
    let init = rows.drop_last();
    if k < init.len() {
        lemma_drop_gone(s, init, now, k);
        assert(init[k] == rows[k]);
    }
    lemma_drop_one(s.drop_symbols(init, now).0, rows.last(), now, rows[k].id);
}

/// A symbol that is no longer in its file is dropped when the file is indexed, and
/// every lease on it is ended.
pub proof fn law_vanished_symbols_lose_their_leases(
    s: StoreV,
    repo: Seq<char>,
    path: Seq<char>,
    pf: ParsedFileV,
    hash: Seq<char>,
    size: usize,
    roles: Seq<RoleOfV>,
    role: Option<Role>,
    service: Option<Seq<char>>,
    now: i64,
    x: SymbolV,
)
    requires
        s.missing(repo, path, seq![file_id_of(repo, path)] + sym_ids(repo, path, pf)).contains(x),
    ensures
        gone(s.write_file(repo, path, pf, hash, size, roles, role, service, now).0, x.id),
{
    let keep = seq![file_id_of(repo, path)] + sym_ids(repo, path, pf);
    let rows = s.missing(repo, path, keep);
    let k = choose|k: int| 0 <= k < rows.len() && rows[k] == x;
    let p = |y: SymbolV|
        y.repo_id == repo && y.path == path && !(y.kind is Service) && !keep.contains(y.id);
    s.symbols.lemma_filter_pred(p, k);
    assert(p(x));
    lemma_drop_gone(s, rows, now, k);
    let m = s.retire_missing(repo, path, keep, now).0;
    let file = file_row(repo, path, pf, hash, size, role, service);
    assert(keep[0] == file.id);
    lemma_upsert_other(m, file, false, x.id);
    let more = Seq::new(pf.symbols.len(), |i: int| symbol_row(repo, path, pf, roles, i));
    assert forall|i: int| 0 <= i < more.len() implies (#[trigger] more[i]).id != x.id by {
        assert(keep[i + 1] == more[i].id);
    }
    lemma_upserts_other(m.upsert(file, false), more, false, x.id);
}

/// Forgetting a file drops all its symbols and ends every lease on them.
pub proof fn law_removed_files_leave_nothing(
    s: StoreV,
    repo: Seq<char>,
    path: Seq<char>,
    now: i64,
    x: SymbolV,
)
    requires
        s.symbols.contains(x),
        x.repo_id == repo,
        x.path == path,
        !(x.kind is Service),
    ensures
        gone(s.remove_file(repo, path, now).0, x.id),
{
    let keep = Seq::<Seq<char>>::empty();
    let p = |y: SymbolV|
        y.repo_id == repo && y.path == path && !(y.kind is Service) && !keep.contains(y.id);
    crate::rows::law_filter_has(s.symbols, p, x);
    let rows = s.missing(repo, path, keep);
    let k = choose|k: int| 0 <= k < rows.len() && rows[k] == x;
    lemma_drop_gone(s, rows, now, k);
}

// ------------------------------------------------------------------- what stays

proof fn lemma_drop_other(s: StoreV, rows: Seq<SymbolV>, now: i64, id: Seq<char>)
    requires
        s.ids_differ(),
        forall|i: int| 0 <= i < rows.len() ==> (#[trigger] rows[i]).id != id,
    ensures
        ({
            let r = s.drop_symbols(rows, now).0;
            &&& r.symbol(id) == s.symbol(id)
            &&& r.ids_differ()
            &&& r.leases.len() == s.leases.len()
            &&& forall|i: int|
                0 <= i < s.leases.len() && (#[trigger] s.leases[i]).symbol_id == id ==> r.leases[i]
                    == s.leases[i]
        }),
    decreases rows.len(),
{
    if rows.len() > 0 {
        let init = rows.drop_last();
        assert forall|i: int| 0 <= i < init.len() implies (#[trigger] init[i]).id != id by {
            assert(init[i] == rows[i]);
        }
        lemma_drop_other(s, init, now, id);
        let m = s.drop_symbols(init, now).0;
        let x = rows.last();
        assert(x == rows[rows.len() - 1]);
        let handle = x.path + ":"@ + x.fqn;
        lemma_retire_keeps(m, m.active_on(x.id), handle, "symbol removed"@, now);
        let n = m.retire_leases_on(x.id, handle, "symbol removed"@, now);
        let r = n.without_symbol(x.id);
        lemma_first_filtered(
            n.symbols,
            |y: SymbolV| y.id == id,
            |y: SymbolV| y.id != x.id,
        );
        assert forall|i: int, j: int|
            0 <= i < r.leases.len() && 0 <= j < r.leases.len() && i != j implies (
        #[trigger] r.leases[i]).id != (#[trigger] r.leases[j]).id by {
            assert(n.leases[i].id == m.leases[i].id && n.leases[j].id == m.leases[j].id);
            assert(m.leases[i].id != m.leases[j].id);
        }
        assert forall|i: int|
            0 <= i < s.leases.len() && (#[trigger] s.leases[i]).symbol_id == id implies r.leases[i]
            == s.leases[i] by {
            lemma_retire_other(m, x.id, handle, "symbol removed"@, now, i);
        }
    }
}

/// Are the two the same symbol, at the same place in the same repository?
pub open spec fn same_identity(a: SymbolV, b: SymbolV) -> bool {
    a.id == b.id && a.path == b.path && a.kind == b.kind && a.name == b.name && a.fqn == b.fqn
        && a.repo_id == b.repo_id
}

proof fn lemma_upserts_identity(s: StoreV, rows: Seq<SymbolV>, id: Seq<char>)
    requires
        s.symbol(id) is Some,
    ensures
        s.upsert_all(rows, false).symbol(id) matches Some(y) && same_identity(
            y,
            s.symbol(id)->Some_0,
        ),
        s.upsert_all(rows, false).leases == s.leases,
    decreases rows.len(),
{
    law_first_where(s.symbols, |x: SymbolV| x.id == id);
    if rows.len() > 0 {
        lemma_upserts_identity(s, rows.drop_last(), id);
        lemma_upsert_identity(s.upsert_all(rows.drop_last(), false), rows.last(), id);
    }
}

proof fn lemma_upsert_identity(s: StoreV, row: SymbolV, id: Seq<char>)
    requires
        s.symbol(id) is Some,
    ensures
        s.upsert(row, false).symbol(id) matches Some(y) && same_identity(y, s.symbol(id)->Some_0),
{
    let p = |x: SymbolV| x.id == id;
    if row.id != id {
        lemma_upsert_other(s, row, false, id);
    } else {
        let f = |x: SymbolV|
            if x.id != row.id {
                x
            } else {
                refreshed(x, row)
            };
        lemma_first_changed(s.symbols, p, f);
        law_first_where(s.symbols, p);
        assert(s.upsert(row, false).symbols =~= s.symbols.map_values(f));
    }
}

/// Indexing a file again keeps the identity of every symbol that is still in it,
/// and the leases on it.
pub proof fn law_symbols_keep_their_identity(
    s: StoreV,
    repo: Seq<char>,
    path: Seq<char>,
    pf: ParsedFileV,
    hash: Seq<char>,
    size: usize,
    roles: Seq<RoleOfV>,
    role: Option<Role>,
    service: Option<Seq<char>>,
    now: i64,
    id: Seq<char>,
)
    requires
        s.ids_differ(),
        s.symbol(id) is Some,
        id == file_id_of(repo, path) || sym_ids(repo, path, pf).contains(id),
    ensures
        ({
            let r = s.write_file(repo, path, pf, hash, size, roles, role, service, now).0;
            &&& r.symbol(id) matches Some(y) && same_identity(y, s.symbol(id)->Some_0)
            &&& r.leases.len() == s.leases.len()
            &&& forall|i: int|
                0 <= i < s.leases.len() && (#[trigger] s.leases[i]).symbol_id == id ==> r.leases[i]
                    == s.leases[i]
        }),
{
    let keep = seq![file_id_of(repo, path)] + sym_ids(repo, path, pf);
    assert(keep.contains(id)) by {
        if id == file_id_of(repo, path) {
            assert(keep[0] == id);
        } else {
            let k = choose|k: int|
                0 <= k < sym_ids(repo, path, pf).len() && sym_ids(repo, path, pf)[k] == id;
            assert(keep[k + 1] == id);
        }
    }
    let rows = s.missing(repo, path, keep);
    let p = |y: SymbolV|
        y.repo_id == repo && y.path == path && !(y.kind is Service) && !keep.contains(y.id);
    assert forall|i: int| 0 <= i < rows.len() implies (#[trigger] rows[i]).id != id by {
        s.symbols.lemma_filter_pred(p, i);
    }
    lemma_drop_other(s, rows, now, id);
    let m = s.retire_missing(repo, path, keep, now).0;
    let file = file_row(repo, path, pf, hash, size, role, service);
    lemma_upsert_identity(m, file, id);
    let more = Seq::new(pf.symbols.len(), |i: int| symbol_row(repo, path, pf, roles, i));
    lemma_upserts_identity(m.upsert(file, false), more, id);
}

/// A file that was indexed counts as unchanged until its contents do: the next
/// scan skips it.
pub proof fn law_indexed_files_are_unchanged(
    s: StoreV,
    repo: Seq<char>,
    path: Seq<char>,
    pf: ParsedFileV,
    bytes: Seq<u8>,
    size: usize,
    roles: Seq<RoleOfV>,
    role: Option<Role>,
    service: Option<Seq<char>>,
    now: i64,
)
    requires
        !sym_ids(repo, path, pf).contains(file_id_of(repo, path)),
    ensures
        s.write_file(
            repo,
            path,
            pf,
            short_hash(bytes, 16),
            size,
            roles,
            role,
            service,
            now,
        ).0.unchanged(repo, path, bytes),
{
    let id = file_id_of(repo, path);
    let keep = seq![id] + sym_ids(repo, path, pf);
    let m = s.retire_missing(repo, path, keep, now).0;
    let file = file_row(repo, path, pf, short_hash(bytes, 16), size, role, service);
    let p = |x: SymbolV| x.id == id;
    if m.symbol(id) is Some {
        let f = |x: SymbolV|
            if x.id != file.id {
                x
            } else {
                refreshed(x, file)
            };
        lemma_first_changed(m.symbols, p, f);
        assert(m.upsert(file, false).symbols =~= m.symbols.map_values(f));
    } else {
        lemma_first_pushed(m.symbols, p, file);
    }
    let more = Seq::new(pf.symbols.len(), |i: int| symbol_row(repo, path, pf, roles, i));
    assert forall|i: int| 0 <= i < more.len() implies (#[trigger] more[i]).id != id by {
        assert(sym_ids(repo, path, pf)[i] == more[i].id);
    }
    lemma_upserts_other(m.upsert(file, false), more, false, id);
    law_first_where(m.symbols, p);
}

/// Is there an event that tells that the lease was dropped?
pub open spec fn reported(s: StoreV, l: LeaseRowV) -> bool {
    exists|k: int|
        0 <= k < s.events.len() && (#[trigger] s.events[k]).kind == "lease.dropped"@
            && s.events[k].agent == Some(l.agent) && s.events[k].task == l.task
            && s.events[k].detail.text_at("lease"@) == Some(l.id)
}

proof fn lemma_reported_stays(a: StoreV, b: StoreV, l: LeaseRowV)
    requires
        reported(a, l),
        a.events.is_prefix_of(b.events),
    ensures
        reported(b, l),
{
    let k = choose|k: int|
        0 <= k < a.events.len() && (#[trigger] a.events[k]).kind == "lease.dropped"@
            && a.events[k].agent == Some(l.agent) && a.events[k].task == l.task
            && a.events[k].detail.text_at("lease"@) == Some(l.id);
    assert(b.events[k] == a.events[k]);
}

proof fn lemma_retire_reports(
    s: StoreV,
    rows: Seq<LeaseRowV>,
    handle: Seq<char>,
    reason: Seq<char>,
    now: i64,
)
    ensures
        s.events.is_prefix_of(s.retire_each(rows, handle, reason, now).events),
        forall|k: int|
            0 <= k < rows.len() ==> reported(
                s.retire_each(rows, handle, reason, now),
                #[trigger] rows[k],
            ),
    decreases rows.len(),
{
    if rows.len() > 0 {
        let init = rows.drop_last();
        lemma_retire_reports(s, init, handle, reason, now);
        let m = s.retire_each(init, handle, reason, now);
        let r = s.retire_each(rows, handle, reason, now);
        let l = rows.last();
        assert(m.events.is_prefix_of(r.events));
        assert forall|k: int| 0 <= k < rows.len() implies reported(r, #[trigger] rows[k]) by {
            if k < init.len() {
                assert(init[k] == rows[k]);
                lemma_reported_stays(m, r, rows[k]);
            } else {
                let e = r.events.last();
                let d = seq![
                    ("lease"@, JsonV::Str(l.id)),
                    ("reason"@, JsonV::Str(reason)),
                ];
                assert(e.detail == JsonV::Obj(d));
                assert(member(d, "lease"@) == Some(JsonV::Str(l.id))) by {
                    reveal_strlit("lease");
                    reveal_strlit("reason");
                    assert("lease"@.len() != "reason"@.len());
                    assert(d.drop_last() =~= seq![("lease"@, JsonV::Str(l.id))]);
                    reveal_with_fuel(member, 2);
                }
                assert(r.events[r.events.len() - 1] == e);
            }
        }
    }
}

proof fn lemma_drop_reports(s: StoreV, rows: Seq<SymbolV>, now: i64, l: LeaseRowV, k: int)
    requires
        s.ids_differ(),
        s.leases.contains(l),
        l.state is Active,
        0 <= k < rows.len(),
        rows[k].id == l.symbol_id,
    ensures
        reported(s.drop_symbols(rows, now).0, l),
    decreases rows.len(),
{
    let init = rows.drop_last();
    let m = s.drop_symbols(init, now).0;
    let x = rows.last();
    let handle = x.path + ":"@ + x.fqn;
    lemma_retire_reports(m, m.active_on(x.id), handle, "symbol removed"@, now);
    let r = s.drop_symbols(rows, now).0;
    assert(m.events.is_prefix_of(r.events));
    if exists|j: int| 0 <= j < init.len() && (#[trigger] init[j]).id == l.symbol_id {
        let j = choose|j: int| 0 <= j < init.len() && (#[trigger] init[j]).id == l.symbol_id;
        lemma_drop_reports(s, init, now, l, j);
        lemma_reported_stays(m, r, l);
    } else {
        if k < init.len() {
            assert(init[k].id == l.symbol_id);
        }
        lemma_drop_other(s, init, now, l.symbol_id);
        let i = choose|i: int| 0 <= i < s.leases.len() && s.leases[i] == l;
        assert(s.leases[i].symbol_id == l.symbol_id);
        assert(m.leases[i] == l);
        assert(m.leases.contains(l));
        let a = |y: LeaseRowV| active_lease(y, x.id);
        crate::rows::law_filter_has(m.leases, a, l);
        let rows2 = m.active_on(x.id);
        let q = choose|q: int| 0 <= q < rows2.len() && rows2[q] == l;
        assert(reported(m.retire_leases_on(x.id, handle, "symbol removed"@, now), rows2[q]));
        lemma_reported_stays(m.retire_leases_on(x.id, handle, "symbol removed"@, now), r, l);
    }
}

/// A lease that ends because its symbol vanished from the file is reported.
pub proof fn law_dropped_leases_are_reported(
    s: StoreV,
    repo: Seq<char>,
    path: Seq<char>,
    pf: ParsedFileV,
    hash: Seq<char>,
    size: usize,
    roles: Seq<RoleOfV>,
    role: Option<Role>,
    service: Option<Seq<char>>,
    now: i64,
    x: SymbolV,
    l: LeaseRowV,
)
    requires
        s.ids_differ(),
        s.missing(repo, path, seq![file_id_of(repo, path)] + sym_ids(repo, path, pf)).contains(x),
        s.leases.contains(l),
        active_lease(l, x.id),
    ensures
        reported(s.write_file(repo, path, pf, hash, size, roles, role, service, now).0, l),
{
    let keep = seq![file_id_of(repo, path)] + sym_ids(repo, path, pf);
    let rows = s.missing(repo, path, keep);
    let k = choose|k: int| 0 <= k < rows.len() && rows[k] == x;
    lemma_drop_reports(s, rows, now, l, k);
    let m = s.retire_missing(repo, path, keep, now).0;
    let file = file_row(repo, path, pf, hash, size, role, service);
    let more = Seq::new(pf.symbols.len(), |i: int| symbol_row(repo, path, pf, roles, i));
    lemma_upserts_rest(m.upsert(file, false), more);
    lemma_reported_stays(
        m,
        s.write_file(repo, path, pf, hash, size, roles, role, service, now).0,
        l,
    );
}

proof fn lemma_upserts_rest(s: StoreV, rows: Seq<SymbolV>)
    ensures
        s.upsert_all(rows, false) == (StoreV { symbols: s.upsert_all(rows, false).symbols, ..s }),
    decreases rows.len(),
{
    if rows.len() > 0 {
        lemma_upserts_rest(s, rows.drop_last());
    }
}

} // verus!
