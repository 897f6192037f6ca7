//! What is written down of a source.

use vstd::prelude::*;
use vstd::string::*;

use crate::edge_laws::lemma_parts;
use crate::edges::IndexedV;
use crate::ids::short_hash;
use crate::index::{
    deepest, dir_holds, file_id_of, file_row, owner_of, refreshed, refreshed_service, sql_file_row, symbol_row,
    sym_ids, table_id_of, table_row,
    with_edges, RoleOfV, ServiceV,
};
use crate::json::JsonV;
use crate::lookup_laws::{lemma_filter_count, lemma_filtered};
use crate::model::{EdgeKind, EdgeV, Role, SymbolV};
use crate::parse::{ParseError, ParsedFileV};
use crate::scan::{home, is_sql, parse_of, role_of, roles_of, routes, skipped_names, RoleHitV, ScanStats, SourceFileV};
use crate::scan_laws::{lemma_first_changed, lemma_first_pushed, lemma_upsert_other, lemma_upserts_other};
use crate::sql::TableDefV;
use crate::store::{law_first_where, LeaseRowV, StoreV};
use crate::text::ascii_lower;

verus! {

broadcast use vstd::string::group_string_axioms;

// ------------------------------------------------------------------------------ symbols

/// Does a symbol say what a row says, but for what identifies it?
pub open spec fn says(y: SymbolV, row: SymbolV) -> bool {
    &&& y.id == row.id
    &&& y.lang == row.lang
    &&& y.parent_id == row.parent_id
    &&& y.start_byte == row.start_byte && y.end_byte == row.end_byte
    &&& y.start_line == row.start_line && y.end_line == row.end_line
    &&& y.body_hash == row.body_hash && y.own_hash == row.own_hash
    &&& y.role == row.role && y.meta == row.meta
}

proof fn lemma_upsert_same(s: StoreV, row: SymbolV)
    ensures
        s.upsert(row, false).symbol(row.id) == Some(
            match s.symbol(row.id) {
                Some(old) => refreshed(old, row),
                None => row,
            },
        ),
{
    let id = row.id;
    let p = |x: SymbolV| x.id == id;
    if s.symbol(row.id) is Some {
        let f = |x: SymbolV|
            if x.id != row.id {
                x
            } else if false {
                refreshed_service(x, row)
            } else {
                refreshed(x, row)
            };
        lemma_first_changed(s.symbols, p, f);
        law_first_where(s.symbols, p);
        assert(s.upsert(row, false).symbols =~= s.symbols.map_values(f));
    } else {
        lemma_first_pushed(s.symbols, p, row);
    }
}

proof fn lemma_upserts_at(s: StoreV, rows: Seq<SymbolV>, i: int)
    requires
        0 <= i < rows.len(),
        forall|j: int| i < j < rows.len() ==> (#[trigger] rows[j]).id != rows[i].id,
    ensures
        s.upsert_all(rows, false).symbol(rows[i].id) matches Some(y) && says(y, rows[i]),
        s.symbol(rows[i].id) is None && (forall|j: int| 0 <= j < i ==> (#[trigger] rows[j]).id != rows[i].id)
            ==> s.upsert_all(rows, false).symbol(rows[i].id) == Some(rows[i]),
    decreases rows.len(),
{
    let init = rows.drop_last();
    let last = rows.len() - 1;
    if i == last {
        let m = s.upsert_all(init, false);
        lemma_upsert_same(m, rows[i]);
        lemma_symbol_id(m, rows[i].id);
        if forall|j: int| 0 <= j < i ==> (#[trigger] rows[j]).id != rows[i].id {
            assert forall|j: int| 0 <= j < init.len() implies (#[trigger] init[j]).id != rows[i].id by {
                assert(init[j] == rows[j]);
            }
            lemma_upserts_other(s, init, false, rows[i].id);
        }
    } else {
        assert(init[i] == rows[i]);
        assert forall|j: int| i < j < init.len() implies (#[trigger] init[j]).id != init[i].id by {
            assert(init[j] == rows[j]);
        }
        lemma_upserts_at(s, init, i);
        assert(rows[last].id != rows[i].id);
        lemma_upsert_other(s.upsert_all(init, false), rows.last(), false, rows[i].id);
        if forall|j: int| 0 <= j < i ==> (#[trigger] rows[j]).id != rows[i].id {
            assert forall|j: int| 0 <= j < i implies (#[trigger] init[j]).id != init[i].id by {
                assert(init[j] == rows[j]);
            }
        }
    }
}

proof fn lemma_symbol_id(s: StoreV, id: Seq<char>)
    ensures
        s.symbol(id) matches Some(x) ==> x.id == id,
{
    law_first_where(s.symbols, |x: SymbolV| x.id == id);
}

proof fn lemma_retired(s: StoreV, rows: Seq<LeaseRowV>, handle: Seq<char>, reason: Seq<char>, now: i64)
    ensures
        s.retire_each(rows, handle, reason, now).symbols == s.symbols,
    decreases rows.len(),
{
    if rows.len() > 0 {
        lemma_retired(s, rows.drop_last(), handle, reason, now);
    }
}

proof fn lemma_still_unknown(s: StoreV, rows: Seq<SymbolV>, now: i64, id: Seq<char>)
    requires
        s.symbol(id) is None,
    ensures
        s.drop_symbols(rows, now).0.symbol(id) is None,
    decreases rows.len(),
{
    if rows.len() > 0 {
        let init = rows.drop_last();
        lemma_still_unknown(s, init, now, id);
        let x = rows.last();
        let m = s.drop_symbols(init, now).0;
        lemma_retired(m, m.active_on(x.id), x.path + ":"@ + x.fqn, "symbol removed"@, now);
        let p = |y: SymbolV| y.id == id;
        let q = |y: SymbolV| y.id != x.id;
        law_first_where(m.symbols, p);
        let kept = m.symbols.filter(q);
        law_first_where(kept, p);
        let r = s.drop_symbols(rows, now).0;
        if r.symbol(id) is Some {
            let y = r.symbol(id)->0;
            law_first_where(r.symbols, p);
            assert(r.symbols == kept);
            lemma_filtered(m.symbols, q, y);
            let k = choose|k: int| 0 <= k < m.symbols.len() && m.symbols[k] == y;
            assert(!p(m.symbols[k]));
        }
    }
}

/// Once a file is written, each of its symbols is there, with the place, the hashes, the
/// role and the parent that were found; one that was not known before has its name too.
pub proof fn law_written_symbols_are_there(
    s: StoreV,
    repo: Seq<char>,
    path: Seq<char>,
    pf: ParsedFileV,
    hash: Seq<char>,
    size: usize,
    roles: Seq<RoleOfV>,
    role: Option<Role>,
    service: Option<Seq<char>>,
    now: i64,
    i: int,
)
    requires
        0 <= i < pf.symbols.len(),
        forall|j: int|
            i < j < pf.symbols.len() ==> #[trigger] sym_ids(repo, path, pf)[j] != sym_ids(repo, path, pf)[i],
    ensures
        ({
            let r = s.write_file(repo, path, pf, hash, size, roles, role, service, now).0;
            let id = sym_ids(repo, path, pf)[i];
            let x = pf.symbols[i];
            &&& r.symbol(id) matches Some(y) && y.lang == pf.lang && y.start_byte == x.start_byte && y.end_byte
                == x.end_byte && y.start_line == x.start_line && y.end_line == x.end_line && y.body_hash == x.body_hash
                && y.own_hash == x.own_hash && y.role == roles[i].role && y.meta == roles[i].meta && (match x.parent {
                Some(p) => p < pf.symbols.len() ==> y.parent_id == Some(sym_ids(repo, path, pf)[p as int]),
                None => y.parent_id == Some(file_id_of(repo, path)),
            })
            &&& s.symbol(id) is None && id != file_id_of(repo, path) && (forall|j: int|
                0 <= j < i ==> #[trigger] sym_ids(repo, path, pf)[j] != id) ==> (r.symbol(id) matches Some(y) && y.name
                == x.name && y.fqn == x.fqn && y.kind == x.kind && y.path == path && y.repo_id == repo)
        }),
{
    let ids = sym_ids(repo, path, pf);
    let m = s.retire_missing(repo, path, seq![file_id_of(repo, path)] + ids, now).0;
    let file = file_row(repo, path, pf, hash, size, role, service);
    let b = m.upsert(file, false);
    let rows = Seq::new(pf.symbols.len(), |k: int| symbol_row(repo, path, pf, roles, k));
    assert forall|j: int| i < j < rows.len() implies (#[trigger] rows[j]).id != rows[i].id by {
        assert(ids[j] != ids[i]);
    }
    lemma_upserts_at(b, rows, i);
    if ids[i] != file_id_of(repo, path) {
        lemma_upsert_other(m, file, false, ids[i]);
    }
    if s.symbol(ids[i]) is None {
        lemma_still_unknown(s, s.missing(repo, path, seq![file_id_of(repo, path)] + ids), now, ids[i]);
    }
    if forall|j: int| 0 <= j < i ==> #[trigger] ids[j] != ids[i] {
        assert forall|j: int| 0 <= j < i implies (#[trigger] rows[j]).id != rows[i].id by {
            assert(ids[j] != ids[i]);
        }
    }
}

/// Once a file is written, the file itself is there, with the hash of its contents, its
/// language and the service that it belongs to.
pub proof fn law_written_file_is_there(
    s: StoreV,
    repo: Seq<char>,
    path: Seq<char>,
    pf: ParsedFileV,
    hash: Seq<char>,
    size: usize,
    roles: Seq<RoleOfV>,
    role: Option<Role>,
    service: Option<Seq<char>>,
    now: i64,
)
    requires
        !sym_ids(repo, path, pf).contains(file_id_of(repo, path)),
    ensures
        ({
            let r = s.write_file(repo, path, pf, hash, size, roles, role, service, now).0;
            r.symbol(file_id_of(repo, path)) matches Some(y) && y.body_hash == hash && y.lang == pf.lang && y.role == role
                && y.parent_id == service && y.end_byte == size && y.own_hash == pf.own_hash
        }),
{
    let ids = sym_ids(repo, path, pf);
    let m = s.retire_missing(repo, path, seq![file_id_of(repo, path)] + ids, now).0;
    let file = file_row(repo, path, pf, hash, size, role, service);
    lemma_upsert_same(m, file);
    let b = m.upsert(file, false);
    let rows = Seq::new(pf.symbols.len(), |k: int| symbol_row(repo, path, pf, roles, k));
    assert forall|j: int| 0 <= j < rows.len() implies (#[trigger] rows[j]).id != file.id by {
        assert(ids.contains(ids[j]));
    }
    lemma_upserts_other(b, rows, false, file.id);
}

// -------------------------------------------------------------------------------- roles

/// A symbol that answers requests is an endpoint, and says which; otherwise one that tests
/// is a test; anything else has no role.
pub proof fn law_roles(tests: Seq<RoleHitV>, endpoints: Seq<RoleHitV>, i: usize, k: int)
    ensures
        ({
            let r = role_of(tests, endpoints, i);
            let serves = exists|h: int| 0 <= h < endpoints.len() && (#[trigger] endpoints[h]).symbol == i;
            let checks = exists|h: int| 0 <= h < tests.len() && (#[trigger] tests[h]).symbol == i;
            &&& serves ==> r.role == Some(Role::Api)
            &&& !serves && checks ==> r.role == Some(Role::Test)
            &&& !serves && !checks ==> r.role is None
            &&& 0 <= k < endpoints.len() && endpoints[k].symbol == i && (forall|h: int|
                0 <= h < endpoints.len() && (#[trigger] endpoints[h]).symbol == i ==> h == k) ==> r.meta
                == endpoints[k].meta
            &&& !serves && 0 <= k < tests.len() && tests[k].symbol == i && (forall|h: int|
                0 <= h < tests.len() && (#[trigger] tests[h]).symbol == i ==> h == k) ==> r.meta == tests[k].meta
        }),
{
    let p = |h: RoleHitV| h.symbol == i;
    lemma_filter_count(endpoints, p);
    lemma_filter_count(tests, p);
    let a = endpoints.filter(p);
    let b = tests.filter(p);
    assert(routes(endpoints, i) == a.map_values(|h: RoleHitV| h.meta));
    if exists|h: int| 0 <= h < endpoints.len() && (#[trigger] endpoints[h]).symbol == i {
        let h = choose|h: int| 0 <= h < endpoints.len() && (#[trigger] endpoints[h]).symbol == i;
        assert(p(endpoints[h]));
    } else {
        assert forall|h: int| 0 <= h < endpoints.len() implies !p(#[trigger] endpoints[h]) by {}
    }
    if exists|h: int| 0 <= h < tests.len() && (#[trigger] tests[h]).symbol == i {
        let h = choose|h: int| 0 <= h < tests.len() && (#[trigger] tests[h]).symbol == i;
        assert(p(tests[h]));
    } else {
        assert forall|h: int| 0 <= h < tests.len() implies !p(#[trigger] tests[h]) by {}
    }
    if 0 <= k < endpoints.len() && endpoints[k].symbol == i && (forall|h: int|
        0 <= h < endpoints.len() && (#[trigger] endpoints[h]).symbol == i ==> h == k) {
        assert(p(endpoints[k]));
        assert(a == seq![endpoints[k]]);
    }
    if 0 <= k < tests.len() && tests[k].symbol == i && (forall|h: int|
        0 <= h < tests.len() && (#[trigger] tests[h]).symbol == i ==> h == k) {
        assert(p(tests[k]));
        assert(b == seq![tests[k]]);
    }
}

// -------------------------------------------------------------------------------- edges

proof fn lemma_with_edges(edges: Seq<EdgeV>, more: Seq<EdgeV>, e: EdgeV)
    ensures
        with_edges(edges, more).contains(e) <==> edges.contains(e) || more.contains(e),
    decreases more.len(),
{
    if more.len() > 0 {
        let init = more.drop_last();
        let last = more.last();
        lemma_with_edges(edges, init, e);
        let a = with_edges(edges, init);
        assert(more =~= init + seq![last]);
        lemma_parts(init, seq![last], e);
        assert(seq![last].contains(e) <==> e == last) by {
            assert(seq![last][0] == last);
        }
        if !a.contains(last) {
            assert(a.push(last) =~= a + seq![last]);
            lemma_parts(a, seq![last], e);
        }
    }
}

/// Where the edges of some symbols are replaced, the new ones are there, and of the old
/// ones those of other symbols.
pub proof fn law_replaced_edges(s: StoreV, from: Seq<Seq<char>>, edges: Seq<EdgeV>, e: EdgeV)
    ensures
        s.replace_edges(from, edges).edges.contains(e) <==> edges.contains(e) || s.edges.contains(e) && !from.contains(
            e.src,
        ),
{
    let p = |x: EdgeV| !from.contains(x.src);
    lemma_filtered(s.edges, p, e);
    lemma_with_edges(s.edges.filter(p), edges, e);
}

/// Is it an import between files of two different services of which the first is in a
/// repository?
pub open spec fn crosses(s: StoreV, repo: Seq<char>, e: EdgeV, x: Seq<char>, y: Seq<char>) -> bool {
    &&& e.kind is Imports
    &&& s.symbol(e.src) matches Some(a) && a.kind is File && a.parent_id == Some(x)
    &&& s.symbol(e.dst) matches Some(b) && b.kind is File && b.parent_id == Some(y)
    &&& x != y
    &&& s.symbol(x) matches Some(c) && c.repo_id == repo
    &&& s.symbol(y) is Some
}

/// Is it an import by a service of a repository?
pub open spec fn by_service(s: StoreV, repo: Seq<char>, e: EdgeV) -> bool {
    e.kind is Imports && (s.symbol(e.src) matches Some(a) && a.kind is Service && a.repo_id == repo)
}

proof fn lemma_rolled_all(s: StoreV, repo: Seq<char>, edges: Seq<EdgeV>, e: EdgeV)
    ensures
        s.rolled_all(repo, edges).contains(e) <==> e.kind is Imports && exists|k: int|
            0 <= k < edges.len() && crosses(s, repo, #[trigger] edges[k], e.src, e.dst),
    decreases edges.len(),
{
    if edges.len() > 0 {
        let init = edges.drop_last();
        let last = edges.len() - 1;
        lemma_rolled_all(s, repo, init, e);
        let a = s.rolled_all(repo, init);
        let mine = match s.rolled(repo, edges.last()) {
            Some(x) => seq![x],
            None => Seq::empty(),
        };
        assert(s.rolled_all(repo, edges) =~= a + mine);
        lemma_parts(a, mine, e);
        if mine.contains(e) {
            assert(crosses(s, repo, edges[last], e.src, e.dst));
        }
        if a.contains(e) {
            let k = choose|k: int| 0 <= k < init.len() && crosses(s, repo, #[trigger] init[k], e.src, e.dst);
            assert(edges[k] == init[k]);
        }
        if e.kind is Imports && exists|k: int|
            0 <= k < edges.len() && crosses(s, repo, #[trigger] edges[k], e.src, e.dst) {
            let k = choose|k: int| 0 <= k < edges.len() && crosses(s, repo, #[trigger] edges[k], e.src, e.dst);
            if k < last {
                assert(init[k] == edges[k]);
            } else {
                assert(mine[0] == e);
            }
        }
    }
}

/// A service imports another where one of its files imports one of the other's; what it
/// was said to import before is forgotten, and every other edge stays.
pub proof fn law_services_import_what_their_files_do(s: StoreV, repo: Seq<char>, e: EdgeV)
    ensures
        s.roll_up(repo).edges.contains(e) <==> s.edges.contains(e) && !by_service(s, repo, e) || e.kind is Imports
            && exists|k: int|
            0 <= k < s.edges.len() && !by_service(s, repo, #[trigger] s.edges[k]) && crosses(
                s,
                repo,
                s.edges[k],
                e.src,
                e.dst,
            ),
{
    let p = |x: EdgeV| !s.is_rolled(repo, x);
    let kept = s.edges.filter(p);
    lemma_filtered(s.edges, p, e);
    lemma_rolled_all(s, repo, kept, e);
    lemma_with_edges(kept, s.rolled_all(repo, kept), e);
    if exists|k: int| 0 <= k < kept.len() && crosses(s, repo, #[trigger] kept[k], e.src, e.dst) {
        let k = choose|k: int| 0 <= k < kept.len() && crosses(s, repo, #[trigger] kept[k], e.src, e.dst);
        assert(kept.contains(kept[k]));
        lemma_filtered(s.edges, p, kept[k]);
        let j = choose|j: int| 0 <= j < s.edges.len() && s.edges[j] == kept[k];
        assert(!by_service(s, repo, s.edges[j]));
    }
    if exists|k: int|
        0 <= k < s.edges.len() && !by_service(s, repo, #[trigger] s.edges[k]) && crosses(
            s,
            repo,
            s.edges[k],
            e.src,
            e.dst,
        ) {
        let k = choose|k: int|
            0 <= k < s.edges.len() && !by_service(s, repo, #[trigger] s.edges[k]) && crosses(
                s,
                repo,
                s.edges[k],
                e.src,
                e.dst,
            );
        assert(s.edges.contains(s.edges[k]));
        lemma_filtered(s.edges, p, s.edges[k]);
        let j = choose|j: int| 0 <= j < kept.len() && kept[j] == s.edges[k];
        assert(crosses(s, repo, kept[j], e.src, e.dst));
    }
}

/// Once an SQL file is written, each of its tables is there, and the file contains it.
pub proof fn law_written_tables_are_there(
    s: StoreV,
    repo: Seq<char>,
    path: Seq<char>,
    source: Seq<u8>,
    hash: Seq<char>,
    defs: Seq<TableDefV>,
    service: Option<Seq<char>>,
    now: i64,
    i: int,
)
    requires
        0 <= i < defs.len(),
        forall|j: int| i < j < defs.len() ==> table_id_of(repo, path, #[trigger] defs[j]) != table_id_of(
            repo,
            path,
            defs[i],
        ),
    ensures
        ({
            let r = s.write_sql(repo, path, source, hash, defs, service, now).0;
            let id = table_id_of(repo, path, defs[i]);
            &&& r.symbol(id) matches Some(y) && y.role == Some(Role::Schema) && y.parent_id == Some(
                file_id_of(repo, path),
            ) && y.start_byte == defs[i].start_byte && y.end_byte == defs[i].end_byte && y.start_line == defs[i].line
                && y.meta == JsonV::Obj(seq![("statement"@, JsonV::Str(defs[i].statement))])
            &&& r.edges.contains((EdgeV { src: file_id_of(repo, path), dst: id, kind: EdgeKind::Contains }))
        }),
{
    let file = file_id_of(repo, path);
    let keep = seq![file] + defs.map_values(|d: TableDefV| table_id_of(repo, path, d));
    let m = s.retire_missing(repo, path, keep, now).0;
    let b = m.upsert(sql_file_row(repo, path, source, hash, defs.len(), service), false);
    let rows = defs.map_values(|d: TableDefV| table_row(repo, path, source, d));
    assert forall|j: int| i < j < rows.len() implies (#[trigger] rows[j]).id != rows[i].id by {
        assert(table_id_of(repo, path, defs[j]) != table_id_of(repo, path, defs[i]));
    }
    lemma_upserts_at(b, rows, i);
    let c = b.upsert_all(rows, false);
    let more = defs.map_values(
        |d: TableDefV| EdgeV { src: file, dst: table_id_of(repo, path, d), kind: EdgeKind::Contains },
    );
    let e = EdgeV { src: file, dst: table_id_of(repo, path, defs[i]), kind: EdgeKind::Contains };
    assert(more[i] == e);
    lemma_with_edges(c.edges, more, e);
}

/// A file that changed, or that is read again whatever its contents, is written as it
/// parses: each of its symbols is there, with the role that was found for it.
pub proof fn law_changed_files_are_written(
    s: StoreV,
    st: ScanStats,
    repo: Seq<char>,
    services: Seq<ServiceV>,
    f: SourceFileV,
    force: bool,
    now: i64,
    bytes: Seq<u8>,
    pf: ParsedFileV,
    i: int,
)
    requires
        f.bytes == Some(bytes),
        force || s.file_hash(repo, f.path) != Some(short_hash(bytes, 16)),
        parse_of(f.path, bytes) == Ok::<ParsedFileV, ParseError>(pf),
        0 <= i < pf.symbols.len(),
        pf.symbols.len() <= usize::MAX,
        forall|j: int|
            i < j < pf.symbols.len() ==> #[trigger] sym_ids(repo, f.path, pf)[j] != sym_ids(repo, f.path, pf)[i],
    ensures
        ({
            let (r, _, done) = s.source_step(st, repo, services, f, force, now);
            &&& r.symbol(sym_ids(repo, f.path, pf)[i]) matches Some(y) && y.start_byte == pf.symbols[i].start_byte
                && y.end_byte == pf.symbols[i].end_byte && y.body_hash == pf.symbols[i].body_hash && y.lang == pf.lang
                && y.role == role_of(f.tests, f.endpoints, i as usize).role
            &&& done matches Some(x) && x.path == f.path && x.parsed == pf && x.source == bytes
        }),
{
    let roles = roles_of(f.tests, f.endpoints, pf.symbols.len());
    let role = if f.test_file {
        Some(Role::Test)
    } else {
        None
    };
    law_written_symbols_are_there(
        s,
        repo,
        f.path,
        pf,
        short_hash(bytes, 16),
        bytes.len() as usize,
        roles,
        role,
        home(repo, f.path, services),
        now,
        i,
    );
}

/// Once files are linked, the edges of the last of them are those that were found for it.
pub proof fn law_linked_files_have_their_edges(s: StoreV, st: ScanStats, repo: Seq<char>, files: Seq<IndexedV>, e: EdgeV)
    requires
        files.len() > 0,
    ensures
        ({
            let m = s.edge_pass(st, repo, files.drop_last()).0;
            let f = files.last();
            let own = sym_ids(repo, f.path, f.parsed).push(file_id_of(repo, f.path));
            s.edge_pass(st, repo, files).0.edges.contains(e) <==> m.edges_of(repo, f).contains(e) || m.edges.contains(e)
                && !own.contains(e.src)
        }),
{
    let m = s.edge_pass(st, repo, files.drop_last()).0;
    let f = files.last();
    law_replaced_edges(
        m,
        sym_ids(repo, f.path, f.parsed).push(file_id_of(repo, f.path)),
        m.edges_of(repo, f),
        e,
    );
}

// ----------------------------------------------------------------------------- services

proof fn lemma_deepest(services: Seq<ServiceV>)
    ensures
        match deepest(services) {
            Some(x) => services.contains(x) && forall|i: int|
                0 <= i < services.len() ==> (#[trigger] services[i]).dir.len() <= x.dir.len(),
            None => services.len() == 0,
        },
    decreases services.len(),
{
    if services.len() > 0 {
        let init = services.drop_last();
        lemma_deepest(init);
        let last = services.len() - 1;
        assert(services[last] == services.last());
        if let Some(x) = deepest(init) {
            let k = choose|k: int| 0 <= k < init.len() && init[k] == x;
            assert(services[k] == x);
            let d = deepest(services)->0;
            assert forall|i: int| 0 <= i < services.len() implies (#[trigger] services[i]).dir.len() <= d.dir.len() by {
                if i < last {
                    assert(init[i] == services[i]);
                }
            }
        }
    }
}

/// A file belongs to the service whose directory holds it, the innermost where several do,
/// and to none where none does. A service without a directory holds everything.
pub proof fn law_files_belong_to_the_innermost_service(path: Seq<char>, services: Seq<ServiceV>, k: int)
    ensures
        match owner_of(path, services) {
            Some(x) => {
                &&& services.contains(x)
                &&& x.dir.len() == 0 || (x.dir + "/"@).is_prefix_of(path)
                &&& 0 <= k < services.len() && (services[k].dir.len() == 0 || (services[k].dir + "/"@).is_prefix_of(path))
                    ==> services[k].dir.len() <= x.dir.len()
            },
            None => 0 <= k < services.len() ==> services[k].dir.len() > 0 && !(services[k].dir + "/"@).is_prefix_of(path),
        },
{
    let p = |x: ServiceV| dir_holds(x.dir, path);
    let kept = services.filter(p);
    lemma_deepest(kept);
    if let Some(x) = owner_of(path, services) {
        lemma_filtered(services, p, x);
    }
    if 0 <= k < services.len() && dir_holds(services[k].dir, path) {
        assert(services.contains(services[k]));
        lemma_filtered(services, p, services[k]);
        let j = choose|j: int| 0 <= j < kept.len() && kept[j] == services[k];
        assert(kept[j].dir.len() <= deepest(kept)->0.dir.len());
    }
}

// -------------------------------------------------------------------------------- files

/// Directories that are not scanned: what is not the team's own source.
pub proof fn law_skipped_directories(name: Seq<char>)
    ensures
        skipped_names().contains(name) <==> name == ".golab"@ || name == ".git"@ || name == "node_modules"@ || name
            == "target"@ || name == "dist"@ || name == "build"@ || name == "__pycache__"@ || name == ".venv"@,
{
    let all = skipped_names();
    assert(all[0] == ".golab"@ && all[1] == ".git"@ && all[2] == "node_modules"@ && all[3] == "target"@);
    assert(all[4] == "dist"@ && all[5] == "build"@ && all[6] == "__pycache__"@ && all[7] == ".venv"@);
}

/// An SQL file is one whose name ends so, in capitals or not.
pub proof fn law_sql_files(p: Seq<char>)
    ensures
        is_sql(p + ".sql"@),
        is_sql(p + ".SQL"@),
        !is_sql(p + ".py"@),
{
    reveal_strlit(".sql");
    reveal_strlit(".SQL");
    reveal_strlit(".py");
    let a = ascii_lower(p + ".sql"@);
    let b = ascii_lower(p + ".SQL"@);
    let c = ascii_lower(p + ".py"@);
    assert(a.skip(a.len() - 4) =~= ".sql"@);
    assert(b.skip(b.len() - 4) =~= ".sql"@);
    assert(c.last() == 'y');
    if ".sql"@.is_suffix_of(c) {
        assert(c.skip(c.len() - 4)[3] == 'l');
    }
}

} // verus!
