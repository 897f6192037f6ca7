//! Writing what a scan found into the graph.
//!
//! Indexing is lease-aware: where an indexed symbol disappears, a lease on it is
//! retired with an event rather than left dangling.

use vstd::prelude::*;
use vstd::string::*;

use crate::ids::{content_hash, file_symbol_id, short_hash, symbol_id, symbol_id_of};
use crate::json::{Json, JsonV};
use crate::lease::finished;
use crate::model::{
    Edge, EdgeKind, EdgeV, LeaseState, Role, Symbol, SymbolKind, SymbolV,
};
use crate::parse::{links_ok, ParsedFile, ParsedFileV, ParsedSymbol, ParsedSymbolV};
use crate::rows::{change, each, keep};
use crate::sql::{holds_text, line_feeds, TableDef, TableDefV};
use crate::store::{append, lease_ok, no_rows, LeaseRow, LeaseRowV, Store, StoreV};
use crate::text::{after_last, cat3, last_piece, same, same_opt, starts_with};

verus! {

broadcast use vstd::string::group_string_axioms;

/// A deployable or publishable unit, as its manifest declares it.
#[derive(Debug)]
pub struct Service {
    pub name: String,
    /// The path of the manifest.
    pub manifest: String,
    pub ecosystem: String,
    /// The directory that it owns; empty for the root.
    pub dir: String,
}

/// The contents of a [`Service`].
pub struct ServiceV {
    pub name: Seq<char>,
    pub manifest: Seq<char>,
    pub ecosystem: Seq<char>,
    pub dir: Seq<char>,
}

impl DeepView for Service {
    type V = ServiceV;

    open spec fn deep_view(&self) -> ServiceV {
        ServiceV {
            name: self.name@,
            manifest: self.manifest@,
            ecosystem: self.ecosystem@,
            dir: self.dir@,
        }
    }
}

impl Clone for Service {
    fn clone(&self) -> (r: Self)
        ensures
            r.deep_view() == self.deep_view(),
    {
        let r = Service {
            name: self.name.clone(),
            manifest: self.manifest.clone(),
            ecosystem: self.ecosystem.clone(),
            dir: self.dir.clone(),
        };
        r
    }
}

/// What a symbol is for, with the detail.
#[derive(Debug)]
pub struct RoleOf {
    pub role: Option<Role>,
    pub meta: Json,
}

/// The contents of a [`RoleOf`].
pub struct RoleOfV {
    pub role: Option<Role>,
    pub meta: JsonV,
}

impl DeepView for RoleOf {
    type V = RoleOfV;

    open spec fn deep_view(&self) -> RoleOfV {
        RoleOfV {
            role: self.role,
            meta: self.meta.deep_view(),
        }
    }
}

impl Clone for RoleOf {
    fn clone(&self) -> (r: Self)
        ensures
            r.deep_view() == self.deep_view(),
    {
        let r = RoleOf {
            role: self.role,
            meta: self.meta.clone(),
        };
        r
    }
}

impl crate::rows::Row for Service {
    fn copy(&self) -> (r: Self) {
        self.clone()
    }
}

// ------------------------------------------------------------------- services

/// The id of a service's symbol.
pub open spec fn service_id_of(repo: Seq<char>, s: ServiceV) -> Seq<char> {
    symbol_id_of(repo, s.manifest, SymbolKind::Service, s.name, 0)
}

/// The id of a service's symbol.
pub fn service_id(repo_id: &str, s: &Service) -> (r: String)
    ensures
        r@ == service_id_of(repo_id@, s.deep_view()),
{
    symbol_id(repo_id, s.manifest.as_str(), SymbolKind::Service, s.name.as_str(), 0)
}

/// Does a directory hold a path? The root holds every one.
pub open spec fn dir_holds(dir: Seq<char>, path: Seq<char>) -> bool {
    dir.len() == 0 || (dir + "/"@).is_prefix_of(path)
}

/// The last of the services with the longest directory.
pub open spec fn deepest(services: Seq<ServiceV>) -> Option<ServiceV>
    decreases services.len(),
{
    if services.len() == 0 {
        None
    } else {
        match deepest(services.drop_last()) {
            Some(s) => if services.last().dir.len() >= s.dir.len() {
                Some(services.last())
            } else {
                Some(s)
            },
            None => Some(services.last()),
        }
    }
}

/// The service that a path belongs to: of those whose directory holds it, the
/// deepest.
pub open spec fn owner_of(path: Seq<char>, services: Seq<ServiceV>) -> Option<ServiceV> {
    deepest(services.filter(|s: ServiceV| dir_holds(s.dir, path)))
}

/// The service around a service.
pub open spec fn service_parent(s: ServiceV, services: Seq<ServiceV>) -> Option<ServiceV> {
    deepest(
        services.filter(|p: ServiceV| p.dir.len() < s.dir.len() && dir_holds(p.dir, s.dir)),
    )
}

fn find_deepest(services: &Vec<Service>) -> (r: Option<Service>)
    ensures
        r.deep_view() == deepest(services.deep_view()),
{
    let ghost all = services.deep_view();
    let mut best: Option<usize> = None;
    let mut i: usize = 0;
    while i < services.len()
        invariant
            all == services.deep_view(),
            i <= services@.len(),
            match best {
                Some(k) => k < i && deepest(all.take(i as int)) == Some(
                    services@[k as int].deep_view(),
                ),
                None => deepest(all.take(i as int)) is None,
            },
        decreases services@.len() - i,
    {
        proof {
            assert(all.take(i + 1).drop_last() =~= all.take(i as int));
            assert(all.take(i + 1).last() == services@[i as int].deep_view());
        }
        match best {
            Some(k) => {
                if crate::text::chars_of(services[i].dir.as_str()).len() >= crate::text::chars_of(
                    services[k].dir.as_str(),
                ).len() {
                    best = Some(i);
                }
            },
            None => {
                best = Some(i);
            },
        }
        i += 1;
    }
    assert(all.take(i as int) =~= all);
    match best {
        Some(k) => Some(services[k].clone()),
        None => None,
    }
}

fn holds_path(dir: &str, path: &str) -> (r: bool)
    ensures
        r == dir_holds(dir@, path@),
{
    dir.is_empty() || starts_with(path, crate::text::cat(dir, "/").as_str())
}

/// The service that a path belongs to.
pub fn service_for(path: &str, services: &Vec<Service>) -> (r: Option<Service>)
    ensures
        r.deep_view() == owner_of(path@, services.deep_view()),
{
    let test = |s: &Service| -> (b: bool)
        ensures b == dir_holds(s.deep_view().dir, path@)
    {
        holds_path(s.dir.as_str(), path)
    };
    find_deepest(&keep(services, test, Ghost(|s: ServiceV| dir_holds(s.dir, path@))))
}

/// The service around a service.
pub fn parent_service(s: &Service, services: &Vec<Service>) -> (r: Option<Service>)
    ensures
        r.deep_view() == service_parent(s.deep_view(), services.deep_view()),
{
    let test = |p: &Service| -> (b: bool)
        ensures b == (p.deep_view().dir.len() < s.dir@.len() && dir_holds(p.deep_view().dir, s.dir@))
    {
        crate::text::chars_of(p.dir.as_str()).len() < crate::text::chars_of(s.dir.as_str()).len()
            && holds_path(p.dir.as_str(), s.dir.as_str())
    };
    find_deepest(
        &keep(
            services,
            test,
            Ghost(|p: ServiceV| p.dir.len() < s.dir@.len() && dir_holds(p.dir, s.dir@)),
        ),
    )
}

/// The symbol of a service.
pub open spec fn service_row(repo: Seq<char>, s: ServiceV, services: Seq<ServiceV>) -> SymbolV {
    SymbolV {
        id: service_id_of(repo, s),
        path: s.manifest,
        lang: s.ecosystem,
        kind: SymbolKind::Service,
        name: s.name,
        fqn: s.name,
        parent_id: match service_parent(s, services) {
            Some(p) => Some(service_id_of(repo, p)),
            None => None,
        },
        start_byte: 0,
        end_byte: 0,
        start_line: 0,
        end_line: 0,
        body_hash: Seq::empty(),
        own_hash: Seq::empty(),
        role: Some(Role::Service),
        meta: JsonV::Obj(
            seq![("ecosystem"@, JsonV::Str(s.ecosystem)), ("dir"@, JsonV::Str(s.dir))],
        ),
        repo_id: repo,
    }
}

// ------------------------------------------------------------------------ rows

/// The ids of a file's symbols, in the order of the file.
pub open spec fn sym_ids(repo: Seq<char>, path: Seq<char>, pf: ParsedFileV) -> Seq<Seq<char>> {
    pf.symbols.map_values(
        |s: ParsedSymbolV| symbol_id_of(repo, path, s.kind, s.fqn, s.disambiguator),
    )
}

/// The id of a file's own symbol.
pub open spec fn file_id_of(repo: Seq<char>, path: Seq<char>) -> Seq<char> {
    symbol_id_of(repo, path, SymbolKind::File, path, 0)
}

/// The symbol of a source file.
pub open spec fn file_row(
    repo: Seq<char>,
    path: Seq<char>,
    pf: ParsedFileV,
    hash: Seq<char>,
    size: usize,
    role: Option<Role>,
    service: Option<Seq<char>>,
) -> SymbolV {
    SymbolV {
        id: file_id_of(repo, path),
        path,
        lang: pf.lang,
        kind: SymbolKind::File,
        name: after_last(path, '/'),
        fqn: path,
        parent_id: service,
        start_byte: 0,
        end_byte: size,
        start_line: 0,
        end_line: if pf.symbols.len() > 0 {
            pf.symbols.last().end_line
        } else {
            0
        },
        body_hash: hash,
        own_hash: pf.own_hash,
        role,
        meta: JsonV::Obj(Seq::empty()),
        repo_id: repo,
    }
}

/// The symbol of a symbol in a source file.
pub open spec fn symbol_row(
    repo: Seq<char>,
    path: Seq<char>,
    pf: ParsedFileV,
    roles: Seq<RoleOfV>,
    i: int,
) -> SymbolV {
    let s = pf.symbols[i];
    SymbolV {
        id: sym_ids(repo, path, pf)[i],
        path,
        lang: pf.lang,
        kind: s.kind,
        name: s.name,
        fqn: s.fqn,
        parent_id: Some(parent_in(repo, path, pf, i)),
        start_byte: s.start_byte,
        end_byte: s.end_byte,
        start_line: s.start_line,
        end_line: s.end_line,
        body_hash: s.body_hash,
        own_hash: s.own_hash,
        role: roles[i].role,
        meta: roles[i].meta,
        repo_id: repo,
    }
}

/// The id that a symbol of a file has, by its number; the file's own where there is
/// no such symbol.
pub open spec fn id_in(repo: Seq<char>, path: Seq<char>, pf: ParsedFileV, at: Option<usize>) -> Seq<char> {
    match at {
        Some(p) => if p < pf.symbols.len() {
            sym_ids(repo, path, pf)[p as int]
        } else {
            file_id_of(repo, path)
        },
        None => file_id_of(repo, path),
    }
}

/// What contains a symbol: another symbol of the file, or the file.
pub open spec fn parent_in(repo: Seq<char>, path: Seq<char>, pf: ParsedFileV, i: int) -> Seq<char> {
    id_in(repo, path, pf, pf.symbols[i].parent)
}

/// The symbol of an SQL file.
pub open spec fn sql_file_row(
    repo: Seq<char>,
    path: Seq<char>,
    source: Seq<u8>,
    hash: Seq<char>,
    tables: nat,
    service: Option<Seq<char>>,
) -> SymbolV {
    SymbolV {
        id: file_id_of(repo, path),
        path,
        lang: "sql"@,
        kind: SymbolKind::File,
        name: after_last(path, '/'),
        fqn: path,
        parent_id: service,
        start_byte: 0,
        end_byte: source.len() as usize,
        start_line: 0,
        end_line: line_feeds(source) as usize,
        body_hash: hash,
        own_hash: hash,
        role: Some(Role::Schema),
        meta: JsonV::Obj(seq![("tables"@, JsonV::Int(shown(tables)))]),
        repo_id: repo,
    }
}

/// The text of a declaration; nothing where it does not lie inside the source.
pub open spec fn span(source: Seq<u8>, start: usize, end: usize) -> Seq<u8> {
    if start <= end <= source.len() {
        source.subrange(start as int, end as int)
    } else {
        Seq::empty()
    }
}

/// The id of a table's symbol.
pub open spec fn table_id_of(repo: Seq<char>, path: Seq<char>, d: TableDefV) -> Seq<char> {
    symbol_id_of(repo, path, SymbolKind::Table, d.name, 0)
}

/// The symbol of a table.
pub open spec fn table_row(repo: Seq<char>, path: Seq<char>, source: Seq<u8>, d: TableDefV) -> SymbolV {
    let hash = short_hash(span(source, d.start_byte, d.end_byte), 16);
    SymbolV {
        id: table_id_of(repo, path, d),
        path,
        lang: "sql"@,
        kind: SymbolKind::Table,
        name: d.name,
        fqn: d.name,
        parent_id: Some(file_id_of(repo, path)),
        start_byte: d.start_byte,
        end_byte: d.end_byte,
        start_line: d.line,
        end_line: d.line,
        body_hash: hash,
        own_hash: hash,
        role: Some(Role::Schema),
        meta: JsonV::Obj(seq![("statement"@, JsonV::Str(d.statement))]),
        repo_id: repo,
    }
}

/// A symbol that was there, as it is now. What its id is made of stays.
pub open spec fn refreshed(old: SymbolV, new: SymbolV) -> SymbolV {
    SymbolV {
        id: old.id,
        path: old.path,
        kind: old.kind,
        name: old.name,
        fqn: old.fqn,
        repo_id: old.repo_id,
        ..new
    }
}

/// A service that was there, as it is now.
pub open spec fn refreshed_service(old: SymbolV, new: SymbolV) -> SymbolV {
    SymbolV { parent_id: new.parent_id, meta: new.meta, ..old }
}

/// The edges with one more, unless it is there.
pub open spec fn with_edge(edges: Seq<EdgeV>, e: EdgeV) -> Seq<EdgeV> {
    if edges.contains(e) {
        edges
    } else {
        edges.push(e)
    }
}

/// The edges with some more, each unless it is there.
pub open spec fn with_edges(edges: Seq<EdgeV>, more: Seq<EdgeV>) -> Seq<EdgeV>
    decreases more.len(),
{
    if more.len() == 0 {
        edges
    } else {
        with_edge(with_edges(edges, more.drop_last()), more.last())
    }
}

impl StoreV {
    /// The state with a symbol written: a new one is added, one that was there is
    /// brought up to date.
    pub open spec fn upsert(self, row: SymbolV, service: bool) -> StoreV {
        StoreV {
            symbols: if self.symbol(row.id) is Some {
                self.symbols.map_values(
                    |s: SymbolV|
                        if s.id != row.id {
                            s
                        } else if service {
                            refreshed_service(s, row)
                        } else {
                            refreshed(s, row)
                        },
                )
            } else {
                self.symbols.push(row)
            },
            ..self
        }
    }

    /// The state with several symbols written.
    pub open spec fn upsert_all(self, rows: Seq<SymbolV>, service: bool) -> StoreV
        decreases rows.len(),
    {
        if rows.len() == 0 {
            self
        } else {
            self.upsert_all(rows.drop_last(), service).upsert(rows.last(), service)
        }
    }

    /// The state once leases are retired because their symbol is gone.
    pub open spec fn retire_each(
        self,
        rows: Seq<LeaseRowV>,
        handle: Seq<char>,
        reason: Seq<char>,
        now: i64,
    ) -> StoreV
        decreases rows.len(),
    {
        if rows.len() == 0 {
            self
        } else {
            let l = rows.last();
            self.retire_each(rows.drop_last(), handle, reason, now).with_lease(
                l.id,
                |x: LeaseRowV| finished(x, LeaseState::Expired, now),
            ).emit(
                now,
                "lease.dropped"@,
                Some(l.agent),
                Some(handle),
                l.task,
                JsonV::Obj(
                    seq![("lease"@, JsonV::Str(l.id)), ("reason"@, JsonV::Str(reason))],
                ),
            )
        }
    }

    /// The state once a symbol's leases are retired.
    pub open spec fn retire_leases_on(
        self,
        symbol: Seq<char>,
        handle: Seq<char>,
        reason: Seq<char>,
        now: i64,
    ) -> StoreV {
        self.retire_each(self.active_on(symbol), handle, reason, now)
    }

    /// The state without a symbol and its edges.
    pub open spec fn without_symbol(self, id: Seq<char>) -> StoreV {
        StoreV {
            edges: self.edges.filter(|e: EdgeV| e.src != id && e.dst != id),
            symbols: self.symbols.filter(|s: SymbolV| s.id != id),
            ..self
        }
    }

    /// The symbols of a file that are no longer in it.
    pub open spec fn missing(self, repo: Seq<char>, path: Seq<char>, keep: Seq<Seq<char>>) -> Seq<
        SymbolV,
    > {
        self.symbols.filter(
            |s: SymbolV|
                s.repo_id == repo && s.path == path && !(s.kind is Service) && !keep.contains(s.id),
        )
    }

    /// Dropping symbols that are gone: their leases first. Gives how many leases
    /// were dropped.
    pub open spec fn drop_symbols(self, rows: Seq<SymbolV>, now: i64) -> (StoreV, nat)
        decreases rows.len(),
    {
        if rows.len() == 0 {
            (self, 0)
        } else {
            let (s, n) = self.drop_symbols(rows.drop_last(), now);
            let x = rows.last();
            (
                s.retire_leases_on(
                    x.id,
                    x.path + ":"@ + x.fqn,
                    "symbol removed"@,
                    now,
                ).without_symbol(x.id),
                n + s.active_on(x.id).len(),
            )
        }
    }

    /// Dropping the symbols of a file that are no longer in it.
    pub open spec fn retire_missing(
        self,
        repo: Seq<char>,
        path: Seq<char>,
        keep: Seq<Seq<char>>,
        now: i64,
    ) -> (StoreV, nat) {
        self.drop_symbols(self.missing(repo, path, keep), now)
    }

    /// Writing a source file: what is gone is dropped, the rest is brought up to
    /// date. Gives how many leases were dropped.
    pub open spec fn write_file(
        self,
        repo: Seq<char>,
        path: Seq<char>,
        pf: ParsedFileV,
        hash: Seq<char>,
        size: usize,
        roles: Seq<RoleOfV>,
        role: Option<Role>,
        service: Option<Seq<char>>,
        now: i64,
    ) -> (StoreV, nat) {
        let keep = seq![file_id_of(repo, path)] + sym_ids(repo, path, pf);
        let (s, n) = self.retire_missing(repo, path, keep, now);
        (
            s.upsert(file_row(repo, path, pf, hash, size, role, service), false).upsert_all(
                Seq::new(pf.symbols.len(), |i: int| symbol_row(repo, path, pf, roles, i)),
                false,
            ),
            n,
        )
    }

    /// Writing an SQL file: the file, a symbol for each table, and edges to them.
    pub open spec fn write_sql(
        self,
        repo: Seq<char>,
        path: Seq<char>,
        source: Seq<u8>,
        hash: Seq<char>,
        defs: Seq<TableDefV>,
        service: Option<Seq<char>>,
        now: i64,
    ) -> (StoreV, nat) {
        let file = file_id_of(repo, path);
        let keep = seq![file] + defs.map_values(|d: TableDefV| table_id_of(repo, path, d));
        let (s, n) = self.retire_missing(repo, path, keep, now);
        let s = s.upsert(
            sql_file_row(repo, path, source, hash, defs.len(), service),
            false,
        ).upsert_all(defs.map_values(|d: TableDefV| table_row(repo, path, source, d)), false);
        (
            StoreV {
                edges: with_edges(
                    s.edges,
                    defs.map_values(
                        |d: TableDefV|
                            EdgeV {
                                src: file,
                                dst: table_id_of(repo, path, d),
                                kind: EdgeKind::Contains,
                            },
                    ),
                ),
                ..s
            },
            n,
        )
    }

    /// Writing services.
    pub open spec fn write_services(self, repo: Seq<char>, services: Seq<ServiceV>) -> StoreV {
        self.upsert_all(
            services.map_values(|s: ServiceV| service_row(repo, s, services)),
            true,
        )
    }

    /// The services of a repository whose manifest is gone.
    pub open spec fn dead_services(self, repo: Seq<char>, live: Seq<Seq<char>>) -> Seq<SymbolV> {
        self.symbols.filter(
            |s: SymbolV| s.kind is Service && s.repo_id == repo && !live.contains(s.path),
        )
    }

    /// The state without some services; what they held has no service any more.
    pub open spec fn drop_services(self, rows: Seq<SymbolV>, now: i64) -> StoreV
        decreases rows.len(),
    {
        if rows.len() == 0 {
            self
        } else {
            let x = rows.last();
            let s = self.drop_services(rows.drop_last(), now).retire_leases_on(
                x.id,
                x.path,
                "service removed"@,
                now,
            );
            StoreV {
                symbols: s.symbols.map_values(
                    |y: SymbolV|
                        if y.parent_id == Some(x.id) {
                            SymbolV { parent_id: None, ..y }
                        } else {
                            y
                        },
                ),
                ..s
            }.without_symbol(x.id)
        }
    }

    /// Dropping the services whose manifest is gone.
    pub open spec fn prune_services(self, repo: Seq<char>, live: Seq<Seq<char>>, now: i64) -> StoreV {
        self.drop_services(self.dead_services(repo, live), now)
    }

    /// Forgetting a file.
    pub open spec fn remove_file(self, repo: Seq<char>, path: Seq<char>, now: i64) -> (StoreV, nat) {
        let (s, n) = self.retire_missing(repo, path, Seq::empty(), now);
        (
            s.emit(
                now,
                "file.removed"@,
                None,
                Some(path),
                None,
                JsonV::Obj(seq![("path"@, JsonV::Str(path))]),
            ),
            n,
        )
    }

    /// The files of a repository that are in the graph, in text order.
    pub open spec fn indexed_files(self, repo: Seq<char>) -> Seq<Seq<char>> {
        crate::order::sorted_texts(
            self.symbols.filter(|s: SymbolV| s.kind is File && s.repo_id == repo).map_values(
                |s: SymbolV| s.path,
            ),
        )
    }

    /// The hash of a file's contents when it was indexed.
    pub open spec fn file_hash(self, repo: Seq<char>, path: Seq<char>) -> Option<Seq<char>> {
        match self.symbol(file_id_of(repo, path)) {
            Some(s) => Some(s.body_hash),
            None => None,
        }
    }

    /// The services of a repository that are in the graph.
    pub open spec fn known_services(self, repo: Seq<char>) -> Seq<ServiceV> {
        self.symbols.filter(|s: SymbolV| s.kind is Service && s.repo_id == repo).map_values(
            |s: SymbolV|
                ServiceV {
                    name: s.name,
                    manifest: s.path,
                    ecosystem: s.lang,
                    dir: match s.meta.text_at("dir"@) {
                        Some(d) => d,
                        None => Seq::empty(),
                    },
                },
        )
    }

    /// The state with the edges out of some symbols replaced.
    pub open spec fn replace_edges(self, from: Seq<Seq<char>>, edges: Seq<EdgeV>) -> StoreV {
        StoreV {
            edges: with_edges(self.edges.filter(|e: EdgeV| !from.contains(e.src)), edges),
            ..self
        }
    }

    /// The edge out of a service of this repository that an edge between files stands
    /// for.
    pub open spec fn rolled(self, repo: Seq<char>, e: EdgeV) -> Option<EdgeV> {
        match (self.symbol(e.src), self.symbol(e.dst)) {
            (Some(a), Some(b)) => match (a.parent_id, b.parent_id) {
                (Some(x), Some(y)) => if e.kind is Imports && a.kind is File && b.kind is File && x != y
                    && self.is_in(repo, x) && self.symbol(y) is Some {
                    Some(EdgeV { src: x, dst: y, kind: EdgeKind::Imports })
                } else {
                    None
                },
                _ => None,
            },
            _ => None,
        }
    }

    /// Is there a symbol with this id in the repository?
    pub open spec fn is_in(self, repo: Seq<char>, id: Seq<char>) -> bool {
        self.symbol(id) matches Some(s) && s.repo_id == repo
    }

    /// The edges between services that edges between files stand for.
    pub open spec fn rolled_all(self, repo: Seq<char>, edges: Seq<EdgeV>) -> Seq<EdgeV>
        decreases edges.len(),
    {
        if edges.len() == 0 {
            Seq::empty()
        } else {
            match self.rolled(repo, edges.last()) {
                Some(x) => self.rolled_all(repo, edges.drop_last()).push(x),
                None => self.rolled_all(repo, edges.drop_last()),
            }
        }
    }

    /// Is the edge one that rolling up this repository made?
    pub open spec fn is_rolled(self, repo: Seq<char>, e: EdgeV) -> bool {
        e.kind is Imports && (self.symbol(e.src) matches Some(s) && s.kind is Service && s.repo_id
            == repo)
    }

    /// A file importing another makes its service depend on the other's. Only the
    /// services of one repository are gone through.
    pub open spec fn roll_up(self, repo: Seq<char>) -> StoreV {
        let kept = self.edges.filter(|e: EdgeV| !self.is_rolled(repo, e));
        StoreV { edges: with_edges(kept, self.rolled_all(repo, kept)), ..self }
    }

    /// How many edges rolling up makes.
    pub open spec fn roll_up_count(self, repo: Seq<char>) -> nat {
        let kept = self.edges.filter(|e: EdgeV| !self.is_rolled(repo, e));
        (self.roll_up(repo).edges.len() - kept.len()) as nat
    }
}

// ---------------------------------------------------------------- the operations

/// Is the edge there?
pub(crate) fn has_edge(edges: &Vec<Edge>, e: &Edge) -> (r: bool)
    ensures
        r == edges.deep_view().contains(e.deep_view()),
{
    let mut i: usize = 0;
    while i < edges.len()
        invariant
            i <= edges@.len(),
            forall|k: int| 0 <= k < i ==> (#[trigger] edges.deep_view()[k]) != e.deep_view(),
        decreases edges@.len() - i,
    {
        let x = &edges[i];
        assert(edges.deep_view()[i as int] == x.deep_view());
        if same(x.src.as_str(), e.src.as_str()) && same(x.dst.as_str(), e.dst.as_str()) && x.kind == e.kind {
            return true;
        }
        i += 1;
    }
    assert(edges@.len() == edges.deep_view().len());
    false
}

/// Adds edges, each unless it is there.
pub(crate) fn add_edges(edges: &mut Vec<Edge>, more: &Vec<Edge>)
    ensures
        final(edges).deep_view() == with_edges(old(edges).deep_view(), more.deep_view()),
{
    let ghost before = edges.deep_view();
    let ghost all = more.deep_view();
    let mut i: usize = 0;
    while i < more.len()
        invariant
            all == more.deep_view(),
            i <= more@.len(),
            edges.deep_view() == with_edges(before, all.take(i as int)),
        decreases more@.len() - i,
    {
        proof {
            assert(all.take(i + 1).drop_last() =~= all.take(i as int));
            assert(all.take(i + 1).last() == more@[i as int].deep_view());
        }
        if !has_edge(edges, &more[i]) {
            append(edges, more[i].clone());
        }
        i += 1;
    }
    assert(all.take(i as int) =~= all);
}

fn line_feeds_in(source: &[u8]) -> (n: usize)
    ensures
        n == line_feeds(source@) as usize,
{
    let mut n: usize = 0;
    let mut i: usize = 0;
    let len = source.len();
    while i < len
        invariant
            len == source@.len(),
            i <= len,
            n <= i,
            n == line_feeds(source@.take(i as int)),
        decreases len - i,
    {
        proof {
            assert(source@.take(i + 1).drop_last() =~= source@.take(i as int));
            assert(source@.take(i + 1).last() == source@[i as int]);
        }
        if source[i] == 10u8 {
            n += 1;
        }
        i += 1;
    }
    assert(source@.take(i as int) =~= source@);
    n
}

/// The ids of a file's symbols.
pub(crate) fn ids_in(repo_id: &str, path: &str, pf: &ParsedFile) -> (r: Vec<String>)
    ensures
        r.deep_view() == sym_ids(repo_id@, path@, pf.deep_view()),
{
    let id = |s: &ParsedSymbol| -> (x: String)
        ensures x.deep_view() == symbol_id_of(repo_id@, path@, s.deep_view().kind, s.deep_view().fqn, s.deep_view().disambiguator)
    {
        symbol_id(repo_id, path, s.kind, s.fqn.as_str(), s.disambiguator)
    };
    each(
        &pf.symbols,
        id,
        Ghost(
            |s: ParsedSymbolV| symbol_id_of(repo_id@, path@, s.kind, s.fqn, s.disambiguator),
        ),
    )
}

impl Store {
    fn upsert(&mut self, row: Symbol, service: bool)
        ensures
            final(self)@ == old(self)@.upsert(row.deep_view(), service),
    {
        if self.symbol_at(row.id.as_str()).is_none() {
            append(&mut self.symbols, row);
            return ;
        }
        let update = |s: &Symbol| -> (x: Symbol)
            ensures x.deep_view() == (if s.deep_view().id != row.deep_view().id {
                s.deep_view()
            } else if service {
                refreshed_service(s.deep_view(), row.deep_view())
            } else {
                refreshed(s.deep_view(), row.deep_view())
            })
        {
            if !same(s.id.as_str(), row.id.as_str()) {
                s.clone()
            } else if service {
                let mut x = s.clone();
                x.parent_id = row.parent_id.clone();
                x.meta = row.meta.clone();
                x
            } else {
                let mut x = row.clone();
                x.id = s.id.clone();
                x.path = s.path.clone();
                x.kind = s.kind;
                x.name = s.name.clone();
                x.fqn = s.fqn.clone();
                x.repo_id = s.repo_id.clone();
                x
            }
        };
        change(
            &mut self.symbols,
            update,
            Ghost(
                |s: SymbolV|
                    if s.id != row.deep_view().id {
                        s
                    } else if service {
                        refreshed_service(s, row.deep_view())
                    } else {
                        refreshed(s, row.deep_view())
                    },
            ),
        );
    }

    fn retire_leases_on(&mut self, symbol: &str, handle: &str, reason: &str, now: i64) -> (n: usize)
        ensures
            final(self)@ == old(self)@.retire_leases_on(symbol@, handle@, reason@, now),
            n == old(self)@.active_on(symbol@).len(),
    {
        let ghost s0 = self@;
        let rows = self.active_on(symbol);
        let ghost all = rows.deep_view();
        let mut i: usize = 0;
        while i < rows.len()
            invariant
                all == rows.deep_view(),
                i <= rows@.len(),
                self@ == s0.retire_each(all.take(i as int), handle@, reason@, now),
            decreases rows@.len() - i,
        {
            let l = &rows[i];
            proof {
                assert(all.take(i + 1).drop_last() =~= all.take(i as int));
                assert(all.take(i + 1).last() == l.deep_view());
            }
            let end = |x: &LeaseRow| -> (y: LeaseRow)
                ensures y.deep_view() == (if x.deep_view().id == l.id@ {
                    finished(x.deep_view(), LeaseState::Expired, now)
                } else {
                    x.deep_view()
                })
            {
                let mut y = x.clone();
                if same(x.id.as_str(), l.id.as_str()) {
                    y.state = LeaseState::Expired;
                    y.released_at = Some(now);
                }
                y
            };
            let ghost f = |x: LeaseRowV| finished(x, LeaseState::Expired, now);
            let ghost s1 = self@;
            change(
                &mut self.leases,
                end,
                Ghost(
                    |x: LeaseRowV|
                        if x.id == l.id@ {
                            f(x)
                        } else {
                            x
                        },
                ),
            );
            assert(self@ == s1.with_lease(l.id@, f));
            let detail = Json::object().with("lease", Json::str(l.id.as_str())).with(
                "reason",
                Json::str(reason),
            );
            assert(detail.deep_view()->Obj_0 =~= seq![
                ("lease"@, JsonV::Str(l.id@)),
                ("reason"@, JsonV::Str(reason@)),
            ]);
            self.emit(
                now,
                "lease.dropped",
                Some(l.agent.clone()),
                Some(handle.to_owned()),
                l.task.clone(),
                detail,
            );
            i += 1;
        }
        assert(all.take(i as int) =~= all);
        rows.len()
    }

    fn without_symbol(&mut self, id: &str)
        ensures
            final(self)@ == old(self)@.without_symbol(id@),
    {
        let apart = |e: &Edge| -> (b: bool)
            ensures b == (e.deep_view().src != id@ && e.deep_view().dst != id@)
        {
            !same(e.src.as_str(), id) && !same(e.dst.as_str(), id)
        };
        let other = |s: &Symbol| -> (b: bool)
            ensures b == (s.deep_view().id != id@)
        {
            !same(s.id.as_str(), id)
        };
        let edges = keep(&self.edges, apart, Ghost(|e: EdgeV| e.src != id@ && e.dst != id@));
        let symbols = keep(&self.symbols, other, Ghost(|s: SymbolV| s.id != id@));
        self.edges = edges;
        self.symbols = symbols;
    }

    /// Drops the symbols of a file that are no longer in it, their leases first;
    /// tells how many leases that were.
    fn retire_missing(&mut self, repo_id: &str, path: &str, kept: &Vec<String>, now: i64) -> (n: usize)
        requires
            old(self)@.wf(),
        ensures
            ({
                let (s, m) = old(self)@.retire_missing(repo_id@, path@, kept.deep_view(), now);
                final(self)@ == s && n == saturated(m) && s.wf() && s.leases.len()
                    == old(self)@.leases.len()
            }),
    {
        let ghost s0 = self@;
        let gone = |s: &Symbol| -> (b: bool)
            ensures b == (s.deep_view().repo_id == repo_id@ && s.deep_view().path == path@ && !(s.deep_view().kind is Service) && !kept.deep_view().contains(s.deep_view().id))
        {
            same(s.repo_id.as_str(), repo_id) && same(s.path.as_str(), path) && s.kind
                != SymbolKind::Service && !holds_text(kept, s.id.as_str())
        };
        let rows = keep(
            &self.symbols,
            gone,
            Ghost(
                |s: SymbolV|
                    s.repo_id == repo_id@ && s.path == path@ && !(s.kind is Service)
                        && !kept.deep_view().contains(s.id),
            ),
        );
        let ghost all = rows.deep_view();
        let mut n: usize = 0;
        let mut i: usize = 0;
        while i < rows.len()
            invariant
                all == rows.deep_view(),
                i <= rows@.len(),
                self@.wf(),
                self@.leases.len() == s0.leases.len(),
                self@ == s0.drop_symbols(all.take(i as int), now).0,
                n == saturated(s0.drop_symbols(all.take(i as int), now).1),
            decreases rows@.len() - i,
        {
            let x = &rows[i];
            proof {
                assert(all.take(i + 1).drop_last() =~= all.take(i as int));
                assert(all.take(i + 1).last() == x.deep_view());
                lemma_retire_keeps(
                    self@,
                    self@.active_on(x.id@),
                    x.path@ + ":"@ + x.fqn@,
                    "symbol removed"@,
                    now,
                );
            }
            let handle = cat3(x.path.as_str(), ":", x.fqn.as_str());
            let m = self.retire_leases_on(x.id.as_str(), handle.as_str(), "symbol removed", now);
            n = sum(n, m);
            self.without_symbol(x.id.as_str());
            i += 1;
        }
        assert(all.take(i as int) =~= all);
        n
    }

    /// Writes one source file's symbols, replacing whatever was there before; tells
    /// how many leases were dropped.
    pub(crate) fn write_file(
        &mut self,
        repo_id: &str,
        path: &str,
        pf: &ParsedFile,
        hash: &str,
        size: usize,
        roles: &Vec<RoleOf>,
        role: Option<Role>,
        service: &Option<String>,
        now: i64,
    ) -> (n: usize)
        requires
            old(self)@.wf(),
            links_ok(pf.deep_view()),
            roles@.len() == pf.symbols@.len(),
        ensures
            ({
                let (s, m) = old(self)@.write_file(
                    repo_id@,
                    path@,
                    pf.deep_view(),
                    hash@,
                    size,
                    roles.deep_view(),
                    role,
                    service.deep_view(),
                    now,
                );
                final(self)@ == s && n == saturated(m) && s.wf()
            }),
    {
        let ghost pv = pf.deep_view();
        let ghost rv = roles.deep_view();
        let file_id = file_symbol_id(repo_id, path);
        let ids = ids_in(repo_id, path, pf);
        let ghost iv = ids.deep_view();
        let mut kept: Vec<String> = no_rows();
        append(&mut kept, file_id.clone());
        let mut copy = ids.clone();
        assert(copy.deep_view() =~= iv);
        kept.append(&mut copy);
        assert(kept.deep_view() =~= seq![file_id@] + iv);
        let n = self.retire_missing(repo_id, path, &kept, now);
        let count = pf.symbols.len();
        assert(count == pv.symbols.len());
        let end_line = if count > 0 {
            assert(pv.symbols.last() == pf.symbols@[count - 1].deep_view());
            pf.symbols[count - 1].end_line
        } else {
            0
        };
        let row = Symbol {
            id: file_id.clone(),
            path: path.to_owned(),
            lang: pf.lang.to_owned(),
            kind: SymbolKind::File,
            name: last_piece(path, '/'),
            fqn: path.to_owned(),
            parent_id: service.clone(),
            start_byte: 0,
            end_byte: size,
            start_line: 0,
            end_line,
            body_hash: hash.to_owned(),
            own_hash: pf.own_hash.clone(),
            role,
            meta: Json::object(),
            repo_id: repo_id.to_owned(),
        };
        self.upsert(row, false);
        let ghost s1 = self@;
        let ghost f = |i: int| symbol_row(repo_id@, path@, pv, rv, i);
        let mut i: usize = 0;
        assert(Seq::new(0, f) =~= Seq::empty());
        while i < count
            invariant
                pv == pf.deep_view(),
                rv == roles.deep_view(),
                links_ok(pv),
                count == pf.symbols@.len(),
                count == pv.symbols.len(),
                roles@.len() == count,
                ids@.len() == count,
                ids.deep_view() == sym_ids(repo_id@, path@, pv),
                file_id@ == file_id_of(repo_id@, path@),
                i <= count,
                self@.leases == s1.leases,
                self@.requests == s1.requests,
                self@.tasks == s1.tasks,
                f == (|i: int| symbol_row(repo_id@, path@, pv, rv, i)),
                self@ == s1.upsert_all(Seq::new(i as nat, f), false),
            decreases count - i,
        {
            let s = pf.symbols[i].clone();
            let ghost k = i as int;
            proof {
                assert(pv.symbols[k] == s.deep_view());
                assert(pv.symbols[k].parent matches Some(p) ==> p < k);
                assert(rv[k] == roles@[k].deep_view());
                assert(Seq::new((i + 1) as nat, f).drop_last() =~= Seq::new(i as nat, f));
            }
            let parent_id = match s.parent {
                Some(p) => {
                    assert(ids.deep_view()[p as int] == ids@[p as int]@);
                    ids[p].clone()
                },
                None => file_id.clone(),
            };
            assert(ids.deep_view()[k] == ids@[k]@);
            let row = Symbol {
                id: ids[i].clone(),
                path: path.to_owned(),
                lang: pf.lang.to_owned(),
                kind: s.kind,
                name: s.name,
                fqn: s.fqn,
                parent_id: Some(parent_id),
                start_byte: s.start_byte,
                end_byte: s.end_byte,
                start_line: s.start_line,
                end_line: s.end_line,
                body_hash: s.body_hash,
                own_hash: s.own_hash,
                role: roles[i].role,
                meta: roles[i].meta.clone(),
                repo_id: repo_id.to_owned(),
            };
            assert(row.deep_view() == f(k));
            self.upsert(row, false);
            i += 1;
        }
        assert(Seq::new(count as nat, f) =~= Seq::new(pv.symbols.len(), f));
        n
    }

    /// Indexes an SQL file: the file itself, and a symbol for each table it
    /// declares; tells how many leases were dropped.
    pub(crate) fn write_sql(
        &mut self,
        repo_id: &str,
        path: &str,
        source: &[u8],
        hash: &str,
        defs: &Vec<TableDef>,
        service: &Option<String>,
        now: i64,
    ) -> (n: usize)
        requires
            old(self)@.wf(),
        ensures
            ({
                let (s, m) = old(self)@.write_sql(
                    repo_id@,
                    path@,
                    source@,
                    hash@,
                    defs.deep_view(),
                    service.deep_view(),
                    now,
                );
                final(self)@ == s && n == saturated(m) && s.wf()
            }),
    {
        let ghost dv = defs.deep_view();
        let file_id = file_symbol_id(repo_id, path);
        let id = |d: &TableDef| -> (x: String)
            ensures x.deep_view() == table_id_of(repo_id@, path@, d.deep_view())
        {
            symbol_id(repo_id, path, SymbolKind::Table, d.name.as_str(), 0)
        };
        let mut ids = each(defs, id, Ghost(|d: TableDefV| table_id_of(repo_id@, path@, d)));
        let ghost iv = ids.deep_view();
        let mut kept: Vec<String> = no_rows();
        append(&mut kept, file_id.clone());
        kept.append(&mut ids);
        assert(kept.deep_view() =~= seq![file_id@] + iv);
        let n = self.retire_missing(repo_id, path, &kept, now);
        let meta = Json::object().with("tables", Json::Int(count_shown(defs.len())));
        assert(dv.len() == defs.len());
        assert(meta.deep_view()->Obj_0 =~= seq![("tables"@, JsonV::Int(shown(dv.len())))]);
        let row = Symbol {
            id: file_id.clone(),
            path: path.to_owned(),
            lang: "sql".to_owned(),
            kind: SymbolKind::File,
            name: last_piece(path, '/'),
            fqn: path.to_owned(),
            parent_id: service.clone(),
            start_byte: 0,
            end_byte: source.len(),
            start_line: 0,
            end_line: line_feeds_in(source),
            body_hash: hash.to_owned(),
            own_hash: hash.to_owned(),
            role: Some(Role::Schema),
            meta,
            repo_id: repo_id.to_owned(),
        };
        self.upsert(row, false);
        let ghost s1 = self@;
        let ghost f = |d: TableDefV| table_row(repo_id@, path@, source@, d);
        let mut i: usize = 0;
        assert(dv.take(0).map_values(f) =~= Seq::empty());
        while i < defs.len()
            invariant
                dv == defs.deep_view(),
                i <= defs@.len(),
                file_id@ == file_id_of(repo_id@, path@),
                self@.leases == s1.leases,
                self@.requests == s1.requests,
                self@.tasks == s1.tasks,
                f == (|d: TableDefV| table_row(repo_id@, path@, source@, d)),
                self@ == s1.upsert_all(dv.take(i as int).map_values(f), false),
            decreases defs@.len() - i,
        {
            let d = defs[i].clone();
            let ghost xv = d.deep_view();
            proof {
                assert(dv[i as int] == xv);
                assert(dv.take(i + 1).map_values(f).drop_last() =~= dv.take(i as int).map_values(f));
                assert(dv.take(i + 1).map_values(f).last() == f(xv));
            }
            let body_hash = span_hash(source, d.start_byte, d.end_byte);
            let meta = Json::object().with("statement", Json::str(d.statement.as_str()));
            assert(meta.deep_view()->Obj_0 =~= seq![("statement"@, JsonV::Str(xv.statement))]);
            let row = Symbol {
                id: symbol_id(repo_id, path, SymbolKind::Table, d.name.as_str(), 0),
                path: path.to_owned(),
                lang: "sql".to_owned(),
                kind: SymbolKind::Table,
                name: d.name.clone(),
                fqn: d.name,
                parent_id: Some(file_id.clone()),
                start_byte: d.start_byte,
                end_byte: d.end_byte,
                start_line: d.line,
                end_line: d.line,
                body_hash: body_hash.clone(),
                own_hash: body_hash,
                role: Some(Role::Schema),
                meta,
                repo_id: repo_id.to_owned(),
            };
            assert(row.deep_view() == f(xv));
            self.upsert(row, false);
            i += 1;
        }
        assert(dv.take(i as int) =~= dv);
        let edge = |d: &TableDef| -> (e: Edge)
            ensures e.deep_view() == (EdgeV { src: file_id@, dst: table_id_of(repo_id@, path@, d.deep_view()), kind: EdgeKind::Contains })
        {
            Edge {
                src: file_id.clone(),
                dst: symbol_id(repo_id, path, SymbolKind::Table, d.name.as_str(), 0),
                kind: EdgeKind::Contains,
            }
        };
        let ghost file = file_id@;
        let more = each(
            defs,
            edge,
            Ghost(
                |d: TableDefV|
                    EdgeV {
                        src: file,
                        dst: table_id_of(repo_id@, path@, d),
                        kind: EdgeKind::Contains,
                    },
            ),
        );
        add_edges(&mut self.edges, &more);
        n
    }

    /// Writes services: files hang off them.
    pub(crate) fn write_services(&mut self, repo_id: &str, services: &Vec<Service>)
        requires
            old(self)@.wf(),
        ensures
            final(self)@ == old(self)@.write_services(repo_id@, services.deep_view()),
            final(self)@.wf(),
    {
        let ghost s0 = self@;
        let ghost all = services.deep_view();
        let ghost f = |s: ServiceV| service_row(repo_id@, s, all);
        let mut i: usize = 0;
        assert(all.take(0).map_values(f) =~= Seq::empty());
        while i < services.len()
            invariant
                all == services.deep_view(),
                i <= services@.len(),
                self@.leases == s0.leases,
                self@.requests == s0.requests,
                self@.tasks == s0.tasks,
                f == (|s: ServiceV| service_row(repo_id@, s, all)),
                self@ == s0.upsert_all(all.take(i as int).map_values(f), true),
            decreases services@.len() - i,
        {
            let s = &services[i];
            proof {
                assert(all[i as int] == s.deep_view());
                assert(all.take(i + 1).map_values(f).drop_last() =~= all.take(i as int).map_values(
                    f,
                ));
                assert(all.take(i + 1).map_values(f).last() == f(s.deep_view()));
            }
            let parent_id = match parent_service(s, services) {
                Some(p) => Some(service_id(repo_id, &p)),
                None => None,
            };
            let meta = Json::object().with("ecosystem", Json::str(s.ecosystem.as_str())).with(
                "dir",
                Json::str(s.dir.as_str()),
            );
            assert(meta.deep_view()->Obj_0 =~= seq![
                ("ecosystem"@, JsonV::Str(s.ecosystem@)),
                ("dir"@, JsonV::Str(s.dir@)),
            ]);
            let row = Symbol {
                id: service_id(repo_id, s),
                path: s.manifest.clone(),
                lang: s.ecosystem.clone(),
                kind: SymbolKind::Service,
                name: s.name.clone(),
                fqn: s.name.clone(),
                parent_id,
                start_byte: 0,
                end_byte: 0,
                start_line: 0,
                end_line: 0,
                body_hash: String::new(),
                own_hash: String::new(),
                role: Some(Role::Service),
                meta,
                repo_id: repo_id.to_owned(),
            };
            assert(row.deep_view().body_hash =~= Seq::empty());
            assert(row.deep_view() == f(s.deep_view()));
            self.upsert(row, true);
            i += 1;
        }
        assert(all.take(i as int) =~= all);
    }

    /// Drops the services whose manifest is gone.
    pub(crate) fn prune_services(&mut self, repo_id: &str, live: &Vec<String>, now: i64)
        requires
            old(self)@.wf(),
        ensures
            final(self)@ == old(self)@.prune_services(repo_id@, live.deep_view(), now),
            final(self)@.wf(),
    {
        let ghost s0 = self@;
        let dead = |s: &Symbol| -> (b: bool)
            ensures b == (s.deep_view().kind is Service && s.deep_view().repo_id == repo_id@ && !live.deep_view().contains(s.deep_view().path))
        {
            s.kind == SymbolKind::Service && same(s.repo_id.as_str(), repo_id) && !holds_text(
                live,
                s.path.as_str(),
            )
        };
        let rows = keep(
            &self.symbols,
            dead,
            Ghost(
                |s: SymbolV|
                    s.kind is Service && s.repo_id == repo_id@ && !live.deep_view().contains(
                        s.path,
                    ),
            ),
        );
        let ghost all = rows.deep_view();
        let mut i: usize = 0;
        while i < rows.len()
            invariant
                all == rows.deep_view(),
                i <= rows@.len(),
                self@.wf(),
                self@ == s0.drop_services(all.take(i as int), now),
            decreases rows@.len() - i,
        {
            let x = &rows[i];
            proof {
                assert(all.take(i + 1).drop_last() =~= all.take(i as int));
                assert(all.take(i + 1).last() == x.deep_view());
                lemma_retire_keeps(
                    self@,
                    self@.active_on(x.id@),
                    x.path@,
                    "service removed"@,
                    now,
                );
            }
            self.retire_leases_on(x.id.as_str(), x.path.as_str(), "service removed", now);
            let free = |y: &Symbol| -> (z: Symbol)
                ensures z.deep_view() == (if y.deep_view().parent_id == Some(x.id@) {
                    SymbolV { parent_id: None, ..y.deep_view() }
                } else {
                    y.deep_view()
                })
            {
                let mut z = y.clone();
                if same_opt(&y.parent_id, &Some(x.id.clone())) {
                    z.parent_id = None;
                }
                z
            };
            change(
                &mut self.symbols,
                free,
                Ghost(
                    |y: SymbolV|
                        if y.parent_id == Some(x.id@) {
                            SymbolV { parent_id: None, ..y }
                        } else {
                            y
                        },
                ),
            );
            self.without_symbol(x.id.as_str());
            i += 1;
        }
        assert(all.take(i as int) =~= all);
    }

    /// Forgets a file; tells how many leases were dropped.
    pub(crate) fn remove_file(&mut self, repo_id: &str, path: &str, now: i64) -> (n: usize)
        requires
            old(self)@.wf(),
        ensures
            ({
                let (s, m) = old(self)@.remove_file(repo_id@, path@, now);
                final(self)@ == s && n == saturated(m) && s.wf()
            }),
    {
        let none: Vec<String> = no_rows();
        let n = self.retire_missing(repo_id, path, &none, now);
        let detail = Json::object().with("path", Json::str(path));
        assert(detail.deep_view()->Obj_0 =~= seq![("path"@, JsonV::Str(path@))]);
        self.emit(now, "file.removed", None, Some(path.to_owned()), None, detail);
        n
    }

    /// The files of a repository that are in the graph, in text order.
    pub fn indexed_files(&self, repo_id: &str) -> (r: Vec<String>)
        ensures
            r.deep_view() == self@.indexed_files(repo_id@),
    {
        let test = |s: &Symbol| -> (b: bool)
            ensures b == (s.deep_view().kind is File && s.deep_view().repo_id == repo_id@)
        {
            s.kind == SymbolKind::File && same(s.repo_id.as_str(), repo_id)
        };
        let path = |s: &Symbol| -> (x: String)
            ensures x.deep_view() == s.deep_view().path
        {
            s.path.clone()
        };
        let rows = keep(
            &self.symbols,
            test,
            Ghost(|s: SymbolV| s.kind is File && s.repo_id == repo_id@),
        );
        crate::order::sort_texts(each(&rows, path, Ghost(|s: SymbolV| s.path)))
    }

    /// The hash of a file's contents when it was indexed.
    pub fn file_hash(&self, repo_id: &str, path: &str) -> (r: Option<String>)
        ensures
            r.deep_view() == self@.file_hash(repo_id@, path@),
    {
        match self.symbol(file_symbol_id(repo_id, path).as_str()) {
            Some(s) => Some(s.body_hash),
            None => None,
        }
    }

    /// The services of a repository that are in the graph.
    pub fn services(&self, repo_id: &str) -> (r: Vec<Service>)
        ensures
            r.deep_view() == self@.known_services(repo_id@),
    {
        let test = |s: &Symbol| -> (b: bool)
            ensures b == (s.deep_view().kind is Service && s.deep_view().repo_id == repo_id@)
        {
            s.kind == SymbolKind::Service && same(s.repo_id.as_str(), repo_id)
        };
        let show = |s: &Symbol| -> (x: Service)
            ensures x.deep_view() == (ServiceV {
                name: s.deep_view().name,
                manifest: s.deep_view().path,
                ecosystem: s.deep_view().lang,
                dir: match s.deep_view().meta.text_at("dir"@) {
                    Some(d) => d,
                    None => Seq::empty(),
                },
            })
        {
            let dir = match s.meta.text("dir") {
                Some(d) => d,
                None => String::new(),
            };
            assert(s.deep_view().meta.text_at("dir"@) is None ==> dir@ =~= Seq::empty());
            Service {
                name: s.name.clone(),
                manifest: s.path.clone(),
                ecosystem: s.lang.clone(),
                dir,
            }
        };
        let rows = keep(
            &self.symbols,
            test,
            Ghost(|s: SymbolV| s.kind is Service && s.repo_id == repo_id@),
        );
        each(
            &rows,
            show,
            Ghost(
                |s: SymbolV|
                    ServiceV {
                        name: s.name,
                        manifest: s.path,
                        ecosystem: s.lang,
                        dir: match s.meta.text_at("dir"@) {
                            Some(d) => d,
                            None => Seq::empty(),
                        },
                    },
            ),
        )
    }

    /// Replaces the edges out of some symbols.
    pub(crate) fn replace_edges(&mut self, from: &Vec<String>, edges: &Vec<Edge>)
        ensures
            final(self)@ == old(self)@.replace_edges(from.deep_view(), edges.deep_view()),
    {
        let other = |e: &Edge| -> (b: bool)
            ensures b == !from.deep_view().contains(e.deep_view().src)
        {
            !holds_text(from, e.src.as_str())
        };
        let mut kept = keep(
            &self.edges,
            other,
            Ghost(|e: EdgeV| !from.deep_view().contains(e.src)),
        );
        add_edges(&mut kept, edges);
        self.edges = kept;
    }

    fn rolled(&self, repo_id: &str, e: &Edge) -> (r: Option<Edge>)
        ensures
            r.deep_view() == self@.rolled(repo_id@, e.deep_view()),
    {
        if e.kind != EdgeKind::Imports {
            return None;
        }
        match (self.symbol(e.src.as_str()), self.symbol(e.dst.as_str())) {
            (Some(a), Some(b)) => {
                if a.kind != SymbolKind::File || b.kind != SymbolKind::File {
                    return None;
                }
                match (&a.parent_id, &b.parent_id) {
                    (Some(x), Some(y)) => {
                        let ours = match self.symbol(x.as_str()) {
                            Some(service) => same(service.repo_id.as_str(), repo_id),
                            None => false,
                        };
                        if ours && !same(x.as_str(), y.as_str()) && self.symbol_at(y.as_str()).is_some() {
                            Some(Edge { src: x.clone(), dst: y.clone(), kind: EdgeKind::Imports })
                        } else {
                            None
                        }
                    },
                    _ => None,
                }
            },
            _ => None,
        }
    }

    /// Makes a service of a repository depend on another wherever one of its files
    /// imports one of the other's; tells how many such edges there are.
    pub(crate) fn roll_up_service_edges(&mut self, repo_id: &str) -> (n: usize)
        ensures
            final(self)@ == old(self)@.roll_up(repo_id@),
            n == old(self)@.roll_up_count(repo_id@),
    {
        let plain = |e: &Edge| -> (b: bool)
            ensures b == !self@.is_rolled(repo_id@, e.deep_view())
        {
            if e.kind != EdgeKind::Imports {
                true
            } else {
                match self.symbol(e.src.as_str()) {
                    Some(s) => s.kind != SymbolKind::Service || !same(s.repo_id.as_str(), repo_id),
                    None => true,
                }
            }
        };
        let mut kept = keep(&self.edges, plain, Ghost(|e: EdgeV| !self@.is_rolled(repo_id@, e)));
        let ghost kv = kept.deep_view();
        let mut more: Vec<Edge> = no_rows();
        let mut i: usize = 0;
        while i < kept.len()
            invariant
                kv == kept.deep_view(),
                i <= kept@.len(),
                more.deep_view() == self@.rolled_all(repo_id@, kv.take(i as int)),
            decreases kept@.len() - i,
        {
            proof {
                assert(kv.take(i + 1).drop_last() =~= kv.take(i as int));
                assert(kv.take(i + 1).last() == kept@[i as int].deep_view());
            }
            if let Some(x) = self.rolled(repo_id, &kept[i]) {
                append(&mut more, x);
            }
            i += 1;
        }
        assert(kv.take(i as int) =~= kv);
        let before = kept.len();
        proof {
            lemma_edges_grow(kv, more.deep_view());
        }
        add_edges(&mut kept, &more);
        assert(kept@.len() == kept.deep_view().len());
        let n = kept.len() - before;
        self.edges = kept;
        n
    }
}

/// A count as it is kept: no larger than what a count can be.
pub open spec fn saturated(n: nat) -> usize {
    if n > usize::MAX {
        usize::MAX
    } else {
        n as usize
    }
}

/// A count as events and details show it.
pub open spec fn shown(n: nat) -> int {
    if n > i64::MAX {
        i64::MAX as int
    } else {
        n as int
    }
}

/// A count as events and details show it.
pub(crate) fn count_shown(n: usize) -> (r: i64)
    ensures
        r == shown(n as nat),
{
    if n as u64 > 0x7fff_ffff_ffff_ffffu64 {
        i64::MAX
    } else {
        n as i64
    }
}

pub(crate) fn sum(a: usize, b: usize) -> (r: usize)
    ensures
        r == saturated((a + b) as nat),
{
    if a > usize::MAX - b {
        usize::MAX
    } else {
        a + b
    }
}

fn span_hash(source: &[u8], start: usize, end: usize) -> (r: String)
    ensures
        r@ == short_hash(span(source@, start, end), 16),
{
    if start <= end && end <= source.len() {
        content_hash(vstd::slice::slice_subrange(source, start, end))
    } else {
        let none: Vec<u8> = Vec::new();
        assert(none@ =~= Seq::empty());
        content_hash(none.as_slice())
    }
}

proof fn lemma_edges_grow(edges: Seq<EdgeV>, more: Seq<EdgeV>)
    ensures
        with_edges(edges, more).len() >= edges.len(),
    decreases more.len(),
{
    if more.len() > 0 {
        lemma_edges_grow(edges, more.drop_last());
    }
}

/// Retiring leases changes their state and nothing else about leases.
pub(crate) proof fn lemma_retire_keeps(
    s: StoreV,
    rows: Seq<LeaseRowV>,
    handle: Seq<char>,
    reason: Seq<char>,
    now: i64,
)
    ensures
        ({
            let r = s.retire_each(rows, handle, reason, now);
            &&& r == (StoreV { leases: r.leases, events: r.events, ..s })
            &&& r.leases.len() == s.leases.len()
            &&& s.wf() ==> r.wf()
            &&& forall|i: int|
                0 <= i < s.leases.len() ==> (#[trigger] r.leases[i]).id == s.leases[i].id
                    && r.leases[i].symbol_id == s.leases[i].symbol_id && (r.leases[i] == s.leases[i]
                    || r.leases[i].state is Expired)
            &&& forall|i: int, k: int|
                0 <= i < s.leases.len() && 0 <= k < rows.len() && (#[trigger] rows[k]).id
                    == s.leases[i].id ==> (#[trigger] r.leases[i]).state is Expired
        }),
    decreases rows.len(),
{
    if rows.len() > 0 {
        let init = rows.drop_last();
        lemma_retire_keeps(s, init, handle, reason, now);
        let m = s.retire_each(init, handle, reason, now);
        let r = s.retire_each(rows, handle, reason, now);
        if s.wf() {
            assert forall|i: int| 0 <= i < r.leases.len() implies lease_ok(#[trigger] r.leases[i]) by {
                assert(lease_ok(m.leases[i]));
            }
        }
        assert forall|i: int, k: int|
            0 <= i < s.leases.len() && 0 <= k < rows.len() && (#[trigger] rows[k]).id
                == s.leases[i].id implies (#[trigger] r.leases[i]).state is Expired by {
            if k < init.len() {
                assert(init[k].id == s.leases[i].id);
                assert(m.leases[i].state is Expired);
            }
        }
    }
}

} // verus!
