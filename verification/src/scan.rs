//! The scanner: keeps the graph in step with the working tree.
//!
//! Scanning is incremental: a file whose contents did not change is skipped. What
//! the file system and the manifests say comes in as a [`ScanInput`]; the rest
//! happens here, and within one repository: a scan of one never touches another,
//! even where paths are the same in both.

use vstd::prelude::*;
use vstd::string::*;

use crate::edges::{Indexed, IndexedV};
use crate::ids::{content_hash, short_hash};
use crate::index::{
    count_shown, ids_in, file_id_of, owner_of, saturated, service_for, service_id, service_id_of, shown, sum,
    sym_ids, RoleOf, RoleOfV, Service, ServiceV,
};
use crate::json::{Json, JsonV};
use crate::lang::{for_path, grammar_of_path};
use crate::model::Role;
use crate::order::{sort_texts, sorted_texts};
use crate::parse::{parse_path, parsed, ParseError, ParsedFileV};
use crate::repo::components;
use crate::rows::{each, keep};
use crate::sql::{declared, holds_text, is_sql_path, tables};
use crate::store::{append, no_rows, Store, StoreV};
use crate::text::{ascii_lower, join, join_range, replace_char, replaced, same, same_opt, split_on, starts_with};
use crate::workspace::RUNTIME_DIR;

verus! {

broadcast use vstd::string::group_string_axioms;

/// What a scan did.
#[derive(Debug, Clone, Copy, PartialEq, Eq, Structural)]
pub struct ScanStats {
    pub files_seen: usize,
    pub files_indexed: usize,
    pub files_unchanged: usize,
    pub files_removed: usize,
    pub files_failed: usize,
    pub symbols: usize,
    pub edges: usize,
    pub services: usize,
    pub tables: usize,
    pub endpoints: usize,
    pub tests: usize,
    pub leases_dropped: usize,
    /// How long it took. The caller, who has the clock, fills it in.
    pub elapsed_ms: u128,
}

/// Nothing done yet.
pub open spec fn no_stats() -> ScanStats {
    ScanStats {
        files_seen: 0,
        files_indexed: 0,
        files_unchanged: 0,
        files_removed: 0,
        files_failed: 0,
        symbols: 0,
        edges: 0,
        services: 0,
        tables: 0,
        endpoints: 0,
        tests: 0,
        leases_dropped: 0,
        elapsed_ms: 0,
    }
}

impl Default for ScanStats {
    fn default() -> (r: Self)
        ensures
            r == no_stats(),
    {
        ScanStats {
            files_seen: 0,
            files_indexed: 0,
            files_unchanged: 0,
            files_removed: 0,
            files_failed: 0,
            symbols: 0,
            edges: 0,
            services: 0,
            tables: 0,
            endpoints: 0,
            tests: 0,
            leases_dropped: 0,
            elapsed_ms: 0,
        }
    }
}

/// `a` and `b` together, as counts are kept.
pub open spec fn plus(a: usize, b: nat) -> usize {
    saturated((a + b) as nat)
}

/// A symbol of a file for which a role was found.
#[derive(Debug)]
pub struct RoleHit {
    /// Which symbol of the file.
    pub symbol: usize,
    pub meta: Json,
}

/// The contents of a [`RoleHit`].
pub struct RoleHitV {
    pub symbol: usize,
    pub meta: JsonV,
}

impl DeepView for RoleHit {
    type V = RoleHitV;

    open spec fn deep_view(&self) -> RoleHitV {
        RoleHitV { symbol: self.symbol, meta: self.meta.deep_view() }
    }
}

impl crate::rows::Row for RoleHit {
    fn copy(&self) -> (r: Self) {
        RoleHit { symbol: self.symbol, meta: self.meta.clone() }
    }
}

/// A file as it was found.
#[derive(Debug)]
pub struct SourceFile {
    pub path: String,
    /// What it holds; nothing where it could not be read.
    pub bytes: Option<Vec<u8>>,
    /// Symbols that are tests.
    pub tests: Vec<RoleHit>,
    /// Symbols that serve a route.
    pub endpoints: Vec<RoleHit>,
    /// Is the path that of a test file?
    pub test_file: bool,
}

/// The contents of a [`SourceFile`].
pub struct SourceFileV {
    pub path: Seq<char>,
    pub bytes: Option<Seq<u8>>,
    pub tests: Seq<RoleHitV>,
    pub endpoints: Seq<RoleHitV>,
    pub test_file: bool,
}

impl DeepView for SourceFile {
    type V = SourceFileV;

    open spec fn deep_view(&self) -> SourceFileV {
        SourceFileV {
            path: self.path@,
            bytes: match self.bytes {
                Some(b) => Some(b@),
                None => None,
            },
            tests: self.tests.deep_view(),
            endpoints: self.endpoints.deep_view(),
            test_file: self.test_file,
        }
    }
}

/// What a scan looks at.
#[derive(Debug)]
pub struct ScanInput {
    /// The services of the repository, where all of it is scanned. Where only some
    /// files are refreshed nothing is given, and nothing is pruned.
    pub services: Option<Vec<Service>>,
    pub sql: Vec<SourceFile>,
    pub sources: Vec<SourceFile>,
}

/// The contents of a [`ScanInput`].
pub struct ScanInputV {
    pub services: Option<Seq<ServiceV>>,
    pub sql: Seq<SourceFileV>,
    pub sources: Seq<SourceFileV>,
}

impl DeepView for ScanInput {
    type V = ScanInputV;

    open spec fn deep_view(&self) -> ScanInputV {
        ScanInputV {
            services: self.services.deep_view(),
            sql: self.sql.deep_view(),
            sources: self.sources.deep_view(),
        }
    }
}

/// Is no file longer than positions in it can say?
pub open spec fn readable(files: Seq<SourceFileV>) -> bool {
    forall|i: int|
        0 <= i < files.len() ==> ((#[trigger] files[i]).bytes matches Some(b) ==> b.len()
            <= u32::MAX)
}

// ----------------------------------------------------------------------- roles

/// The detail of the last test hit on a symbol.
pub open spec fn test_detail(hits: Seq<RoleHitV>, i: usize) -> Option<JsonV> {
    let mine = hits.filter(|h: RoleHitV| h.symbol == i);
    if mine.len() > 0 {
        Some(mine.last().meta)
    } else {
        None
    }
}

/// The routes of a symbol.
pub open spec fn routes(hits: Seq<RoleHitV>, i: usize) -> Seq<JsonV> {
    hits.filter(|h: RoleHitV| h.symbol == i).map_values(|h: RoleHitV| h.meta)
}

/// A member, or null.
pub open spec fn member_or_null(j: JsonV, key: Seq<char>) -> JsonV {
    match j.at(key) {
        Some(x) => x,
        None => JsonV::Null,
    }
}

/// What a symbol is for. Endpoints win over tests. A function can register several
/// routes: the first is the headline and all are listed.
pub open spec fn role_of(tests: Seq<RoleHitV>, endpoints: Seq<RoleHitV>, i: usize) -> RoleOfV {
    let all = routes(endpoints, i);
    if all.len() == 1 {
        RoleOfV { role: Some(Role::Api), meta: all[0] }
    } else if all.len() > 1 {
        RoleOfV {
            role: Some(Role::Api),
            meta: JsonV::Obj(
                seq![
                    ("method"@, member_or_null(all[0], "method"@)),
                    ("path"@, member_or_null(all[0], "path"@)),
                    ("routes"@, JsonV::Arr(all)),
                ],
            ),
        }
    } else {
        match test_detail(tests, i) {
            Some(meta) => RoleOfV { role: Some(Role::Test), meta },
            None => RoleOfV { role: None, meta: JsonV::Obj(Seq::empty()) },
        }
    }
}

/// The roles of the first `n` symbols of a file.
pub open spec fn roles_of(tests: Seq<RoleHitV>, endpoints: Seq<RoleHitV>, n: nat) -> Seq<RoleOfV> {
    Seq::new(n, |i: int| role_of(tests, endpoints, i as usize))
}

/// How many have the role?
pub open spec fn with_role(roles: Seq<RoleOfV>, role: Role) -> nat {
    roles.filter(|r: RoleOfV| r.role == Some(role)).len()
}

impl crate::rows::Row for RoleOf {
    fn copy(&self) -> (r: Self) {
        self.clone()
    }
}

fn member_of(j: &Json, key: &str) -> (r: Json)
    ensures
        r.deep_view() == member_or_null(j.deep_view(), key@),
{
    match j.get(key) {
        Some(x) => x.clone(),
        None => Json::Null,
    }
}

fn role_at(tests: &Vec<RoleHit>, endpoints: &Vec<RoleHit>, i: usize) -> (r: RoleOf)
    ensures
        r.deep_view() == role_of(tests.deep_view(), endpoints.deep_view(), i),
{
    let mine = |h: &RoleHit| -> (b: bool)
        ensures b == (h.deep_view().symbol == i)
    {
        h.symbol == i
    };
    let detail = |h: &RoleHit| -> (x: Json)
        ensures x.deep_view() == h.deep_view().meta
    {
        h.meta.clone()
    };
    let hits = keep(endpoints, mine, Ghost(|h: RoleHitV| h.symbol == i));
    let all = each(&hits, detail, Ghost(|h: RoleHitV| h.meta));
    let ghost av = all.deep_view();
    let n = all.len();
    assert(n == av.len());
    if n == 1 {
        assert(av[0] == all@[0].deep_view());
        return RoleOf { role: Some(Role::Api), meta: all[0].clone() };
    }
    if n > 1 {
        assert(av[0] == all@[0].deep_view());
        let method = member_of(&all[0], "method");
        let path = member_of(&all[0], "path");
        let list = Json::Arr(all);
        assert(list.deep_view()->Arr_0 =~= av);
        let meta = Json::object().with("method", method).with("path", path).with("routes", list);
        assert(meta.deep_view()->Obj_0 =~= seq![
            ("method"@, member_or_null(av[0], "method"@)),
            ("path"@, member_or_null(av[0], "path"@)),
            ("routes"@, JsonV::Arr(av)),
        ]);
        return RoleOf { role: Some(Role::Api), meta };
    }
    let found = keep(tests, mine, Ghost(|h: RoleHitV| h.symbol == i));
    let m = found.len();
    assert(m == found.deep_view().len());
    if m > 0 {
        assert(found.deep_view().last() == found@[m - 1].deep_view());
        RoleOf { role: Some(Role::Test), meta: found[m - 1].meta.clone() }
    } else {
        RoleOf { role: None, meta: Json::object() }
    }
}

/// What each of the first `n` symbols of a file is for.
pub fn detect_roles(tests: &Vec<RoleHit>, endpoints: &Vec<RoleHit>, n: usize) -> (r: Vec<RoleOf>)
    ensures
        r.deep_view() == roles_of(tests.deep_view(), endpoints.deep_view(), n as nat),
{
    let ghost all = roles_of(tests.deep_view(), endpoints.deep_view(), n as nat);
    let mut out: Vec<RoleOf> = no_rows();
    let mut i: usize = 0;
    while i < n
        invariant
            all == roles_of(tests.deep_view(), endpoints.deep_view(), n as nat),
            i <= n,
            out.deep_view() == all.take(i as int),
        decreases n - i,
    {
        append(&mut out, role_at(tests, endpoints, i));
        assert(all.take(i + 1) =~= all.take(i as int).push(all[i as int]));
        i += 1;
    }
    assert(all.take(i as int) =~= all);
    out
}

fn count_role(roles: &Vec<RoleOf>, role: Role) -> (n: usize)
    ensures
        n == with_role(roles.deep_view(), role),
{
    let has = |r: &RoleOf| -> (b: bool)
        ensures b == (r.deep_view().role == Some(role))
    {
        match r.role {
            Some(x) => x == role,
            None => false,
        }
    };
    let rows = keep(roles, has, Ghost(|r: RoleOfV| r.role == Some(role)));
    assert(rows@.len() == rows.deep_view().len());
    rows.len()
}

// -------------------------------------------------------------------- the walk

/// The files of a tree that are read, split by how.
#[derive(Debug)]
pub struct Found {
    pub sources: Vec<String>,
    pub sql: Vec<String>,
    pub manifests: Vec<String>,
}

/// The contents of a [`Found`].
pub struct FoundV {
    pub sources: Seq<Seq<char>>,
    pub sql: Seq<Seq<char>>,
    pub manifests: Seq<Seq<char>>,
}

impl DeepView for Found {
    type V = FoundV;

    open spec fn deep_view(&self) -> FoundV {
        FoundV {
            sources: self.sources.deep_view(),
            sql: self.sql.deep_view(),
            manifests: self.manifests.deep_view(),
        }
    }
}

/// Is the file one with SQL in it?
pub open spec fn is_sql(path: Seq<char>) -> bool {
    ".sql"@.is_suffix_of(ascii_lower(path))
}

impl Found {
    /// Nothing yet.
    pub fn new() -> (r: Found)
        ensures
            r.deep_view() == (FoundV {
                sources: Seq::empty(),
                sql: Seq::empty(),
                manifests: Seq::empty(),
            }),
    {
        Found { sources: no_rows(), sql: no_rows(), manifests: no_rows() }
    }

    /// Takes a file in, if it is one that is read. `manifest` says whether the file
    /// declares a service.
    pub fn push(&mut self, rel: String, manifest: bool)
        ensures
            final(self).deep_view() == ({
                let f = old(self).deep_view();
                if grammar_of_path(rel@) is Some {
                    FoundV { sources: f.sources.push(rel@), ..f }
                } else if is_sql(rel@) {
                    FoundV { sql: f.sql.push(rel@), ..f }
                } else if manifest {
                    FoundV { manifests: f.manifests.push(rel@), ..f }
                } else {
                    f
                }
            }),
    {
        if for_path(rel.as_str()).is_some() {
            append(&mut self.sources, rel);
        } else if is_sql_path(rel.as_str()) {
            append(&mut self.sql, rel);
        } else if manifest {
            append(&mut self.manifests, rel);
        }
    }

    /// Takes in what another walk found.
    pub fn merge(&mut self, other: Found)
        ensures
            final(self).deep_view() == (FoundV {
                sources: old(self).deep_view().sources + other.deep_view().sources,
                sql: old(self).deep_view().sql + other.deep_view().sql,
                manifests: old(self).deep_view().manifests + other.deep_view().manifests,
            }),
    {
        let ghost before = self.deep_view();
        let ghost more = other.deep_view();
        let mut other = other;
        self.sources.append(&mut other.sources);
        self.sql.append(&mut other.sql);
        self.manifests.append(&mut other.manifests);
        assert(self.sources.deep_view() =~= before.sources + more.sources);
        assert(self.sql.deep_view() =~= before.sql + more.sql);
        assert(self.manifests.deep_view() =~= before.manifests + more.manifests);
    }

    /// The same files, each list in text order.
    pub fn sort(self) -> (r: Found)
        ensures
            r.deep_view() == (FoundV {
                sources: sorted_texts(self.deep_view().sources),
                sql: sorted_texts(self.deep_view().sql),
                manifests: sorted_texts(self.deep_view().manifests),
            }),
    {
        Found {
            sources: sort_texts(self.sources),
            sql: sort_texts(self.sql),
            manifests: sort_texts(self.manifests),
        }
    }
}

/// The part of a path below a root, with forward slashes, if it is below it. The
/// two are compared component by component.
pub open spec fn relative_of(root: Seq<char>, path: Seq<char>) -> Option<Seq<char>> {
    let r = components(root);
    let p = components(path);
    if "/"@.is_prefix_of(root) == "/"@.is_prefix_of(path) && r.is_prefix_of(p) {
        Some(replaced(join(p.skip(r.len() as int), "/"@), '\\', '/'))
    } else {
        None
    }
}

pub(crate) fn components_of(path: &str) -> (r: Vec<String>)
    ensures
        r.deep_view() == components(path@),
{
    let all = split_on(path, '/');
    let test = |c: &String| -> (b: bool)
        ensures b == (c@.len() > 0 && c@ != "."@)
    {
        !c.as_str().is_empty() && !same(c.as_str(), ".")
    };
    keep(&all, test, Ghost(|c: Seq<char>| c.len() > 0 && c != "."@))
}

/// The part of a path below a root, with forward slashes; nothing where the path
/// lies elsewhere.
pub fn relative_path(root: &str, path: &str) -> (r: Option<String>)
    ensures
        r.deep_view() == relative_of(root@, path@),
{
    if starts_with(root, "/") != starts_with(path, "/") {
        return None;
    }
    let a = components_of(root);
    let b = components_of(path);
    let ghost av = a.deep_view();
    let ghost bv = b.deep_view();
    proof {
        assert(a@.len() == av.len());
        assert(b@.len() == bv.len());
    }
    if a.len() > b.len() {
        return None;
    }
    let mut i: usize = 0;
    while i < a.len()
        invariant
            av == a.deep_view(),
            bv == b.deep_view(),
            av == components(root@),
            bv == components(path@),
            a@.len() <= b@.len(),
            i <= a@.len(),
            forall|k: int| 0 <= k < i ==> (#[trigger] av[k]) == bv[k],
        decreases a@.len() - i,
    {
        assert(av[i as int] == a@[i as int]@ && bv[i as int] == b@[i as int]@);
        if !same(a[i].as_str(), b[i].as_str()) {
            assert(!av.is_prefix_of(bv)) by {
                if av.is_prefix_of(bv) {
                    assert(bv.subrange(0, av.len() as int)[i as int] == bv[i as int]);
                }
            }
            return None;
        }
        i += 1;
    }
    assert(av =~= bv.subrange(0, av.len() as int));
    let rest = join_range(&b, a.len(), b.len(), "/");
    assert(bv.skip(av.len() as int) =~= bv.subrange(av.len() as int, bv.len() as int));
    Some(replace_char(rest.as_str(), '\\', '/'))
}

/// Would a scan read this file at all? `manifest` says whether the file declares a
/// service.
pub fn is_indexable(rel: &str, manifest: bool) -> (r: bool)
    ensures
        r == (grammar_of_path(rel@) is Some || is_sql(rel@) || manifest),
{
    for_path(rel).is_some() || is_sql_path(rel) || manifest
}

/// Files with more bytes than this are not read.
pub const MAX_FILE_BYTES: u64 = 2097152;

/// The names of what a walk stays out of: what this program keeps, what git keeps,
/// and what is installed or built.
pub open spec fn skipped_names() -> Seq<Seq<char>> {
    seq![
        RUNTIME_DIR@,
        ".git"@,
        "node_modules"@,
        "target"@,
        "dist"@,
        "build"@,
        "__pycache__"@,
        ".venv"@,
    ]
}

/// Does a walk stay out of what has this name?
pub fn is_skipped(name: &str) -> (r: bool)
    ensures
        r == skipped_names().contains(name@),
{
    let r = same(name, RUNTIME_DIR) || same(name, ".git") || same(name, "node_modules") || same(
        name,
        "target",
    ) || same(name, "dist") || same(name, "build") || same(name, "__pycache__") || same(name, ".venv");
    proof {
        let all = skipped_names();
        assert(all[0] == RUNTIME_DIR@ && all[1] == ".git"@ && all[2] == "node_modules"@ && all[3]
            == "target"@ && all[4] == "dist"@ && all[5] == "build"@ && all[6] == "__pycache__"@
            && all[7] == ".venv"@);
        if all.contains(name@) {
            let k = all.index_of(name@);
            assert(0 <= k < 8 && all[k] == name@);
        }
    }
    r
}

// ----------------------------------------------------------------------- passes

/// The id of the service that a file belongs to.
pub open spec fn home(repo: Seq<char>, path: Seq<char>, services: Seq<ServiceV>) -> Option<Seq<char>> {
    match owner_of(path, services) {
        Some(s) => Some(service_id_of(repo, s)),
        None => None,
    }
}

/// What a file's path and contents parse to.
pub open spec fn parse_of(path: Seq<char>, bytes: Seq<u8>) -> Result<ParsedFileV, ParseError> {
    match grammar_of_path(path) {
        Some(g) => parsed(g, bytes),
        None => Err(ParseError::NoGrammar),
    }
}

impl StoreV {
    /// Is the file the one that was indexed?
    pub open spec fn unchanged(self, repo: Seq<char>, path: Seq<char>, bytes: Seq<u8>) -> bool {
        self.file_hash(repo, path) == Some(short_hash(bytes, 16))
    }

    /// One SQL file: its tables become nodes.
    pub open spec fn sql_step(
        self,
        st: ScanStats,
        repo: Seq<char>,
        services: Seq<ServiceV>,
        f: SourceFileV,
        force: bool,
        now: i64,
    ) -> (StoreV, ScanStats) {
        match f.bytes {
            None => (self, ScanStats { files_failed: plus(st.files_failed, 1), ..st }),
            Some(b) => if !force && self.unchanged(repo, f.path, b) {
                (self, ScanStats { files_unchanged: plus(st.files_unchanged, 1), ..st })
            } else {
                let defs = declared(b);
                let (s, n) = self.write_sql(
                    repo,
                    f.path,
                    b,
                    short_hash(b, 16),
                    defs,
                    home(repo, f.path, services),
                    now,
                );
                (
                    s,
                    ScanStats {
                        leases_dropped: plus(st.leases_dropped, saturated(n) as nat),
                        files_indexed: plus(st.files_indexed, 1),
                        tables: plus(st.tables, defs.len()),
                        symbols: plus(plus(st.symbols, defs.len()), 1),
                        ..st
                    },
                )
            },
        }
    }

    /// The SQL files.
    pub open spec fn sql_pass(
        self,
        st: ScanStats,
        repo: Seq<char>,
        services: Seq<ServiceV>,
        files: Seq<SourceFileV>,
        force: bool,
        now: i64,
    ) -> (StoreV, ScanStats)
        decreases files.len(),
    {
        if files.len() == 0 {
            (self, st)
        } else {
            let (s, t) = self.sql_pass(st, repo, services, files.drop_last(), force, now);
            s.sql_step(t, repo, services, files.last(), force, now)
        }
    }

    /// One source file: its symbols become nodes. Gives what its edges are built from.
    pub open spec fn source_step(
        self,
        st: ScanStats,
        repo: Seq<char>,
        services: Seq<ServiceV>,
        f: SourceFileV,
        force: bool,
        now: i64,
    ) -> (StoreV, ScanStats, Option<IndexedV>) {
        match f.bytes {
            None => (self, ScanStats { files_failed: plus(st.files_failed, 1), ..st }, None),
            Some(b) => if !force && self.unchanged(repo, f.path, b) {
                (self, ScanStats { files_unchanged: plus(st.files_unchanged, 1), ..st }, None)
            } else {
                match parse_of(f.path, b) {
                    Err(_) => (
                        self,
                        ScanStats { files_failed: plus(st.files_failed, 1), ..st },
                        None,
                    ),
                    Ok(pf) => {
                        let roles = roles_of(f.tests, f.endpoints, pf.symbols.len());
                        let (s, n) = self.write_file(
                            repo,
                            f.path,
                            pf,
                            short_hash(b, 16),
                            b.len() as usize,
                            roles,
                            if f.test_file {
                                Some(Role::Test)
                            } else {
                                None
                            },
                            home(repo, f.path, services),
                            now,
                        );
                        (
                            s,
                            ScanStats {
                                endpoints: plus(st.endpoints, with_role(roles, Role::Api)),
                                tests: plus(st.tests, with_role(roles, Role::Test)),
                                leases_dropped: plus(st.leases_dropped, saturated(n) as nat),
                                files_indexed: plus(st.files_indexed, 1),
                                symbols: plus(plus(st.symbols, pf.symbols.len()), 1),
                                ..st
                            },
                            Some(IndexedV { path: f.path, parsed: pf, roles, source: b }),
                        )
                    },
                }
            },
        }
    }

    /// The source files.
    pub open spec fn source_pass(
        self,
        st: ScanStats,
        repo: Seq<char>,
        services: Seq<ServiceV>,
        files: Seq<SourceFileV>,
        force: bool,
        now: i64,
    ) -> (StoreV, ScanStats, Seq<IndexedV>)
        decreases files.len(),
    {
        if files.len() == 0 {
            (self, st, Seq::empty())
        } else {
            let (s, t, done) = self.source_pass(st, repo, services, files.drop_last(), force, now);
            let (s, t, one) = s.source_step(t, repo, services, files.last(), force, now);
            (
                s,
                t,
                match one {
                    Some(x) => done.push(x),
                    None => done,
                },
            )
        }
    }

    /// Forgetting files.
    pub open spec fn remove_pass(self, st: ScanStats, repo: Seq<char>, paths: Seq<Seq<char>>, now: i64) -> (
        StoreV,
        ScanStats,
    )
        decreases paths.len(),
    {
        if paths.len() == 0 {
            (self, st)
        } else {
            let (s, t) = self.remove_pass(st, repo, paths.drop_last(), now);
            let (s, n) = s.remove_file(repo, paths.last(), now);
            (
                s,
                ScanStats {
                    leases_dropped: plus(t.leases_dropped, saturated(n) as nat),
                    files_removed: plus(t.files_removed, 1),
                    ..t
                },
            )
        }
    }

    /// The files that are in the graph and not among these.
    pub open spec fn vanished(self, repo: Seq<char>, present: Seq<Seq<char>>) -> Seq<Seq<char>> {
        self.indexed_files(repo).filter(|p: Seq<char>| !present.contains(p))
    }

    /// The edges of indexed files.
    pub open spec fn edge_pass(self, st: ScanStats, repo: Seq<char>, files: Seq<IndexedV>) -> (
        StoreV,
        ScanStats,
    )
        decreases files.len(),
    {
        if files.len() == 0 {
            (self, st)
        } else {
            let (s, t) = self.edge_pass(st, repo, files.drop_last());
            let f = files.last();
            let edges = s.edges_of(repo, f);
            (
                s.replace_edges(
                    sym_ids(repo, f.path, f.parsed).push(file_id_of(repo, f.path)),
                    edges,
                ),
                ScanStats { edges: plus(t.edges, edges.len()), ..t },
            )
        }
    }

    /// The state once the files that were found are indexed, and those of them that
    /// still need their edges.
    #[verifier::opaque]
    pub open spec fn read_pass(
        self,
        repo: Seq<char>,
        services: Seq<ServiceV>,
        input: ScanInputV,
        force: bool,
        now: i64,
    ) -> (StoreV, ScanStats, Seq<IndexedV>) {
        let st = ScanStats {
            files_seen: plus(input.sources.len() as usize, input.sql.len()),
            services: services.len() as usize,
            ..no_stats()
        };
        let (s, st) = self.sql_pass(st, repo, services, input.sql, force, now);
        s.source_pass(st, repo, services, input.sources, force, now)
    }

    /// The state once what vanished from a repository is pruned: files that are not
    /// among those present, and services that are not among those declared.
    #[verifier::opaque]
    pub open spec fn prune_pass(
        self,
        st: ScanStats,
        repo: Seq<char>,
        services: Seq<ServiceV>,
        present: Seq<Seq<char>>,
        now: i64,
    ) -> (StoreV, ScanStats) {
        let (s, st) = self.remove_pass(st, repo, self.vanished(repo, present), now);
        (s.prune_services(repo, services.map_values(|x: ServiceV| x.manifest), now), st)
    }

    /// The state once the files that were indexed have their edges, and so have the
    /// services that they belong to.
    #[verifier::opaque]
    pub open spec fn link_pass(
        self,
        st: ScanStats,
        repo: Seq<char>,
        services: Seq<ServiceV>,
        files: Seq<IndexedV>,
    ) -> (StoreV, ScanStats) {
        if files.len() > 0 {
            let (s, st) = self.edge_pass(st, repo, files);
            if services.len() > 0 {
                (
                    s.roll_up(repo),
                    ScanStats { edges: plus(st.edges, s.roll_up_count(repo)), ..st },
                )
            } else {
                (s, st)
            }
        } else {
            (self, st)
        }
    }

    /// What a scan does.
    pub open spec fn scan(self, repo: Seq<char>, input: ScanInputV, force: bool, now: i64) -> (
        StoreV,
        ScanStats,
    ) {
        let services = match input.services {
            Some(d) => d,
            None => self.known_services(repo),
        };
        let s = match input.services {
            Some(d) => self.write_services(repo, d),
            None => self,
        };
        let (s, st, files) = s.read_pass(repo, services, input, force, now);
        let (s, st) = if input.services is Some {
            s.prune_pass(st, repo, services, paths_of(input.sources) + paths_of(input.sql), now)
        } else {
            (s, st)
        };
        let (s, st) = s.link_pass(st, repo, services, files);
        if st.files_indexed > 0 || st.files_removed > 0 {
            (s.emit(now, "scan.completed"@, None, None, None, summary(st)), st)
        } else {
            (s, st)
        }
    }
}

/// The paths of files.
pub open spec fn paths_of(files: Seq<SourceFileV>) -> Seq<Seq<char>> {
    files.map_values(|f: SourceFileV| f.path)
}

/// What the event of a scan tells.
pub open spec fn summary(st: ScanStats) -> JsonV {
    JsonV::Obj(
        seq![
            ("files_indexed"@, JsonV::Int(shown(st.files_indexed as nat))),
            ("files_unchanged"@, JsonV::Int(shown(st.files_unchanged as nat))),
            ("files_removed"@, JsonV::Int(shown(st.files_removed as nat))),
            ("symbols"@, JsonV::Int(shown(st.symbols as nat))),
            ("edges"@, JsonV::Int(shown(st.edges as nat))),
            ("services"@, JsonV::Int(shown(st.services as nat))),
            ("tables"@, JsonV::Int(shown(st.tables as nat))),
            ("endpoints"@, JsonV::Int(shown(st.endpoints as nat))),
        ],
    )
}

fn home_of(repo_id: &str, path: &str, services: &Vec<Service>) -> (r: Option<String>)
    ensures
        r.deep_view() == home(repo_id@, path@, services.deep_view()),
{
    match service_for(path, services) {
        Some(s) => Some(service_id(repo_id, &s)),
        None => None,
    }
}

fn summary_of(st: &ScanStats) -> (r: Json)
    ensures
        r.deep_view() == summary(*st),
{
    let r = Json::object().with("files_indexed", Json::Int(count_shown(st.files_indexed))).with(
        "files_unchanged",
        Json::Int(count_shown(st.files_unchanged)),
    ).with("files_removed", Json::Int(count_shown(st.files_removed))).with(
        "symbols",
        Json::Int(count_shown(st.symbols)),
    ).with("edges", Json::Int(count_shown(st.edges))).with(
        "services",
        Json::Int(count_shown(st.services)),
    ).with("tables", Json::Int(count_shown(st.tables))).with(
        "endpoints",
        Json::Int(count_shown(st.endpoints)),
    );
    assert(r.deep_view()->Obj_0 =~= summary(*st)->Obj_0);
    r
}

fn paths_in(files: &Vec<SourceFile>) -> (r: Vec<String>)
    ensures
        r.deep_view() == paths_of(files.deep_view()),
{
    let path = |f: &SourceFile| -> (x: String)
        ensures x.deep_view() == f.deep_view().path
    {
        f.path.clone()
    };
    each(files, path, Ghost(|f: SourceFileV| f.path))
}

impl Store {
    fn is_unchanged(&self, repo_id: &str, path: &str, hash: &str) -> (r: bool)
        ensures
            r == (self@.file_hash(repo_id@, path@) == Some(hash@)),
    {
        same_opt(&self.file_hash(repo_id, path), &Some(hash.to_owned()))
    }

    fn index_sql(
        &mut self,
        st: ScanStats,
        repo_id: &str,
        services: &Vec<Service>,
        f: &SourceFile,
        force: bool,
        now: i64,
    ) -> (r: ScanStats)
        requires
            old(self)@.wf(),
        ensures
            (final(self)@, r) == old(self)@.sql_step(
                st,
                repo_id@,
                services.deep_view(),
                f.deep_view(),
                force,
                now,
            ),
            final(self)@.wf(),
    {
        let mut st = st;
        let path = f.path.as_str();
        match &f.bytes {
            None => {
                st.files_failed = sum(st.files_failed, 1);
                st
            },
            Some(b) => {
                let hash = content_hash(b.as_slice());
                if !force && self.is_unchanged(repo_id, path, hash.as_str()) {
                    st.files_unchanged = sum(st.files_unchanged, 1);
                    return st;
                }
                let defs = tables(b.as_slice());
                let n = self.write_sql(
                    repo_id,
                    path,
                    b.as_slice(),
                    hash.as_str(),
                    &defs,
                    &home_of(repo_id, path, services),
                    now,
                );
                assert(defs@.len() == defs.deep_view().len());
                st.leases_dropped = sum(st.leases_dropped, n);
                st.files_indexed = sum(st.files_indexed, 1);
                st.tables = sum(st.tables, defs.len());
                st.symbols = sum(sum(st.symbols, defs.len()), 1);
                st
            },
        }
    }

    fn index_source(
        &mut self,
        st: ScanStats,
        repo_id: &str,
        services: &Vec<Service>,
        f: &SourceFile,
        force: bool,
        now: i64,
    ) -> (r: (ScanStats, Option<Indexed>))
        requires
            old(self)@.wf(),
            f.deep_view().bytes matches Some(b) ==> b.len() <= u32::MAX,
        ensures
            (final(self)@, r.0, r.1.deep_view()) == old(self)@.source_step(
                st,
                repo_id@,
                services.deep_view(),
                f.deep_view(),
                force,
                now,
            ),
            final(self)@.wf(),
            r.1 matches Some(x) ==> x.deep_view().wf(),
    {
        let mut st = st;
        let path = f.path.as_str();
        match &f.bytes {
            None => {
                st.files_failed = sum(st.files_failed, 1);
                (st, None)
            },
            Some(b) => {
                let hash = content_hash(b.as_slice());
                if !force && self.is_unchanged(repo_id, path, hash.as_str()) {
                    st.files_unchanged = sum(st.files_unchanged, 1);
                    return (st, None);
                }
                match parse_path(path, b.as_slice()) {
                    Err(_) => {
                        st.files_failed = sum(st.files_failed, 1);
                        (st, None)
                    },
                    Ok(pf) => {
                        let count = pf.symbols.len();
                        let roles = detect_roles(&f.tests, &f.endpoints, count);
                        proof {
                            assert(count == pf.deep_view().symbols.len());
                            assert(roles@.len() == roles.deep_view().len());
                        }
                        let role = if f.test_file {
                            Some(Role::Test)
                        } else {
                            None
                        };
                        let n = self.write_file(
                            repo_id,
                            path,
                            &pf,
                            hash.as_str(),
                            b.len(),
                            &roles,
                            role,
                            &home_of(repo_id, path, services),
                            now,
                        );
                        st.endpoints = sum(st.endpoints, count_role(&roles, Role::Api));
                        st.tests = sum(st.tests, count_role(&roles, Role::Test));
                        st.leases_dropped = sum(st.leases_dropped, n);
                        st.files_indexed = sum(st.files_indexed, 1);
                        st.symbols = sum(sum(st.symbols, count), 1);
                        let source = copy_bytes(b);
                        (
                            st,
                            Some(Indexed { path: f.path.clone(), parsed: pf, roles, source }),
                        )
                    },
                }
            },
        }
    }

    fn sql_pass(
        &mut self,
        st: ScanStats,
        repo_id: &str,
        services: &Vec<Service>,
        files: &Vec<SourceFile>,
        force: bool,
        now: i64,
    ) -> (r: ScanStats)
        requires
            old(self)@.wf(),
        ensures
            (final(self)@, r) == old(self)@.sql_pass(
                st,
                repo_id@,
                services.deep_view(),
                files.deep_view(),
                force,
                now,
            ),
            final(self)@.wf(),
    {
        let ghost s0 = self@;
        let ghost all = files.deep_view();
        let ghost sv = services.deep_view();
        let mut t = st;
        let mut i: usize = 0;
        while i < files.len()
            invariant
                all == files.deep_view(),
                sv == services.deep_view(),
                i <= files@.len(),
                self@.wf(),
                (self@, t) == s0.sql_pass(st, repo_id@, sv, all.take(i as int), force, now),
            decreases files@.len() - i,
        {
            proof {
                assert(all.take(i + 1).drop_last() =~= all.take(i as int));
                assert(all.take(i + 1).last() == files@[i as int].deep_view());
            }
            t = self.index_sql(t, repo_id, services, &files[i], force, now);
            i += 1;
        }
        assert(all.take(i as int) =~= all);
        t
    }

    fn source_pass(
        &mut self,
        st: ScanStats,
        repo_id: &str,
        services: &Vec<Service>,
        files: &Vec<SourceFile>,
        force: bool,
        now: i64,
    ) -> (r: (ScanStats, Vec<Indexed>))
        requires
            old(self)@.wf(),
            readable(files.deep_view()),
        ensures
            (final(self)@, r.0, r.1.deep_view()) == old(self)@.source_pass(
                st,
                repo_id@,
                services.deep_view(),
                files.deep_view(),
                force,
                now,
            ),
            final(self)@.wf(),
            forall|k: int| 0 <= k < r.1@.len() ==> (#[trigger] r.1@[k]).deep_view().wf(),
    {
        let ghost s0 = self@;
        let ghost all = files.deep_view();
        let ghost sv = services.deep_view();
        let mut t = st;
        let mut out: Vec<Indexed> = no_rows();
        let mut i: usize = 0;
        while i < files.len()
            invariant
                all == files.deep_view(),
                sv == services.deep_view(),
                readable(all),
                i <= files@.len(),
                self@.wf(),
                (self@, t, out.deep_view()) == s0.source_pass(
                    st,
                    repo_id@,
                    sv,
                    all.take(i as int),
                    force,
                    now,
                ),
                forall|k: int| 0 <= k < out@.len() ==> (#[trigger] out@[k]).deep_view().wf(),
            decreases files@.len() - i,
        {
            proof {
                assert(all.take(i + 1).drop_last() =~= all.take(i as int));
                assert(all.take(i + 1).last() == files@[i as int].deep_view());
                assert(all[i as int] == files@[i as int].deep_view());
            }
            let (u, one) = self.index_source(t, repo_id, services, &files[i], force, now);
            t = u;
            if let Some(x) = one {
                let ghost o0 = out.deep_view();
                out.push(x);
                assert(out.deep_view() =~= o0.push(x.deep_view()));
            }
            i += 1;
        }
        assert(all.take(i as int) =~= all);
        (t, out)
    }

    fn remove_pass(&mut self, st: ScanStats, repo_id: &str, paths: &Vec<String>, now: i64) -> (r:
        ScanStats)
        requires
            old(self)@.wf(),
        ensures
            (final(self)@, r) == old(self)@.remove_pass(st, repo_id@, paths.deep_view(), now),
            final(self)@.wf(),
    {
        let ghost s0 = self@;
        let ghost all = paths.deep_view();
        let mut t = st;
        let mut i: usize = 0;
        while i < paths.len()
            invariant
                all == paths.deep_view(),
                i <= paths@.len(),
                self@.wf(),
                (self@, t) == s0.remove_pass(st, repo_id@, all.take(i as int), now),
            decreases paths@.len() - i,
        {
            proof {
                assert(all.take(i + 1).drop_last() =~= all.take(i as int));
                assert(all.take(i + 1).last() == paths@[i as int]@);
            }
            let n = self.remove_file(repo_id, paths[i].as_str(), now);
            t.leases_dropped = sum(t.leases_dropped, n);
            t.files_removed = sum(t.files_removed, 1);
            i += 1;
        }
        assert(all.take(i as int) =~= all);
        t
    }

    fn edge_pass(&mut self, st: ScanStats, repo_id: &str, files: &Vec<Indexed>) -> (r: ScanStats)
        requires
            old(self)@.wf(),
            forall|k: int| 0 <= k < files@.len() ==> (#[trigger] files@[k]).deep_view().wf(),
        ensures
            (final(self)@, r) == old(self)@.edge_pass(st, repo_id@, files.deep_view()),
            final(self)@.wf(),
    {
        let ghost s0 = self@;
        let ghost all = files.deep_view();
        let mut t = st;
        let mut i: usize = 0;
        while i < files.len()
            invariant
                all == files.deep_view(),
                i <= files@.len(),
                self@.wf(),
                forall|k: int| 0 <= k < files@.len() ==> (#[trigger] files@[k]).deep_view().wf(),
                (self@, t) == s0.edge_pass(st, repo_id@, all.take(i as int)),
            decreases files@.len() - i,
        {
            let f = &files[i];
            proof {
                assert(all.take(i + 1).drop_last() =~= all.take(i as int));
                assert(all.take(i + 1).last() == f.deep_view());
            }
            let edges = self.build_edges(repo_id, f);
            let mut from = ids_in(repo_id, f.path.as_str(), &f.parsed);
            append(&mut from, crate::ids::file_symbol_id(repo_id, f.path.as_str()));
            self.replace_edges(&from, &edges);
            assert(edges@.len() == edges.deep_view().len());
            t.edges = sum(t.edges, edges.len());
            i += 1;
        }
        assert(all.take(i as int) =~= all);
        t
    }
}

fn copy_bytes(b: &Vec<u8>) -> (r: Vec<u8>)
    ensures
        r@ == b@,
{
    let r = b.clone();
    assert(r@ =~= b@);
    r
}

impl Store {
    fn read_pass(&mut self, repo_id: &str, services: &Vec<Service>, input: &ScanInput, force: bool, now: i64) -> (r:
        (ScanStats, Vec<Indexed>))
        requires
            old(self)@.wf(),
            readable(input.deep_view().sources),
        ensures
            (final(self)@, r.0, r.1.deep_view()) == old(self)@.read_pass(
                repo_id@,
                services.deep_view(),
                input.deep_view(),
                force,
                now,
            ),
            final(self)@.wf(),
            forall|k: int| 0 <= k < r.1@.len() ==> (#[trigger] r.1@[k]).deep_view().wf(),
    {
        reveal(StoreV::read_pass);
        let ghost iv = input.deep_view();
        assert(input.sources@.len() == iv.sources.len());
        assert(input.sql@.len() == iv.sql.len());
        assert(services@.len() == services.deep_view().len());
        let mut st = ScanStats::default();
        st.files_seen = sum(input.sources.len(), input.sql.len());
        st.services = services.len();
        let st = self.sql_pass(st, repo_id, services, &input.sql, force, now);
        self.source_pass(st, repo_id, services, &input.sources, force, now)
    }

    fn prune_pass(
        &mut self,
        st: ScanStats,
        repo_id: &str,
        services: &Vec<Service>,
        present: &Vec<String>,
        now: i64,
    ) -> (r: ScanStats)
        requires
            old(self)@.wf(),
        ensures
            (final(self)@, r) == old(self)@.prune_pass(
                st,
                repo_id@,
                services.deep_view(),
                present.deep_view(),
                now,
            ),
            final(self)@.wf(),
    {
        reveal(StoreV::prune_pass);
        let gone = |p: &String| -> (x: bool)
            ensures x == !present.deep_view().contains(p.deep_view())
        {
            !holds_text(present, p.as_str())
        };
        let paths = keep(
            &self.indexed_files(repo_id),
            gone,
            Ghost(|p: Seq<char>| !present.deep_view().contains(p)),
        );
        assert(paths.deep_view() == self@.vanished(repo_id@, present.deep_view()));
        let st = self.remove_pass(st, repo_id, &paths, now);
        let manifest = |x: &Service| -> (y: String)
            ensures y.deep_view() == x.deep_view().manifest
        {
            x.manifest.clone()
        };
        let live = each(services, manifest, Ghost(|x: ServiceV| x.manifest));
        self.prune_services(repo_id, &live, now);
        st
    }

    fn link_pass(&mut self, st: ScanStats, repo_id: &str, services: &Vec<Service>, files: &Vec<Indexed>) -> (r:
        ScanStats)
        requires
            old(self)@.wf(),
            forall|k: int| 0 <= k < files@.len() ==> (#[trigger] files@[k]).deep_view().wf(),
        ensures
            (final(self)@, r) == old(self)@.link_pass(
                st,
                repo_id@,
                services.deep_view(),
                files.deep_view(),
            ),
            final(self)@.wf(),
    {
        reveal(StoreV::link_pass);
        assert(files@.len() == files.deep_view().len());
        assert(services@.len() == services.deep_view().len());
        let mut st = st;
        if files.len() > 0 {
            st = self.edge_pass(st, repo_id, files);
            if services.len() > 0 {
                let n = self.roll_up_service_edges(repo_id);
                st.edges = sum(st.edges, n);
            }
        }
        st
    }
}

/// Brings a repository's part of the graph up to date. Where the services are
/// given, all of the repository was walked, and what vanished is pruned; else only
/// the given files are refreshed.
pub fn scan(store: &mut Store, repo_id: &str, input: &ScanInput, force: bool, now: i64) -> (r: ScanStats)
    requires
        old(store)@.wf(),
        readable(input.deep_view().sources),
    ensures
        (final(store)@, r) == old(store)@.scan(repo_id@, input.deep_view(), force, now),
        final(store)@.wf(),
{
    let known;
    let services = match &input.services {
        Some(d) => {
            store.write_services(repo_id, d);
            d
        },
        None => {
            known = store.services(repo_id);
            &known
        },
    };
    let (u, files) = store.read_pass(repo_id, services, input, force, now);
    let mut st = u;
    if input.services.is_some() {
        let mut present = paths_in(&input.sources);
        let mut more = paths_in(&input.sql);
        let ghost a = present.deep_view();
        let ghost b = more.deep_view();
        present.append(&mut more);
        assert(present.deep_view() =~= a + b);
        st = store.prune_pass(st, repo_id, services, &present, now);
    }
    st = store.link_pass(st, repo_id, services, &files);
    if st.files_indexed > 0 || st.files_removed > 0 {
        let detail = summary_of(&st);
        store.emit(now, "scan.completed", None, None, None, detail);
    }
    st
}

} // verus!
