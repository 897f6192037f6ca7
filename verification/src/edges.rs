//! The edges out of a file.
//!
//! Imports are resolved before calls on purpose: knowing that a file imports
//! another is what lets a call resolve to the right one of several functions with
//! the same name. Names, tables and files are those of one repository, so that
//! nothing resolves into another that happens to share a path.

use vstd::prelude::*;
use vstd::string::*;
use vstd::utf8::*;

use crate::ids::file_symbol_id;
use crate::imports::{extract_for_path, extracted, resolve, resolved, FileIndex, RawImport, RawImportV};
use crate::depends_laws::lemma_listed_once;
use crate::index::{file_id_of, id_in, ids_in, parent_in, sym_ids, RoleOf, RoleOfV};
use crate::lang::grammar_of_path;
use crate::model::{Edge, EdgeKind, EdgeV, Role, Symbol, SymbolKind, SymbolV};
use crate::order::{dedup_texts, deduped, law_sorted_keeps, law_sorted_ordered, rank, sort_texts, sorted, sorted_texts, stable_sort, weak_order, Ranked};
use crate::parse::{links_ok, ParsedFile, ParsedFileV, ParsedRef, ParsedRefV};
use crate::rows::{each, keep};
use crate::sql::{decode, holds_text, referenced, touched};
use crate::store::{append, no_rows, Store, StoreV};
use crate::text::{comes_before, same, text_lt};

verus! {

broadcast use vstd::string::group_string_axioms;

/// What was learned about one file, until its edges are built.
#[derive(Debug)]
pub struct Indexed {
    pub path: String,
    pub parsed: ParsedFile,
    /// Roles, one for each symbol of the file.
    pub roles: Vec<RoleOf>,
    pub source: Vec<u8>,
}

/// The contents of an [`Indexed`].
pub struct IndexedV {
    pub path: Seq<char>,
    pub parsed: ParsedFileV,
    pub roles: Seq<RoleOfV>,
    pub source: Seq<u8>,
}

impl DeepView for Indexed {
    type V = IndexedV;

    open spec fn deep_view(&self) -> IndexedV {
        IndexedV {
            path: self.path@,
            parsed: self.parsed.deep_view(),
            roles: self.roles.deep_view(),
            source: self.source@,
        }
    }
}

impl IndexedV {
    /// Do the parts fit together?
    pub open spec fn wf(self) -> bool {
        &&& links_ok(self.parsed)
        &&& self.roles.len() == self.parsed.symbols.len()
        &&& self.source.len() <= u32::MAX
    }

    /// The files that this one imports.
    pub open spec fn imported(self, files: Seq<Seq<char>>) -> Seq<Seq<char>> {
        match grammar_of_path(self.path) {
            Some(g) => targets(extracted(g, self.source), self.parsed.lang, self.path, files),
            None => Seq::empty(),
        }
    }
}

/// Is `a` before `b`? By source, then by target, then by the word for the kind.
pub open spec fn edge_lt(a: EdgeV, b: EdgeV) -> bool {
    text_lt(a.src, b.src) || a.src == b.src && (text_lt(a.dst, b.dst) || a.dst == b.dst && text_lt(
        a.kind.word(),
        b.kind.word(),
    ))
}

impl Ranked for Edge {
    open spec fn before(a: EdgeV, b: EdgeV) -> bool {
        edge_lt(a, b)
    }

    fn is_before(&self, other: &Self) -> (r: bool) {
        comes_before(self.src.as_str(), other.src.as_str()) || same(
            self.src.as_str(),
            other.src.as_str(),
        ) && (comes_before(self.dst.as_str(), other.dst.as_str()) || same(
            self.dst.as_str(),
            other.dst.as_str(),
        ) && comes_before(self.kind.as_str(), other.kind.as_str()))
    }
}

/// The files that some imports mean, but for the importing file itself.
pub open spec fn targets(
    imports: Seq<RawImportV>,
    lang: Seq<char>,
    path: Seq<char>,
    files: Seq<Seq<char>>,
) -> Seq<Seq<char>>
    decreases imports.len(),
{
    if imports.len() == 0 {
        Seq::empty()
    } else {
        targets(imports.drop_last(), lang, path, files) + resolved(
            lang,
            path,
            imports.last().specifier,
            files,
        ).filter(|t: Seq<char>| t != path)
    }
}

/// The text of a symbol: what of it lies in the source, if that is UTF-8.
pub open spec fn symbol_text(source: Seq<u8>, start: usize, end: usize) -> Seq<char> {
    let stop = if end < source.len() {
        end as int
    } else {
        source.len() as int
    };
    if start <= stop && valid_utf8(source.subrange(start as int, stop)) {
        decode_utf8(source.subrange(start as int, stop))
    } else {
        Seq::empty()
    }
}

impl StoreV {
    /// The symbols of a repository that a reference by this name may mean.
    pub open spec fn candidates(self, repo: Seq<char>, name: Seq<char>) -> Seq<SymbolV> {
        self.symbols.filter(
            |s: SymbolV|
                s.repo_id == repo && s.name == name && !(s.kind is File) && !(s.kind is Service)
                    && !(s.kind is Table),
        )
    }

    /// What a referenced name means. The order is the one a reader uses: something
    /// defined here, then something this file imported, then a name that is unique in
    /// the repository. Anything still ambiguous is left alone rather than guessed at.
    pub open spec fn referred(
        self,
        repo: Seq<char>,
        name: Seq<char>,
        from: Seq<char>,
        scope: Seq<Seq<char>>,
    ) -> Option<Seq<char>> {
        let all = self.candidates(repo, name);
        let local = all.filter(|s: SymbolV| s.path == from);
        let imported = all.filter(|s: SymbolV| scope.contains(s.path));
        if local.len() == 1 {
            Some(local[0].id)
        } else if local.len() > 1 {
            None
        } else if imported.len() == 1 {
            Some(imported[0].id)
        } else if imported.len() == 0 && all.len() == 1 {
            Some(all[0].id)
        } else {
            None
        }
    }

    /// The tables of a repository.
    pub open spec fn tables(self, repo: Seq<char>) -> Seq<SymbolV> {
        self.symbols.filter(|s: SymbolV| s.repo_id == repo && s.kind is Table)
    }

    /// The names of a repository's tables, each once, in text order.
    pub open spec fn known_tables(self, repo: Seq<char>) -> Seq<Seq<char>> {
        deduped(sorted_texts(self.tables(repo).map_values(|s: SymbolV| s.name)))
    }

    /// The table with a name, the last where several have it.
    pub open spec fn table(self, repo: Seq<char>, name: Seq<char>) -> Option<Seq<char>> {
        let rows = self.tables(repo).filter(|s: SymbolV| s.name == name);
        if rows.len() > 0 {
            Some(rows.last().id)
        } else {
            None
        }
    }

    /// The edge that a reference makes, if it makes one. A call from a test is a
    /// test edge.
    pub open spec fn reference_edge(
        self,
        repo: Seq<char>,
        f: IndexedV,
        scope: Seq<Seq<char>>,
        r: ParsedRefV,
    ) -> Option<EdgeV> {
        let src = id_in(repo, f.path, f.parsed, r.from);
        let test = r.from matches Some(i) && f.roles[i as int].role == Some(Role::Test);
        match self.referred(repo, r.name, f.path, scope) {
            Some(dst) => if dst == src {
                None
            } else {
                Some(
                    EdgeV {
                        src,
                        dst,
                        kind: if test && r.kind is Calls {
                            EdgeKind::Tests
                        } else {
                            r.kind
                        },
                    },
                )
            },
            None => None,
        }
    }

    /// The edges that references make.
    pub open spec fn reference_edges(
        self,
        repo: Seq<char>,
        f: IndexedV,
        scope: Seq<Seq<char>>,
        refs: Seq<ParsedRefV>,
    ) -> Seq<EdgeV>
        decreases refs.len(),
    {
        if refs.len() == 0 {
            Seq::empty()
        } else {
            let rest = self.reference_edges(repo, f, scope, refs.drop_last());
            match self.reference_edge(repo, f, scope, refs.last()) {
                Some(e) => rest.push(e),
                None => rest,
            }
        }
    }

    /// The edges from a symbol to tables.
    pub open spec fn table_edges(self, repo: Seq<char>, src: Seq<char>, names: Seq<Seq<char>>) -> Seq<
        EdgeV,
    >
        decreases names.len(),
    {
        if names.len() == 0 {
            Seq::empty()
        } else {
            let rest = self.table_edges(repo, src, names.drop_last());
            match self.table(repo, names.last()) {
                Some(dst) => rest.push(EdgeV { src, dst, kind: EdgeKind::Queries }),
                None => rest,
            }
        }
    }

    /// The edges from the first `n` symbols of a file to the tables that the SQL in
    /// them touches.
    pub open spec fn query_edges(self, repo: Seq<char>, f: IndexedV, n: nat) -> Seq<EdgeV>
        decreases n,
    {
        if n == 0 {
            Seq::empty()
        } else {
            let s = f.parsed.symbols[n - 1];
            self.query_edges(repo, f, (n - 1) as nat) + self.table_edges(
                repo,
                sym_ids(repo, f.path, f.parsed)[n - 1],
                touched(
                    symbol_text(f.source, s.start_byte, s.end_byte),
                    self.known_tables(repo),
                ),
            )
        }
    }

    /// Every edge out of a file, as they are found.
    pub open spec fn found_edges(self, repo: Seq<char>, f: IndexedV) -> Seq<EdgeV> {
        let scope = f.imported(self.indexed_files(repo));
        contains_edges(repo, f) + import_edges(repo, f, scope) + self.reference_edges(
            repo,
            f,
            scope,
            f.parsed.refs,
        ) + (if self.known_tables(repo).len() > 0 && valid_utf8(f.source) {
            self.query_edges(repo, f, f.parsed.symbols.len())
        } else {
            Seq::empty()
        })
    }

    /// Every edge out of a file, each once, in order.
    pub open spec fn edges_of(self, repo: Seq<char>, f: IndexedV) -> Seq<EdgeV> {
        deduped(sorted(self.found_edges(repo, f), |a: EdgeV, b: EdgeV| edge_lt(a, b)))
    }
}

/// The containment edges of a file.
pub open spec fn contains_edges(repo: Seq<char>, f: IndexedV) -> Seq<EdgeV> {
    Seq::new(
        f.parsed.symbols.len(),
        |i: int|
            EdgeV {
                src: parent_in(repo, f.path, f.parsed, i),
                dst: sym_ids(repo, f.path, f.parsed)[i],
                kind: EdgeKind::Contains,
            },
    )
}

/// The import edges of a file.
pub open spec fn import_edges(repo: Seq<char>, f: IndexedV, scope: Seq<Seq<char>>) -> Seq<EdgeV> {
    scope.map_values(
        |t: Seq<char>|
            EdgeV {
                src: file_id_of(repo, f.path),
                dst: file_id_of(repo, t),
                kind: EdgeKind::Imports,
            },
    )
}

// ---------------------------------------------------------------- the operations

fn imported_files(imports: &Vec<RawImport>, lang: &str, path: &str, files: &FileIndex) -> (r: Vec<
    String,
>)
    ensures
        r.deep_view() == targets(imports.deep_view(), lang@, path@, files@),
{
    let ghost all = imports.deep_view();
    let mut out: Vec<String> = no_rows();
    let mut i: usize = 0;
    while i < imports.len()
        invariant
            all == imports.deep_view(),
            i <= imports@.len(),
            out.deep_view() == targets(all.take(i as int), lang@, path@, files@),
        decreases imports@.len() - i,
    {
        proof {
            assert(all.take(i + 1).drop_last() =~= all.take(i as int));
            assert(all.take(i + 1).last() == imports@[i as int].deep_view());
        }
        let found = resolve(lang, path, imports[i].specifier.as_str(), files);
        let other = |t: &String| -> (b: bool)
            ensures b == (t.deep_view() != path@)
        {
            !same(t.as_str(), path)
        };
        let mut more = keep(&found, other, Ghost(|t: Seq<char>| t != path@));
        let ghost o0 = out.deep_view();
        let ghost m0 = more.deep_view();
        out.append(&mut more);
        assert(out.deep_view() =~= o0 + m0);
        i += 1;
    }
    assert(all.take(i as int) =~= all);
    out
}

fn text_of_symbol(source: &Vec<u8>, start: usize, end: usize) -> (r: String)
    ensures
        r@ == symbol_text(source@, start, end),
{
    let stop = if end < source.len() {
        end
    } else {
        source.len()
    };
    if start <= stop {
        let part = vstd::slice::slice_subrange(source.as_slice(), start, stop);
        if let Some(s) = decode(part) {
            proof {
                encode_utf8_decode_utf8(s@);
            }
            return s;
        }
    }
    let none = String::new();
    assert(none@ =~= Seq::empty());
    none
}

/// Cuts every run of equal edges down to one.
pub(crate) fn dedup_edges(v: &Vec<Edge>) -> (r: Vec<Edge>)
    ensures
        r.deep_view() == deduped(v.deep_view()),
{
    let ghost all = v.deep_view();
    let mut out: Vec<Edge> = no_rows();
    let mut i: usize = 0;
    assert(out.deep_view() =~= deduped(all.take(0)));
    while i < v.len()
        invariant
            all == v.deep_view(),
            i <= v@.len(),
            out.deep_view() == deduped(all.take(i as int)),
        decreases v@.len() - i,
    {
        proof {
            assert(all.take(i + 1).drop_last() =~= all.take(i as int));
        }
        let fresh = if i == 0 {
            true
        } else {
            let a = &v[i];
            let b = &v[i - 1];
            assert(all[i as int] == a.deep_view() && all[i - 1] == b.deep_view());
            !(same(a.src.as_str(), b.src.as_str()) && same(a.dst.as_str(), b.dst.as_str()) && a.kind
                == b.kind)
        };
        if fresh {
            append(&mut out, v[i].clone());
        }
        if i == 0 {
            assert(out.deep_view() =~= all.take(1));
        }
        i += 1;
    }
    assert(all.take(i as int) =~= all);
    out
}

impl Store {
    /// What a referenced name means.
    pub(crate) fn resolve_reference(&self, repo_id: &str, name: &str, from: &str, scope: &Vec<String>) -> (r:
        Option<String>)
        ensures
            r.deep_view() == self@.referred(repo_id@, name@, from@, scope.deep_view()),
    {
        let may = |s: &Symbol| -> (b: bool)
            ensures b == (s.deep_view().repo_id == repo_id@ && s.deep_view().name == name@ && !(s.deep_view().kind is File) && !(s.deep_view().kind is Service) && !(s.deep_view().kind is Table))
        {
            same(s.repo_id.as_str(), repo_id) && same(s.name.as_str(), name) && s.kind
                != SymbolKind::File && s.kind != SymbolKind::Service && s.kind != SymbolKind::Table
        };
        let all = keep(
            &self.symbols,
            may,
            Ghost(
                |s: SymbolV|
                    s.repo_id == repo_id@ && s.name == name@ && !(s.kind is File)
                        && !(s.kind is Service) && !(s.kind is Table),
            ),
        );
        let here = |s: &Symbol| -> (b: bool)
            ensures b == (s.deep_view().path == from@)
        {
            same(s.path.as_str(), from)
        };
        let near = |s: &Symbol| -> (b: bool)
            ensures b == scope.deep_view().contains(s.deep_view().path)
        {
            holds_text(scope, s.path.as_str())
        };
        let local = keep(&all, here, Ghost(|s: SymbolV| s.path == from@));
        let imported = keep(&all, near, Ghost(|s: SymbolV| scope.deep_view().contains(s.path)));
        proof {
            assert(local@.len() == local.deep_view().len());
            assert(imported@.len() == imported.deep_view().len());
            assert(all@.len() == all.deep_view().len());
        }
        if local.len() == 1 {
            Some(local[0].id.clone())
        } else if local.len() > 1 {
            None
        } else if imported.len() == 1 {
            Some(imported[0].id.clone())
        } else if imported.len() == 0 && all.len() == 1 {
            Some(all[0].id.clone())
        } else {
            None
        }
    }

    fn tables(&self, repo_id: &str) -> (r: Vec<Symbol>)
        ensures
            r.deep_view() == self@.tables(repo_id@),
    {
        let test = |s: &Symbol| -> (b: bool)
            ensures b == (s.deep_view().repo_id == repo_id@ && s.deep_view().kind is Table)
        {
            same(s.repo_id.as_str(), repo_id) && s.kind == SymbolKind::Table
        };
        keep(
            &self.symbols,
            test,
            Ghost(|s: SymbolV| s.repo_id == repo_id@ && s.kind is Table),
        )
    }

    /// The names of a repository's tables, each once, in text order.
    pub fn known_tables(&self, repo_id: &str) -> (r: Vec<String>)
        ensures
            r.deep_view() == self@.known_tables(repo_id@),
    {
        let name = |s: &Symbol| -> (x: String)
            ensures x.deep_view() == s.deep_view().name
        {
            s.name.clone()
        };
        dedup_texts(
            &sort_texts(each(&self.tables(repo_id), name, Ghost(|s: SymbolV| s.name))),
        )
    }

    fn table(&self, repo_id: &str, name: &str) -> (r: Option<String>)
        ensures
            r.deep_view() == self@.table(repo_id@, name@),
    {
        let test = |s: &Symbol| -> (b: bool)
            ensures b == (s.deep_view().name == name@)
        {
            same(s.name.as_str(), name)
        };
        let rows = keep(&self.tables(repo_id), test, Ghost(|s: SymbolV| s.name == name@));
        let n = rows.len();
        assert(n == rows.deep_view().len());
        if n > 0 {
            Some(rows[n - 1].id.clone())
        } else {
            None
        }
    }

    fn reference_edge(
        &self,
        repo_id: &str,
        f: &Indexed,
        ids: &Vec<String>,
        scope: &Vec<String>,
        r: &ParsedRef,
    ) -> (e: Option<Edge>)
        requires
            f.deep_view().wf(),
            ids.deep_view() == sym_ids(repo_id@, f.path@, f.parsed.deep_view()),
            r.from matches Some(i) ==> i < f.parsed.symbols@.len(),
        ensures
            e.deep_view() == self@.reference_edge(
                repo_id@,
                f.deep_view(),
                scope.deep_view(),
                r.deep_view(),
            ),
    {
        proof {
            assert(ids@.len() == ids.deep_view().len());
            assert(f.roles@.len() == f.roles.deep_view().len());
            assert(f.parsed.symbols@.len() == f.parsed.symbols.deep_view().len());
        }
        let (src, test) = match r.from {
            Some(i) => {
                assert(ids.deep_view()[i as int] == ids@[i as int]@);
                assert(f.roles.deep_view()[i as int] == f.roles@[i as int].deep_view());
                let test = match f.roles[i].role {
                    Some(x) => x == Role::Test,
                    None => false,
                };
                (ids[i].clone(), test)
            },
            None => (file_symbol_id(repo_id, f.path.as_str()), false),
        };
        match self.resolve_reference(repo_id, r.name.as_str(), f.path.as_str(), scope) {
            Some(dst) => {
                if same(dst.as_str(), src.as_str()) {
                    None
                } else {
                    let kind = if test && r.kind == EdgeKind::Calls {
                        EdgeKind::Tests
                    } else {
                        r.kind
                    };
                    Some(Edge { src, dst, kind })
                }
            },
            None => None,
        }
    }

    fn table_edges(&self, repo_id: &str, src: &str, names: &Vec<String>) -> (r: Vec<Edge>)
        ensures
            r.deep_view() == self@.table_edges(repo_id@, src@, names.deep_view()),
    {
        let ghost all = names.deep_view();
        let mut out: Vec<Edge> = no_rows();
        let mut i: usize = 0;
        while i < names.len()
            invariant
                all == names.deep_view(),
                i <= names@.len(),
                out.deep_view() == self@.table_edges(repo_id@, src@, all.take(i as int)),
            decreases names@.len() - i,
        {
            proof {
                assert(all.take(i + 1).drop_last() =~= all.take(i as int));
                assert(all.take(i + 1).last() == names@[i as int]@);
            }
            if let Some(dst) = self.table(repo_id, names[i].as_str()) {
                append(&mut out, Edge { src: src.to_owned(), dst, kind: EdgeKind::Queries });
            }
            i += 1;
        }
        assert(all.take(i as int) =~= all);
        out
    }

    /// Every edge out of a file, each once, in order.
    pub(crate) fn build_edges(&self, repo_id: &str, f: &Indexed) -> (r: Vec<Edge>)
        requires
            f.deep_view().wf(),
        ensures
            r.deep_view() == self@.edges_of(repo_id@, f.deep_view()),
    {
        let ghost fv = f.deep_view();
        let ghost pv = f.parsed.deep_view();
        let path = f.path.as_str();
        let file_id = file_symbol_id(repo_id, path);
        let ids = ids_in(repo_id, path, &f.parsed);
        let count = f.parsed.symbols.len();
        proof {
            assert(count == pv.symbols.len());
            assert(ids@.len() == ids.deep_view().len());
        }
        let mut edges: Vec<Edge> = no_rows();
        let mut i: usize = 0;
        while i < count
            invariant
                fv == f.deep_view(),
                pv == f.parsed.deep_view(),
                fv.wf(),
                path@ == fv.path,
                count == pv.symbols.len(),
                count == f.parsed.symbols@.len(),
                ids@.len() == count,
                ids.deep_view() == sym_ids(repo_id@, fv.path, pv),
                file_id@ == file_id_of(repo_id@, fv.path),
                i <= count,
                edges.deep_view() == contains_edges(repo_id@, fv).take(i as int),
            decreases count - i,
        {
            let ghost k = i as int;
            proof {
                assert(pv.symbols[k] == f.parsed.symbols@[k].deep_view());
                assert(ids.deep_view()[k] == ids@[k]@);
            }
            let src = match f.parsed.symbols[i].parent {
                Some(p) => {
                    assert(pv.symbols[k].parent matches Some(q) ==> q < k);
                    assert(ids.deep_view()[p as int] == ids@[p as int]@);
                    ids[p].clone()
                },
                None => file_id.clone(),
            };
            append(&mut edges, Edge { src, dst: ids[i].clone(), kind: EdgeKind::Contains });
            assert(contains_edges(repo_id@, fv).take(k + 1) =~= contains_edges(repo_id@, fv).take(
                k,
            ).push(contains_edges(repo_id@, fv)[k]));
            i += 1;
        }
        assert(contains_edges(repo_id@, fv).take(i as int) =~= contains_edges(repo_id@, fv));

        let files = FileIndex::new(self.indexed_files(repo_id));
        let imports = extract_for_path(path, f.source.as_slice());
        let scope = imported_files(&imports, f.parsed.lang, path, &files);
        let ghost sc = scope.deep_view();
        proof {
            assert(grammar_of_path(fv.path) is None ==> sc =~= Seq::empty());
            assert(sc == fv.imported(self@.indexed_files(repo_id@)));
        }
        let edge = |t: &String| -> (e: Edge)
            ensures e.deep_view() == (EdgeV { src: file_id_of(repo_id@, path@), dst: file_id_of(repo_id@, t.deep_view()), kind: EdgeKind::Imports })
        {
            Edge {
                src: file_id.clone(),
                dst: file_symbol_id(repo_id, t.as_str()),
                kind: EdgeKind::Imports,
            }
        };
        let mut more = each(
            &scope,
            edge,
            Ghost(
                |t: Seq<char>|
                    EdgeV {
                        src: file_id_of(repo_id@, path@),
                        dst: file_id_of(repo_id@, t),
                        kind: EdgeKind::Imports,
                    },
            ),
        );
        let ghost m1 = more.deep_view();
        assert(m1 =~= import_edges(repo_id@, fv, sc));
        let ghost e0 = edges.deep_view();
        edges.append(&mut more);
        assert(edges.deep_view() =~= e0 + m1);

        let ghost e1 = edges.deep_view();
        let mut j: usize = 0;
        assert(e1 + self@.reference_edges(repo_id@, fv, sc, pv.refs.take(0)) =~= e1);
        while j < f.parsed.refs.len()
            invariant
                fv == f.deep_view(),
                pv == f.parsed.deep_view(),
                fv.wf(),
                sc == scope.deep_view(),
                ids.deep_view() == sym_ids(repo_id@, fv.path, pv),
                j <= f.parsed.refs@.len(),
                edges.deep_view() == e1 + self@.reference_edges(
                    repo_id@,
                    fv,
                    sc,
                    pv.refs.take(j as int),
                ),
            decreases f.parsed.refs@.len() - j,
        {
            let r = &f.parsed.refs[j];
            proof {
                assert(pv.refs[j as int] == r.deep_view());
                assert(pv.symbols.len() == f.parsed.symbols@.len());
                assert(pv.refs.take(j + 1).drop_last() =~= pv.refs.take(j as int));
                assert(pv.refs.take(j + 1).last() == r.deep_view());
            }
            if let Some(e) = self.reference_edge(repo_id, f, &ids, &scope, r) {
                let ghost rest = self@.reference_edges(repo_id@, fv, sc, pv.refs.take(j as int));
                let ghost ev = e.deep_view();
                append(&mut edges, e);
                assert((e1 + rest).push(ev) =~= e1 + rest.push(ev));
            }
            j += 1;
        }
        assert(pv.refs.take(j as int) =~= pv.refs);

        let ghost e2 = edges.deep_view();
        let known = self.known_tables(repo_id);
        assert(known@.len() == known.deep_view().len());
        if known.len() > 0 && decode(f.source.as_slice()).is_some() {
            let mut n: usize = 0;
            assert(e2 + self@.query_edges(repo_id@, fv, 0) =~= e2);
            while n < count
                invariant
                    fv == f.deep_view(),
                    pv == f.parsed.deep_view(),
                    count == pv.symbols.len(),
                    count == f.parsed.symbols@.len(),
                    ids@.len() == count,
                    ids.deep_view() == sym_ids(repo_id@, fv.path, pv),
                    known.deep_view() == self@.known_tables(repo_id@),
                    n <= count,
                    edges.deep_view() == e2 + self@.query_edges(repo_id@, fv, n as nat),
                decreases count - n,
            {
                let s = &f.parsed.symbols[n];
                proof {
                    assert(pv.symbols[n as int] == s.deep_view());
                    assert(ids.deep_view()[n as int] == ids@[n as int]@);
                }
                let body = text_of_symbol(&f.source, s.start_byte, s.end_byte);
                let names = referenced(body.as_str(), &known);
                let mut more = self.table_edges(repo_id, ids[n].as_str(), &names);
                let ghost q0 = self@.query_edges(repo_id@, fv, n as nat);
                let ghost m0 = more.deep_view();
                edges.append(&mut more);
                assert(edges.deep_view() =~= (e2 + q0) + m0);
                assert((e2 + q0) + m0 =~= e2 + (q0 + m0));
                n += 1;
            }
        } else {
            assert(e2 + Seq::<EdgeV>::empty() =~= e2);
        }
        assert(edges.deep_view() =~= self@.found_edges(repo_id@, fv));
        let ghost lt = |a: EdgeV, b: EdgeV| edge_lt(a, b);
        assert(rank::<Edge>() =~= lt);
        dedup_edges(&stable_sort(edges))
    }
}

// ------------------------------------------------------------------------ laws

/// The order of edges is one that sorting can use, and no two different edges tie.
proof fn lemma_edge_order()
    ensures
        weak_order(|a: EdgeV, b: EdgeV| edge_lt(a, b)),
        forall|a: EdgeV, b: EdgeV| #[trigger] edge_lt(a, b) || edge_lt(b, a) || a == b,
{
    let f = |a: EdgeV, b: EdgeV| edge_lt(a, b);
    assert forall|a: EdgeV, b: EdgeV| #[trigger] edge_lt(a, b) || edge_lt(b, a) || a == b by {
        crate::text::law_text_order_total(a.src, b.src);
        crate::text::law_text_order_total(a.dst, b.dst);
        crate::text::law_text_order_total(a.kind.word(), b.kind.word());
        if a.kind.word() == b.kind.word() {
            crate::model::law_edge_kind_words(a.kind, b.kind);
        }
    }
    assert forall|a: EdgeV, b: EdgeV| #[trigger] f(a, b) implies !f(b, a) by {
        crate::text::law_text_order_total(a.src, b.src);
        crate::text::law_text_order_total(a.dst, b.dst);
        crate::text::law_text_order_total(a.kind.word(), b.kind.word());
    }
    assert forall|a: EdgeV, b: EdgeV, c: EdgeV|
        #![trigger f(a, b), f(c, b)]
        f(a, b) && !f(c, b) implies f(a, c) by {
        crate::text::law_text_order_total(c.src, b.src);
        crate::text::law_text_order_total(c.dst, b.dst);
        crate::text::law_text_order_total(c.kind.word(), b.kind.word());
        crate::text::law_text_order_total(a.src, b.src);
        crate::text::law_text_order_total(a.dst, b.dst);
        if text_lt(a.src, b.src) && text_lt(b.src, c.src) {
            crate::text::law_text_order_transitive(a.src, b.src, c.src);
        }
        if text_lt(a.dst, b.dst) && text_lt(b.dst, c.dst) {
            crate::text::law_text_order_transitive(a.dst, b.dst, c.dst);
        }
        if text_lt(a.kind.word(), b.kind.word()) && text_lt(b.kind.word(), c.kind.word()) {
            crate::text::law_text_order_transitive(a.kind.word(), b.kind.word(), c.kind.word());
        }
    }
}

/// Where nothing stands behind what it is before, cutting runs leaves a list that
/// rises from each item to the next.
proof fn lemma_dedup_rises(s: Seq<EdgeV>)
    requires
        forall|i: int, j: int|
            0 <= i < j < s.len() ==> !edge_lt(#[trigger] s[j], #[trigger] s[i]),
    ensures
        forall|i: int, j: int|
            0 <= i < j < deduped(s).len() ==> edge_lt(
                #[trigger] deduped(s)[i],
                #[trigger] deduped(s)[j],
            ),
        s.len() > 0 ==> deduped(s).len() > 0 && deduped(s).last() == s.last(),
        forall|k: int| 0 <= k < deduped(s).len() ==> s.contains(#[trigger] deduped(s)[k]),
    decreases s.len(),
{
    lemma_edge_order();
    let d = deduped(s);
    if s.len() >= 2 {
        let t = s.drop_last();
        lemma_dedup_rises(t);
        assert forall|k: int| 0 <= k < deduped(t).len() implies s.contains(
            #[trigger] deduped(t)[k],
        ) by {
            let q = choose|q: int| 0 <= q < t.len() && t[q] == deduped(t)[k];
            assert(s[q] == deduped(t)[k]);
        }
        if s.last() != s[s.len() - 2] {
            assert(t.last() == s[s.len() - 2]);
            assert(!edge_lt(s[s.len() - 1], s[s.len() - 2]));
            assert(edge_lt(s[s.len() - 2], s.last()));
            let f = |a: EdgeV, b: EdgeV| edge_lt(a, b);
            assert forall|i: int, j: int| 0 <= i < j < d.len() implies edge_lt(
                #[trigger] d[i],
                #[trigger] d[j],
            ) by {
                if j == d.len() - 1 {
                    if i < d.len() - 2 {
                        assert(edge_lt(deduped(t)[i], deduped(t).last()));
                        assert(f(deduped(t)[i], t.last()));
                        assert(f(t.last(), s.last()));
                        assert(!f(s.last(), t.last()));
                        assert(f(deduped(t)[i], s.last()));
                    }
                }
            }
            assert forall|k: int| 0 <= k < d.len() implies s.contains(#[trigger] d[k]) by {
                if k == d.len() - 1 {
                    assert(s[s.len() - 1] == d[k]);
                } else {
                    assert(d[k] == deduped(t)[k]);
                }
            }
        }
    } else if s.len() == 1 {
        assert(s[0] == d[0]);
    }
}

/// The edges out of a file come in order, and none comes twice.
pub proof fn law_edges_rise(s: StoreV, repo: Seq<char>, f: IndexedV, i: int, j: int)
    requires
        0 <= i < j < s.edges_of(repo, f).len(),
    ensures
        edge_lt(s.edges_of(repo, f)[i], s.edges_of(repo, f)[j]),
        s.edges_of(repo, f)[i] != s.edges_of(repo, f)[j],
{
    lemma_edge_order();
    let lt = |a: EdgeV, b: EdgeV| edge_lt(a, b);
    let all = sorted(s.found_edges(repo, f), lt);
    law_sorted_ordered(s.found_edges(repo, f), lt);
    assert forall|p: int, q: int| 0 <= p < q < all.len() implies !edge_lt(
        #[trigger] all[q],
        #[trigger] all[p],
    ) by {
        assert(!lt(all[q], all[p]));
    }
    lemma_dedup_rises(all);
    let e = s.edges_of(repo, f);
    assert(lt(e[i], e[j]));
    assert(!lt(e[j], e[i]));
}

/// Does the edge start at the file, or at one of its symbols?
pub open spec fn starts_in(repo: Seq<char>, f: IndexedV, e: EdgeV) -> bool {
    e.src == file_id_of(repo, f.path) || sym_ids(repo, f.path, f.parsed).contains(e.src)
}

proof fn lemma_id_in(repo: Seq<char>, f: IndexedV, at: Option<usize>)
    ensures
        id_in(repo, f.path, f.parsed, at) == file_id_of(repo, f.path) || sym_ids(
            repo,
            f.path,
            f.parsed,
        ).contains(id_in(repo, f.path, f.parsed, at)),
{
    if let Some(p) = at {
        if p < f.parsed.symbols.len() {
            let ids = sym_ids(repo, f.path, f.parsed);
            assert(ids[p as int] == id_in(repo, f.path, f.parsed, at));
        }
    }
}

proof fn lemma_reference_edges_start(
    s: StoreV,
    repo: Seq<char>,
    f: IndexedV,
    scope: Seq<Seq<char>>,
    refs: Seq<ParsedRefV>,
    k: int,
)
    requires
        0 <= k < s.reference_edges(repo, f, scope, refs).len(),
    ensures
        starts_in(repo, f, s.reference_edges(repo, f, scope, refs)[k]),
    decreases refs.len(),
{
    let rest = s.reference_edges(repo, f, scope, refs.drop_last());
    if k < rest.len() {
        lemma_reference_edges_start(s, repo, f, scope, refs.drop_last(), k);
    } else {
        lemma_id_in(repo, f, refs.last().from);
    }
}

proof fn lemma_table_edges_start(s: StoreV, repo: Seq<char>, src: Seq<char>, names: Seq<Seq<char>>, k: int)
    requires
        0 <= k < s.table_edges(repo, src, names).len(),
    ensures
        s.table_edges(repo, src, names)[k].src == src,
    decreases names.len(),
{
    let rest = s.table_edges(repo, src, names.drop_last());
    if k < rest.len() {
        lemma_table_edges_start(s, repo, src, names.drop_last(), k);
    }
}

proof fn lemma_query_edges_start(s: StoreV, repo: Seq<char>, f: IndexedV, n: nat, k: int)
    requires
        n <= f.parsed.symbols.len(),
        0 <= k < s.query_edges(repo, f, n).len(),
    ensures
        starts_in(repo, f, s.query_edges(repo, f, n)[k]),
    decreases n,
{
    let before = s.query_edges(repo, f, (n - 1) as nat);
    if k < before.len() {
        lemma_query_edges_start(s, repo, f, (n - 1) as nat, k);
    } else {
        let x = f.parsed.symbols[n - 1];
        let src = sym_ids(repo, f.path, f.parsed)[n - 1];
        let names = touched(
            symbol_text(f.source, x.start_byte, x.end_byte),
            s.known_tables(repo),
        );
        lemma_table_edges_start(s, repo, src, names, k - before.len());
        assert(sym_ids(repo, f.path, f.parsed).contains(src));
    }
}

/// Every edge that a file gives starts at the file or at one of its symbols.
pub proof fn law_edges_start_in_their_file(s: StoreV, repo: Seq<char>, f: IndexedV, k: int)
    requires
        0 <= k < s.edges_of(repo, f).len(),
    ensures
        starts_in(repo, f, s.edges_of(repo, f)[k]),
{
    let e = s.edges_of(repo, f)[k];
    let found = s.found_edges(repo, f);
    let lt = |a: EdgeV, b: EdgeV| edge_lt(a, b);
    let all = sorted(found, lt);
    lemma_dedup_from(all, k);
    law_sorted_keeps(found, lt);
    lemma_listed_once(found, all, e);
    let i = found.index_of(e);
    let scope = f.imported(s.indexed_files(repo));
    let a = contains_edges(repo, f);
    let b = import_edges(repo, f, scope);
    let c = s.reference_edges(repo, f, scope, f.parsed.refs);
    if i < a.len() {
        lemma_id_in(repo, f, f.parsed.symbols[i].parent);
    } else if i < a.len() + b.len() {
        assert(b[i - a.len()].src == file_id_of(repo, f.path));
    } else if i < a.len() + b.len() + c.len() {
        lemma_reference_edges_start(s, repo, f, scope, f.parsed.refs, i - a.len() - b.len());
    } else {
        lemma_query_edges_start(
            s,
            repo,
            f,
            f.parsed.symbols.len(),
            i - a.len() - b.len() - c.len(),
        );
    }
}

proof fn lemma_dedup_from(s: Seq<EdgeV>, k: int)
    requires
        0 <= k < deduped(s).len(),
    ensures
        s.contains(deduped(s)[k]),
    decreases s.len(),
{
    if s.len() >= 2 {
        let t = s.drop_last();
        if k < deduped(t).len() {
            lemma_dedup_from(t, k);
            let q = choose|q: int| 0 <= q < t.len() && t[q] == deduped(t)[k];
            assert(s[q] == deduped(s)[k]);
        } else {
            assert(s[s.len() - 1] == deduped(s)[k]);
        }
    } else {
        assert(s[k] == deduped(s)[k]);
    }
}

/// A name that several symbols here share, or several imported ones where none is
/// here, is left unresolved.
pub proof fn law_ambiguous_is_left_alone(
    s: StoreV,
    repo: Seq<char>,
    name: Seq<char>,
    from: Seq<char>,
    scope: Seq<Seq<char>>,
)
    ensures
        ({
            let all = s.candidates(repo, name);
            let local = all.filter(|x: SymbolV| x.path == from);
            let imported = all.filter(|x: SymbolV| scope.contains(x.path));
            s.referred(repo, name, from, scope) is None <==> local.len() > 1 || local.len() == 0 && (
            imported.len() > 1 || imported.len() == 0 && all.len() != 1)
        }),
{
}

/// Whatever a name resolves to is a symbol of the same repository with that name.
pub proof fn law_reference_stays_inside(
    s: StoreV,
    repo: Seq<char>,
    name: Seq<char>,
    from: Seq<char>,
    scope: Seq<Seq<char>>,
)
    requires
        s.referred(repo, name, from, scope) is Some,
    ensures
        exists|k: int|
            0 <= k < s.symbols.len() && (#[trigger] s.symbols[k]).repo_id == repo && s.symbols[k].name
                == name && s.referred(repo, name, from, scope) == Some(s.symbols[k].id),
{
    let p = |x: SymbolV|
        x.repo_id == repo && x.name == name && !(x.kind is File) && !(x.kind is Service) && !(
        x.kind is Table);
    let all = s.candidates(repo, name);
    let here = |x: SymbolV| x.path == from;
    let near = |x: SymbolV| scope.contains(x.path);
    let hit = if all.filter(here).len() == 1 {
        all.filter(here)[0]
    } else if all.filter(near).len() == 1 {
        all.filter(near)[0]
    } else {
        all[0]
    };
    if all.filter(here).len() == 1 {
        assert(all.filter(here).contains(hit));
        all.lemma_filter_contains_rev(here, hit);
    } else if all.filter(near).len() == 1 {
        assert(all.filter(near).contains(hit));
        all.lemma_filter_contains_rev(near, hit);
    } else {
        assert(all.contains(hit));
    }
    s.symbols.lemma_filter_contains_rev(p, hit);
    let q = choose|q: int| 0 <= q < all.len() && all[q] == hit;
    s.symbols.lemma_filter_pred(p, q);
    let k = choose|k: int| 0 <= k < s.symbols.len() && s.symbols[k] == hit;
    assert(s.symbols[k].id == hit.id);
}

} // verus!
