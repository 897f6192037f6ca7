//! Which edges a file has.

use vstd::prelude::*;
use vstd::string::*;
use vstd::utf8::*;

use crate::arch_laws::lemma_sorted_has;
use crate::edges::{contains_edges, edge_lt, import_edges, symbol_text, targets, IndexedV};
use crate::goal_laws::lemma_deduped;
use crate::imports::{extracted, resolved, RawImportV};
use crate::index::{file_id_of, id_in, parent_in, sym_ids};
use crate::lang::grammar_of_path;
use crate::lookup_laws::{lemma_filter_count, lemma_filtered};
use crate::model::{EdgeKind, EdgeV, Role, SymbolV};
use crate::order::{deduped, sorted, sorted_texts};
use crate::parse::ParsedRefV;
use crate::sql::{hits_in, regex_matches, table_name, touched, FoundV, REFS};
use crate::store::StoreV;
use crate::text::text_lt;

verus! {

broadcast use vstd::string::group_string_axioms;

/// Can a name in a repository's source mean this symbol? Files, services and tables are
/// not meant by name.
pub open spec fn can_be_meant(x: SymbolV, repo: Seq<char>, name: Seq<char>) -> bool {
    &&& x.repo_id == repo
    &&& x.name == name
    &&& !(x.kind is File)
    &&& !(x.kind is Service)
    &&& !(x.kind is Table)
}

/// Does a file import another?
pub open spec fn brings_in(s: StoreV, repo: Seq<char>, f: IndexedV, t: Seq<char>) -> bool {
    &&& t != f.path
    &&& grammar_of_path(f.path) is Some
    &&& exists|n: int|
        0 <= n < extracted(grammar_of_path(f.path)->0, f.source).len() && resolved(
            f.parsed.lang,
            f.path,
            #[trigger] extracted(grammar_of_path(f.path)->0, f.source)[n].specifier,
            s.indexed_files(repo),
        ).contains(t)
}

/// Is it the symbol that a name in a file means? The only one with that name in the file
/// itself; or, where there is none, the only one in the files that it imports; or, where
/// there is none either, the only one in the repository.
pub open spec fn means(s: StoreV, repo: Seq<char>, f: IndexedV, name: Seq<char>, k: int) -> bool {
    &&& 0 <= k < s.symbols.len()
    &&& can_be_meant(s.symbols[k], repo, name)
    &&& {
        ||| s.symbols[k].path == f.path && forall|j: int|
            0 <= j < s.symbols.len() && can_be_meant(#[trigger] s.symbols[j], repo, name) && s.symbols[j].path
                == f.path ==> j == k
        ||| {
            &&& forall|j: int|
                0 <= j < s.symbols.len() && can_be_meant(#[trigger] s.symbols[j], repo, name)
                    ==> s.symbols[j].path != f.path
            &&& brings_in(s, repo, f, s.symbols[k].path)
            &&& forall|j: int|
                0 <= j < s.symbols.len() && can_be_meant(#[trigger] s.symbols[j], repo, name) && brings_in(
                    s,
                    repo,
                    f,
                    s.symbols[j].path,
                ) ==> j == k
        }
        ||| {
            &&& forall|j: int|
                0 <= j < s.symbols.len() && can_be_meant(#[trigger] s.symbols[j], repo, name) ==> j == k
            &&& s.symbols[k].path != f.path
            &&& !brings_in(s, repo, f, s.symbols[k].path)
        }
    }
}

proof fn lemma_twice<A>(s: Seq<A>, p: spec_fn(A) -> bool, q: spec_fn(A) -> bool, both: spec_fn(A) -> bool)
    requires
        forall|x: A| #[trigger] both(x) <==> p(x) && q(x),
    ensures
        s.filter(p).filter(q) == s.filter(both),
    decreases s.len(),
{
    reveal(Seq::filter);
    if s.len() > 0 {
        let init = s.drop_last();
        lemma_twice(init, p, q, both);
        let x = s.last();
        assert(both(x) <==> p(x) && q(x));
        if p(x) {
            let a = init.filter(p);
            assert(a.push(x).drop_last() =~= a);
            assert(a.push(x).last() == x);
        }
    }
}

pub(crate) proof fn lemma_filter_same<A>(s: Seq<A>, p: spec_fn(A) -> bool, q: spec_fn(A) -> bool)
    requires
        forall|x: A| #[trigger] p(x) <==> q(x),
    ensures
        s.filter(p) == s.filter(q),
    decreases s.len(),
{
    reveal(Seq::filter);
    if s.len() > 0 {
        lemma_filter_same(s.drop_last(), p, q);
        assert(p(s.last()) <==> q(s.last()));
    }
}

proof fn lemma_targets(
    imports: Seq<RawImportV>,
    lang: Seq<char>,
    path: Seq<char>,
    files: Seq<Seq<char>>,
    x: Seq<char>,
)
    ensures
        targets(imports, lang, path, files).contains(x) <==> x != path && exists|n: int|
            0 <= n < imports.len() && resolved(lang, path, #[trigger] imports[n].specifier, files).contains(x),
    decreases imports.len(),
{
    if imports.len() > 0 {
        let init = imports.drop_last();
        let last = imports.len() - 1;
        lemma_targets(init, lang, path, files, x);
        let p = |t: Seq<char>| t != path;
        let mine = resolved(lang, path, imports.last().specifier, files);
        let a = targets(init, lang, path, files);
        let b = mine.filter(p);
        lemma_filtered(mine, p, x);
        let all = targets(imports, lang, path, files);
        assert(all == a + b) by {
            assert forall|g: spec_fn(Seq<char>) -> bool|
                (forall|u: Seq<char>| #[trigger] g(u) <==> u != path) implies #[trigger] mine.filter(g) == b by {
                lemma_filter_same(mine, g, p);
            }
        }
        if all.contains(x) {
            let k = choose|k: int| 0 <= k < all.len() && all[k] == x;
            if k < a.len() {
                assert(a[k] == x);
                let n = choose|n: int|
                    0 <= n < init.len() && resolved(lang, path, #[trigger] init[n].specifier, files).contains(x);
                assert(imports[n].specifier == init[n].specifier);
            } else {
                assert(b[k - a.len()] == x);
                assert(resolved(lang, path, imports[last].specifier, files).contains(x));
            }
        }
        if x != path && exists|n: int|
            0 <= n < imports.len() && resolved(lang, path, #[trigger] imports[n].specifier, files).contains(x) {
            let n = choose|n: int|
                0 <= n < imports.len() && resolved(lang, path, #[trigger] imports[n].specifier, files).contains(x);
            if n < last {
                assert(init[n].specifier == imports[n].specifier);
                let k = choose|k: int| 0 <= k < a.len() && a[k] == x;
                assert(all[k] == x);
            } else {
                let k = choose|k: int| 0 <= k < b.len() && b[k] == x;
                assert(all[a.len() + k] == x);
            }
        }
    }
}

proof fn lemma_scope(s: StoreV, repo: Seq<char>, f: IndexedV, t: Seq<char>)
    ensures
        f.imported(s.indexed_files(repo)).contains(t) <==> brings_in(s, repo, f, t),
{
    if let Some(g) = grammar_of_path(f.path) {
        lemma_targets(extracted(g, f.source), f.parsed.lang, f.path, s.indexed_files(repo), t);
    }
}

pub(crate) proof fn lemma_the_one<A>(s: Seq<A>, p: spec_fn(A) -> bool)
    requires
        s.filter(p).len() == 1,
    ensures
        exists|k: int|
            0 <= k < s.len() && p(#[trigger] s[k]) && s.filter(p)[0] == s[k] && forall|j: int|
                0 <= j < s.len() && p(#[trigger] s[j]) ==> j == k,
{
    lemma_filter_count(s, p);
    assert(!(forall|i: int| 0 <= i < s.len() ==> !p(#[trigger] s[i])));
    let k = choose|k: int| 0 <= k < s.len() && p(#[trigger] s[k]);
    assert forall|j: int| 0 <= j < s.len() && p(#[trigger] s[j]) implies j == k by {
        if j < k {
            assert(p(s[j]) && p(s[k]));
        }
        if k < j {
            assert(p(s[k]) && p(s[j]));
        }
    }
    assert(s.filter(p) == seq![s[k]]);
}

proof fn lemma_no_one<A>(s: Seq<A>, p: spec_fn(A) -> bool, j: int)
    requires
        s.filter(p).len() == 0,
        0 <= j < s.len(),
    ensures
        !p(s[j]),
{
    lemma_filter_count(s, p);
}

/// What a name means, and when it means something.
proof fn lemma_means(s: StoreV, repo: Seq<char>, f: IndexedV, name: Seq<char>)
    ensures
        ({
            let r = s.referred(repo, name, f.path, f.imported(s.indexed_files(repo)));
            &&& forall|k: int| #[trigger] means(s, repo, f, name, k) ==> r == Some(s.symbols[k].id)
            &&& r is Some ==> exists|k: int|
                #[trigger] means(s, repo, f, name, k) && r == Some(s.symbols[k].id)
        }),
{
    let scope = f.imported(s.indexed_files(repo));
    let p = |x: SymbolV|
        x.repo_id == repo && x.name == name && !(x.kind is File) && !(x.kind is Service) && !(x.kind is Table);
    let here = |x: SymbolV| x.path == f.path;
    let near = |x: SymbolV| scope.contains(x.path);
    let p_here = |x: SymbolV| can_be_meant(x, repo, name) && x.path == f.path;
    let p_near = |x: SymbolV| can_be_meant(x, repo, name) && scope.contains(x.path);
    let all = s.candidates(repo, name);
    assert(all == s.symbols.filter(p));
    lemma_twice(s.symbols, p, here, p_here);
    lemma_twice(s.symbols, p, near, p_near);
    let a = s.symbols.filter(p_here);
    let b = s.symbols.filter(p_near);
    let r = s.referred(repo, name, f.path, scope);
    assert forall|t: Seq<char>| #[trigger] scope.contains(t) <==> brings_in(s, repo, f, t) by {
        lemma_scope(s, repo, f, t);
    }
    assert(!scope.contains(f.path));
    assert forall|k: int| #[trigger] means(s, repo, f, name, k) implies r == Some(s.symbols[k].id) by {
        lemma_referred_is(s, repo, f, name, k, p, p_here, p_near);
    }
    if r is Some {
        if a.len() == 1 {
            lemma_the_one(s.symbols, p_here);
            let k = choose|k: int|
                0 <= k < s.symbols.len() && p_here(#[trigger] s.symbols[k]) && a[0] == s.symbols[k] && forall|j: int|
                    0 <= j < s.symbols.len() && p_here(#[trigger] s.symbols[j]) ==> j == k;
            assert(means(s, repo, f, name, k)) by {
                assert forall|j: int|
                    0 <= j < s.symbols.len() && can_be_meant(#[trigger] s.symbols[j], repo, name)
                        && s.symbols[j].path == f.path implies j == k by {
                    assert(p_here(s.symbols[j]));
                }
            }
        } else {
            assert(a.len() == 0);
            assert forall|j: int|
                0 <= j < s.symbols.len() && can_be_meant(#[trigger] s.symbols[j], repo, name) implies s.symbols[j].path
                != f.path by {
                lemma_no_one(s.symbols, p_here, j);
            }
            if b.len() == 1 {
                lemma_the_one(s.symbols, p_near);
                let k = choose|k: int|
                    0 <= k < s.symbols.len() && p_near(#[trigger] s.symbols[k]) && b[0] == s.symbols[k] && forall|
                        j: int,
                    |
                        0 <= j < s.symbols.len() && p_near(#[trigger] s.symbols[j]) ==> j == k;
                assert(means(s, repo, f, name, k)) by {
                    assert forall|j: int|
                        0 <= j < s.symbols.len() && can_be_meant(#[trigger] s.symbols[j], repo, name) && brings_in(
                            s,
                            repo,
                            f,
                            s.symbols[j].path,
                        ) implies j == k by {
                        assert(p_near(s.symbols[j]));
                    }
                }
            } else {
                assert(b.len() == 0);
                lemma_the_one(s.symbols, p);
                let k = choose|k: int|
                    0 <= k < s.symbols.len() && p(#[trigger] s.symbols[k]) && all[0] == s.symbols[k] && forall|j: int|
                        0 <= j < s.symbols.len() && p(#[trigger] s.symbols[j]) ==> j == k;
                lemma_no_one(s.symbols, p_near, k);
                assert(means(s, repo, f, name, k)) by {
                    assert forall|j: int|
                        0 <= j < s.symbols.len() && can_be_meant(#[trigger] s.symbols[j], repo, name) implies j
                        == k by {
                        assert(p(s.symbols[j]));
                    }
                }
            }
        }
    }
}

proof fn lemma_referred_is(
    s: StoreV,
    repo: Seq<char>,
    f: IndexedV,
    name: Seq<char>,
    k: int,
    p: spec_fn(SymbolV) -> bool,
    p_here: spec_fn(SymbolV) -> bool,
    p_near: spec_fn(SymbolV) -> bool,
)
    requires
        means(s, repo, f, name, k),
        forall|x: SymbolV| #[trigger] p(x) <==> can_be_meant(x, repo, name),
        forall|x: SymbolV| #[trigger] p_here(x) <==> can_be_meant(x, repo, name) && x.path == f.path,
        forall|x: SymbolV|
            #[trigger] p_near(x) <==> can_be_meant(x, repo, name) && brings_in(s, repo, f, x.path),
    ensures
        s.symbols.filter(p_here).len() == 1 ==> s.symbols.filter(p_here)[0] == s.symbols[k],
        s.symbols.filter(p_here).len() <= 1,
        s.symbols.filter(p_here).len() == 0 ==> s.symbols.filter(p_near).len() <= 1,
        s.symbols.filter(p_here).len() == 0 && s.symbols.filter(p_near).len() == 1 ==> s.symbols.filter(p_near)[0]
            == s.symbols[k],
        s.symbols.filter(p_here).len() == 0 && s.symbols.filter(p_near).len() == 0 ==> s.symbols.filter(p)
            == seq![s.symbols[k]],
{
    let x = s.symbols[k];
    lemma_filter_count(s.symbols, p);
    lemma_filter_count(s.symbols, p_here);
    lemma_filter_count(s.symbols, p_near);
    if x.path == f.path {
        assert(p_here(s.symbols[k]));
        assert forall|j: int| 0 <= j < s.symbols.len() && p_here(#[trigger] s.symbols[j]) implies j == k by {
            assert(can_be_meant(s.symbols[j], repo, name));
        }
        assert(s.symbols.filter(p_here) == seq![s.symbols[k]]);
    } else {
        assert forall|j: int| 0 <= j < s.symbols.len() implies !p_here(#[trigger] s.symbols[j]) by {
            if p_here(s.symbols[j]) {
                assert(can_be_meant(s.symbols[j], repo, name));
            }
        }
        if brings_in(s, repo, f, x.path) {
            assert(p_near(s.symbols[k]));
            assert forall|j: int| 0 <= j < s.symbols.len() && p_near(#[trigger] s.symbols[j]) implies j == k by {
                assert(can_be_meant(s.symbols[j], repo, name));
            }
            assert(s.symbols.filter(p_near) == seq![s.symbols[k]]);
        } else {
            assert(p(s.symbols[k]));
            assert forall|j: int| 0 <= j < s.symbols.len() && p(#[trigger] s.symbols[j]) implies j == k by {
                assert(can_be_meant(s.symbols[j], repo, name));
            }
            assert forall|j: int| 0 <= j < s.symbols.len() implies !p_near(#[trigger] s.symbols[j]) by {
                if p_near(s.symbols[j]) {
                    assert(can_be_meant(s.symbols[j], repo, name));
                }
            }
            assert(s.symbols.filter(p) == seq![s.symbols[k]]);
        }
    }
}

proof fn lemma_edges_of(s: StoreV, repo: Seq<char>, f: IndexedV, e: EdgeV)
    ensures
        s.edges_of(repo, f).contains(e) <==> s.found_edges(repo, f).contains(e),
{
    let lt = |a: EdgeV, b: EdgeV| edge_lt(a, b);
    lemma_sorted_has(s.found_edges(repo, f), lt, e);
    lemma_deduped(sorted(s.found_edges(repo, f), lt), e);
}

pub(crate) proof fn lemma_parts<A>(a: Seq<A>, b: Seq<A>, x: A)
    ensures
        (a + b).contains(x) <==> a.contains(x) || b.contains(x),
{
    if a.contains(x) {
        let k = choose|k: int| 0 <= k < a.len() && a[k] == x;
        assert((a + b)[k] == x);
    }
    if b.contains(x) {
        let k = choose|k: int| 0 <= k < b.len() && b[k] == x;
        assert((a + b)[a.len() + k] == x);
    }
    if (a + b).contains(x) {
        let k = choose|k: int| 0 <= k < (a + b).len() && (a + b)[k] == x;
        if k < a.len() {
            assert(a[k] == x);
        } else {
            assert(b[k - a.len()] == x);
        }
    }
}

proof fn lemma_found(s: StoreV, repo: Seq<char>, f: IndexedV, e: EdgeV)
    ensures
        ({
            let scope = f.imported(s.indexed_files(repo));
            s.edges_of(repo, f).contains(e) <==> {
                ||| contains_edges(repo, f).contains(e)
                ||| import_edges(repo, f, scope).contains(e)
                ||| s.reference_edges(repo, f, scope, f.parsed.refs).contains(e)
                ||| s.known_tables(repo).len() > 0 && valid_utf8(f.source) && s.query_edges(
                    repo,
                    f,
                    f.parsed.symbols.len(),
                ).contains(e)
            }
        }),
{
    let scope = f.imported(s.indexed_files(repo));
    let a = contains_edges(repo, f);
    let b = import_edges(repo, f, scope);
    let c = s.reference_edges(repo, f, scope, f.parsed.refs);
    let d = if s.known_tables(repo).len() > 0 && valid_utf8(f.source) {
        s.query_edges(repo, f, f.parsed.symbols.len())
    } else {
        Seq::empty()
    };
    lemma_edges_of(s, repo, f, e);
    assert(s.found_edges(repo, f) == a + b + c + d);
    lemma_parts(a + b + c, d, e);
    lemma_parts(a + b, c, e);
    lemma_parts(a, b, e);
}

proof fn lemma_reference_edges(s: StoreV, repo: Seq<char>, f: IndexedV, scope: Seq<Seq<char>>, refs: Seq<ParsedRefV>, e: EdgeV)
    ensures
        s.reference_edges(repo, f, scope, refs).contains(e) <==> exists|j: int|
            0 <= j < refs.len() && s.reference_edge(repo, f, scope, #[trigger] refs[j]) == Some(e),
    decreases refs.len(),
{
    if refs.len() > 0 {
        let init = refs.drop_last();
        let last = refs.len() - 1;
        lemma_reference_edges(s, repo, f, scope, init, e);
        let a = s.reference_edges(repo, f, scope, init);
        let mine = match s.reference_edge(repo, f, scope, refs.last()) {
            Some(x) => seq![x],
            None => Seq::empty(),
        };
        assert(s.reference_edges(repo, f, scope, refs) =~= a + mine);
        lemma_parts(a, mine, e);
        if mine.contains(e) {
            assert(s.reference_edge(repo, f, scope, refs[last]) == Some(e));
        }
        if a.contains(e) {
            let j = choose|j: int|
                0 <= j < init.len() && s.reference_edge(repo, f, scope, #[trigger] init[j]) == Some(e);
            assert(refs[j] == init[j]);
        }
        if exists|j: int| 0 <= j < refs.len() && s.reference_edge(repo, f, scope, #[trigger] refs[j]) == Some(e) {
            let j = choose|j: int|
                0 <= j < refs.len() && s.reference_edge(repo, f, scope, #[trigger] refs[j]) == Some(e);
            if j < last {
                assert(init[j] == refs[j]);
            } else {
                assert(mine[0] == e);
            }
        }
    }
}

/// Where in a file is something written: in one of its symbols, or outside of them?
pub open spec fn written_in(repo: Seq<char>, f: IndexedV, from: Option<usize>, id: Seq<char>) -> bool {
    match from {
        Some(i) => i < f.parsed.symbols.len() && id == sym_ids(repo, f.path, f.parsed)[i as int],
        None => id == file_id_of(repo, f.path),
    }
}

/// The kind of edge that a reference makes: a call in a test is a test of what it calls,
/// and any other reference keeps its kind.
pub open spec fn makes_kind(f: IndexedV, r: ParsedRefV, kind: EdgeKind) -> bool {
    if r.kind is Calls && (r.from matches Some(i) && f.roles[i as int].role == Some(Role::Test)) {
        kind is Tests
    } else {
        kind == r.kind
    }
}

/// A reference in a file makes an edge to the symbol that its name means, from the symbol
/// that it is written in.
pub proof fn law_references_make_edges(
    s: StoreV,
    repo: Seq<char>,
    f: IndexedV,
    j: int,
    k: int,
    src: Seq<char>,
    kind: EdgeKind,
)
    requires
        0 <= j < f.parsed.refs.len(),
        means(s, repo, f, f.parsed.refs[j].name, k),
        written_in(repo, f, f.parsed.refs[j].from, src),
        src != s.symbols[k].id,
        makes_kind(f, f.parsed.refs[j], kind),
    ensures
        s.edges_of(repo, f).contains((EdgeV { src, dst: s.symbols[k].id, kind })),
{
    let r = f.parsed.refs[j];
    let scope = f.imported(s.indexed_files(repo));
    let e = EdgeV { src, dst: s.symbols[k].id, kind };
    lemma_means(s, repo, f, r.name);
    assert(s.reference_edge(repo, f, scope, f.parsed.refs[j]) == Some(e));
    lemma_reference_edges(s, repo, f, scope, f.parsed.refs, e);
    lemma_found(s, repo, f, e);
}

/// An import makes an edge between the two files.
pub proof fn law_imports_make_edges(s: StoreV, repo: Seq<char>, f: IndexedV, t: Seq<char>)
    requires
        brings_in(s, repo, f, t),
    ensures
        s.edges_of(repo, f).contains(
            (EdgeV { src: file_id_of(repo, f.path), dst: file_id_of(repo, t), kind: EdgeKind::Imports }),
        ),
{
    let scope = f.imported(s.indexed_files(repo));
    let e = EdgeV { src: file_id_of(repo, f.path), dst: file_id_of(repo, t), kind: EdgeKind::Imports };
    lemma_scope(s, repo, f, t);
    let n = choose|n: int| 0 <= n < scope.len() && scope[n] == t;
    assert(import_edges(repo, f, scope)[n] == e);
    lemma_found(s, repo, f, e);
}

/// Every symbol of a file is contained in the one around it, or in the file.
pub proof fn law_contents_make_edges(s: StoreV, repo: Seq<char>, f: IndexedV, i: int, src: Seq<char>)
    requires
        0 <= i < f.parsed.symbols.len(),
        written_in(repo, f, f.parsed.symbols[i].parent, src),
    ensures
        s.edges_of(repo, f).contains(
            (EdgeV { src, dst: sym_ids(repo, f.path, f.parsed)[i], kind: EdgeKind::Contains }),
        ),
{
    let e = EdgeV { src, dst: sym_ids(repo, f.path, f.parsed)[i], kind: EdgeKind::Contains };
    assert(contains_edges(repo, f)[i] == e);
    lemma_found(s, repo, f, e);
}

// --------------------------------------------------------------------------- tables

/// Is it the table of a repository with a name? The last one counts.
pub open spec fn is_table(s: StoreV, repo: Seq<char>, name: Seq<char>, k: int) -> bool {
    &&& 0 <= k < s.symbols.len()
    &&& s.symbols[k].repo_id == repo
    &&& s.symbols[k].kind is Table
    &&& s.symbols[k].name == name
    &&& forall|j: int|
        k < j < s.symbols.len() && (#[trigger] s.symbols[j]).repo_id == repo && s.symbols[j].kind is Table
            ==> s.symbols[j].name != name
}

/// Does the SQL in a text name a table?
pub open spec fn queries(t: Seq<char>, name: Seq<char>) -> bool {
    regex_matches(REFS@, t) matches Some(ms) && exists|h: int|
        0 <= h < ms.len() && (#[trigger] ms[h]).second is Some && table_name(ms[h].second->0) == name
}

proof fn lemma_hits(ms: Seq<FoundV>, known: Seq<Seq<char>>, name: Seq<char>)
    ensures
        hits_in(ms, known).contains(name) <==> known.contains(name) && exists|h: int|
            0 <= h < ms.len() && (#[trigger] ms[h]).second is Some && table_name(ms[h].second->0) == name,
    decreases ms.len(),
{
    if ms.len() > 0 {
        let init = ms.drop_last();
        let last = ms.len() - 1;
        lemma_hits(init, known, name);
        let a = hits_in(init, known);
        let mine = match ms.last().second {
            Some(b) => if known.contains(table_name(b)) {
                seq![table_name(b)]
            } else {
                Seq::empty()
            },
            None => Seq::empty(),
        };
        assert(hits_in(ms, known) =~= a + mine);
        lemma_parts(a, mine, name);
        if mine.contains(name) {
            assert(ms[last].second is Some && table_name(ms[last].second->0) == name);
        }
        if a.contains(name) {
            let h = choose|h: int|
                0 <= h < init.len() && (#[trigger] init[h]).second is Some && table_name(init[h].second->0) == name;
            assert(ms[h] == init[h]);
        }
        if known.contains(name) && exists|h: int|
            0 <= h < ms.len() && (#[trigger] ms[h]).second is Some && table_name(ms[h].second->0) == name {
            let h = choose|h: int|
                0 <= h < ms.len() && (#[trigger] ms[h]).second is Some && table_name(ms[h].second->0) == name;
            if h < last {
                assert(init[h] == ms[h]);
            } else {
                assert(mine[0] == name);
            }
        }
    }
}

pub(crate) proof fn lemma_texts(s: Seq<Seq<char>>, x: Seq<char>)
    ensures
        deduped(sorted_texts(s)).contains(x) <==> s.contains(x),
{
    let lt = |a: Seq<char>, b: Seq<char>| text_lt(a, b);
    assert(sorted_texts(s) == sorted(s, lt));
    lemma_sorted_has(s, lt, x);
    lemma_deduped(sorted_texts(s), x);
}

proof fn lemma_touched(t: Seq<char>, known: Seq<Seq<char>>, name: Seq<char>)
    ensures
        touched(t, known).contains(name) <==> known.contains(name) && queries(t, name),
{
    if let Some(ms) = regex_matches(REFS@, t) {
        lemma_hits(ms, known, name);
        lemma_texts(hits_in(ms, known), name);
    }
}

proof fn lemma_last_kept<A>(s: Seq<A>, p: spec_fn(A) -> bool, k: int)
    requires
        0 <= k < s.len(),
        p(s[k]),
        forall|j: int| k < j < s.len() ==> !p(#[trigger] s[j]),
    ensures
        s.filter(p).len() > 0,
        s.filter(p).last() == s[k],
    decreases s.len(),
{
    reveal(Seq::filter);
    let init = s.drop_last();
    if k < s.len() - 1 {
        assert(!p(s[s.len() - 1]));
        assert forall|j: int| k < j < init.len() implies !p(#[trigger] init[j]) by {
            assert(init[j] == s[j]);
        }
        lemma_last_kept(init, p, k);
    }
}

proof fn lemma_table(s: StoreV, repo: Seq<char>, name: Seq<char>)
    ensures
        forall|k: int| #[trigger] is_table(s, repo, name, k) ==> s.table(repo, name) == Some(s.symbols[k].id)
            && s.known_tables(repo).contains(name),
        s.table(repo, name) is Some ==> exists|k: int|
            #[trigger] is_table(s, repo, name, k) && s.table(repo, name) == Some(s.symbols[k].id),
{
    let p = |x: SymbolV| x.repo_id == repo && x.kind is Table;
    let q = |x: SymbolV| x.name == name;
    let both = |x: SymbolV| x.repo_id == repo && x.kind is Table && x.name == name;
    lemma_twice(s.symbols, p, q, both);
    let rows = s.symbols.filter(both);
    assert forall|k: int| #[trigger] is_table(s, repo, name, k) implies s.table(repo, name) == Some(s.symbols[k].id)
        && s.known_tables(repo).contains(name) by {
        assert(both(s.symbols[k]));
        assert forall|j: int| k < j < s.symbols.len() implies !both(#[trigger] s.symbols[j]) by {}
        lemma_last_kept(s.symbols, both, k);
        let tables = s.tables(repo);
        lemma_filtered(s.symbols, p, s.symbols[k]);
        assert(s.symbols.contains(s.symbols[k]));
        let n = choose|n: int| 0 <= n < tables.len() && tables[n] == s.symbols[k];
        let names = tables.map_values(|x: SymbolV| x.name);
        assert(names[n] == name);
        lemma_texts(names, name);
    }
    if s.table(repo, name) is Some {
        let last = rows.last();
        assert(rows.len() > 0);
        assert(rows.contains(rows[rows.len() - 1]));
        lemma_filter_count(s.symbols, both);
        let k = lemma_last_index(s.symbols, both);
        assert(both(s.symbols[k]));
        assert(is_table(s, repo, name, k)) by {
            assert forall|j: int|
                k < j < s.symbols.len() && (#[trigger] s.symbols[j]).repo_id == repo && s.symbols[j].kind
                    is Table implies s.symbols[j].name != name by {
                assert(!both(s.symbols[j]));
            }
        }
        lemma_last_kept(s.symbols, both, k);
    }
}

proof fn lemma_last_index<A>(s: Seq<A>, p: spec_fn(A) -> bool) -> (k: int)
    requires
        s.filter(p).len() > 0,
    ensures
        0 <= k < s.len(),
        p(s[k]),
        forall|j: int| k < j < s.len() ==> !p(#[trigger] s[j]),
    decreases s.len(),
{
    reveal(Seq::filter);
    if s.len() == 0 {
        0
    } else if p(s.last()) {
        s.len() - 1
    } else {
        let init = s.drop_last();
        let k = lemma_last_index(init, p);
        assert forall|j: int| k < j < s.len() implies !p(#[trigger] s[j]) by {
            if j < init.len() {
                assert(init[j] == s[j]);
            }
        }
        k
    }
}

proof fn lemma_table_edges(s: StoreV, repo: Seq<char>, src: Seq<char>, names: Seq<Seq<char>>, e: EdgeV)
    ensures
        s.table_edges(repo, src, names).contains(e) <==> e.src == src && e.kind is Queries && exists|n: int|
            0 <= n < names.len() && s.table(repo, #[trigger] names[n]) == Some(e.dst),
    decreases names.len(),
{
    if names.len() > 0 {
        let init = names.drop_last();
        let last = names.len() - 1;
        lemma_table_edges(s, repo, src, init, e);
        let a = s.table_edges(repo, src, init);
        let mine = match s.table(repo, names.last()) {
            Some(dst) => seq![EdgeV { src, dst, kind: EdgeKind::Queries }],
            None => Seq::empty(),
        };
        assert(s.table_edges(repo, src, names) =~= a + mine);
        lemma_parts(a, mine, e);
        if mine.contains(e) {
            assert(s.table(repo, names[last]) == Some(e.dst));
        }
        if a.contains(e) {
            let n = choose|n: int| 0 <= n < init.len() && s.table(repo, #[trigger] init[n]) == Some(e.dst);
            assert(names[n] == init[n]);
        }
        if e.src == src && e.kind is Queries && exists|n: int|
            0 <= n < names.len() && s.table(repo, #[trigger] names[n]) == Some(e.dst) {
            let n = choose|n: int| 0 <= n < names.len() && s.table(repo, #[trigger] names[n]) == Some(e.dst);
            if n < last {
                assert(init[n] == names[n]);
            } else {
                assert(mine[0] == e);
            }
        }
    }
}

proof fn lemma_query_edges(s: StoreV, repo: Seq<char>, f: IndexedV, n: nat, e: EdgeV)
    requires
        n <= f.parsed.symbols.len(),
    ensures
        s.query_edges(repo, f, n).contains(e) <==> e.kind is Queries && exists|i: int|
            0 <= i < n && e.src == #[trigger] sym_ids(repo, f.path, f.parsed)[i] && exists|name: Seq<char>|
                #[trigger] touched(
                    symbol_text(f.source, f.parsed.symbols[i].start_byte, f.parsed.symbols[i].end_byte),
                    s.known_tables(repo),
                ).contains(name) && s.table(repo, name) == Some(e.dst),
    decreases n,
{
    if n > 0 {
        lemma_query_edges(s, repo, f, (n - 1) as nat, e);
        let y = f.parsed.symbols[n - 1];
        let names = touched(symbol_text(f.source, y.start_byte, y.end_byte), s.known_tables(repo));
        let src = sym_ids(repo, f.path, f.parsed)[n - 1];
        let a = s.query_edges(repo, f, (n - 1) as nat);
        let b = s.table_edges(repo, src, names);
        lemma_table_edges(s, repo, src, names, e);
        lemma_parts(a, b, e);
        if b.contains(e) {
            let h = choose|h: int| 0 <= h < names.len() && s.table(repo, #[trigger] names[h]) == Some(e.dst);
            assert(names.contains(names[h]));
            assert(e.src == sym_ids(repo, f.path, f.parsed)[n - 1]);
        }
        if e.kind is Queries && e.src == src && exists|name: Seq<char>|
            #[trigger] names.contains(name) && s.table(repo, name) == Some(e.dst) {
            let name = choose|name: Seq<char>|
                #[trigger] names.contains(name) && s.table(repo, name) == Some(e.dst);
            let h = choose|h: int| 0 <= h < names.len() && names[h] == name;
            assert(s.table(repo, names[h]) == Some(e.dst));
        }
    }
}

/// A symbol whose source has SQL that names a known table makes an edge to that table.
pub proof fn law_queries_make_edges(s: StoreV, repo: Seq<char>, f: IndexedV, i: int, name: Seq<char>, k: int)
    requires
        valid_utf8(f.source),
        0 <= i < f.parsed.symbols.len(),
        f.parsed.symbols[i].start_byte <= f.parsed.symbols[i].end_byte <= f.source.len(),
        ({
            let own = f.source.subrange(
                f.parsed.symbols[i].start_byte as int,
                f.parsed.symbols[i].end_byte as int,
            );
            valid_utf8(own) && queries(decode_utf8(own), name)
        }),
        is_table(s, repo, name, k),
    ensures
        s.edges_of(repo, f).contains(
            (EdgeV {
                src: sym_ids(repo, f.path, f.parsed)[i],
                dst: s.symbols[k].id,
                kind: EdgeKind::Queries,
            }),
        ),
{
    let y = f.parsed.symbols[i];
    let e = EdgeV { src: sym_ids(repo, f.path, f.parsed)[i], dst: s.symbols[k].id, kind: EdgeKind::Queries };
    let t = symbol_text(f.source, y.start_byte, y.end_byte);
    assert(t == decode_utf8(f.source.subrange(y.start_byte as int, y.end_byte as int)));
    lemma_table(s, repo, name);
    lemma_touched(t, s.known_tables(repo), name);
    assert(touched(t, s.known_tables(repo)).contains(name));
    lemma_query_edges(s, repo, f, f.parsed.symbols.len(), e);
    lemma_found(s, repo, f, e);
}

/// Why a file has an edge.
pub open spec fn has_reason(s: StoreV, repo: Seq<char>, f: IndexedV, e: EdgeV) -> bool {
    ||| e.kind is Contains && exists|i: int|
        0 <= i < f.parsed.symbols.len() && e.dst == #[trigger] sym_ids(repo, f.path, f.parsed)[i] && e.src
            == id_in(repo, f.path, f.parsed, f.parsed.symbols[i].parent)
    ||| e.kind is Imports && e.src == file_id_of(repo, f.path) && exists|t: Seq<char>|
        #[trigger] brings_in(s, repo, f, t) && e.dst == file_id_of(repo, t)
    ||| exists|j: int, k: int|
        0 <= j < f.parsed.refs.len() && #[trigger] means(s, repo, f, f.parsed.refs[j].name, k) && e.dst
            == s.symbols[k].id && e.src == id_in(repo, f.path, f.parsed, f.parsed.refs[j].from) && makes_kind(
            f,
            f.parsed.refs[j],
            e.kind,
        )
    ||| e.kind is Queries && exists|i: int, name: Seq<char>, k: int|
        #![trigger sym_ids(repo, f.path, f.parsed)[i], is_table(s, repo, name, k)]
        0 <= i < f.parsed.symbols.len() && e.src == sym_ids(repo, f.path, f.parsed)[i] && is_table(
            s,
            repo,
            name,
            k,
        ) && e.dst == s.symbols[k].id && queries(
            symbol_text(f.source, f.parsed.symbols[i].start_byte, f.parsed.symbols[i].end_byte),
            name,
        )
}

/// A file has no other edges.
pub proof fn law_edges_have_reasons(s: StoreV, repo: Seq<char>, f: IndexedV, e: EdgeV)
    requires
        s.edges_of(repo, f).contains(e),
    ensures
        has_reason(s, repo, f, e),
{
    let scope = f.imported(s.indexed_files(repo));
    lemma_found(s, repo, f, e);
    if contains_edges(repo, f).contains(e) {
        let i = choose|i: int| 0 <= i < contains_edges(repo, f).len() && contains_edges(repo, f)[i] == e;
        assert(e.dst == sym_ids(repo, f.path, f.parsed)[i]);
        assert(e.src == parent_in(repo, f.path, f.parsed, i));
    } else if import_edges(repo, f, scope).contains(e) {
        let n = choose|n: int| 0 <= n < scope.len() && import_edges(repo, f, scope)[n] == e;
        assert(scope.contains(scope[n]));
        lemma_scope(s, repo, f, scope[n]);
        assert(brings_in(s, repo, f, scope[n]));
    } else if s.reference_edges(repo, f, scope, f.parsed.refs).contains(e) {
        lemma_reference_edges(s, repo, f, scope, f.parsed.refs, e);
        let j = choose|j: int|
            0 <= j < f.parsed.refs.len() && s.reference_edge(repo, f, scope, #[trigger] f.parsed.refs[j]) == Some(e);
        let r = f.parsed.refs[j];
        lemma_means(s, repo, f, r.name);
        let k = choose|k: int|
            #[trigger] means(s, repo, f, r.name, k) && s.referred(repo, r.name, f.path, scope) == Some(
                s.symbols[k].id,
            );
        assert(means(s, repo, f, f.parsed.refs[j].name, k));
    } else {
        lemma_query_edges(s, repo, f, f.parsed.symbols.len(), e);
        let i = choose|i: int|
            0 <= i < f.parsed.symbols.len() && e.src == #[trigger] sym_ids(repo, f.path, f.parsed)[i] && exists|
                name: Seq<char>,
            |
                #[trigger] touched(
                    symbol_text(f.source, f.parsed.symbols[i].start_byte, f.parsed.symbols[i].end_byte),
                    s.known_tables(repo),
                ).contains(name) && s.table(repo, name) == Some(e.dst);
        let t = symbol_text(f.source, f.parsed.symbols[i].start_byte, f.parsed.symbols[i].end_byte);
        let name = choose|name: Seq<char>|
            #[trigger] touched(t, s.known_tables(repo)).contains(name) && s.table(repo, name) == Some(e.dst);
        lemma_touched(t, s.known_tables(repo), name);
        lemma_table(s, repo, name);
        let k = choose|k: int|
            #[trigger] is_table(s, repo, name, k) && s.table(repo, name) == Some(s.symbols[k].id);
        assert(is_table(s, repo, name, k));
    }
}

} // verus!
