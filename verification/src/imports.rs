//! Import extraction and module resolution.
//!
//! Resolution is local to the repository and best effort. An import of a
//! third-party package resolves to nothing, which is correct: it is no node of
//! this repository's graph.

use vstd::prelude::*;
use vstd::string::*;

use crate::lang::{self, Grammar, LangSpec};
use crate::order::{rank, sorted, stable_sort, Ranked};
use crate::parse::{captures, captures_of, Capture, CaptureV};
use crate::text::{
    self, after_last, before_last, cat, cat3, contains_text, find_from, last_piece, replaced, same,
    split, split_text, trim_start, trimmed, trimmed_of, up_to_last,
};

verus! {

broadcast use vstd::string::group_string_axioms;

// ----------------------------------------------------------------------- paths

/// The directory of a path; empty for a bare name.
pub open spec fn parent_of(path: Seq<char>) -> Seq<char> {
    match before_last(path, '/') {
        Some(d) => d,
        None => Seq::empty(),
    }
}

/// The directory of a path; empty for a bare name.
pub fn parent_dir(path: &str) -> (r: String)
    ensures
        r@ == parent_of(path@),
{
    match up_to_last(path, '/') {
        Some(d) => d,
        None => String::new(),
    }
}

/// A directory is shorter than what lies in it.
pub proof fn law_parent_shorter(path: Seq<char>)
    ensures
        before_last(path, '/') matches Some(d) ==> d.len() < path.len(),
        path.len() > 0 ==> parent_of(path).len() < path.len(),
    decreases path.len(),
{
    if path.len() > 0 {
        law_parent_shorter(path.drop_last());
    }
}

/// `rel` inside `dir`.
pub open spec fn joined(dir: Seq<char>, rel: Seq<char>) -> Seq<char> {
    if dir.len() == 0 {
        rel
    } else {
        dir + "/"@ + rel
    }
}

/// `rel` inside `dir`.
pub fn join(dir: &str, rel: &str) -> (r: String)
    ensures
        r@ == joined(dir@, rel@),
{
    if dir.is_empty() {
        rel.to_owned()
    } else {
        cat3(dir, "/", rel)
    }
}

/// Path segments without `.`, and with every `..` taking back the one before.
pub open spec fn collapsed(parts: Seq<Seq<char>>) -> Seq<Seq<char>>
    decreases parts.len(),
{
    if parts.len() == 0 {
        parts
    } else {
        let out = collapsed(parts.drop_last());
        let p = parts.last();
        if p == ""@ || p == "."@ {
            out
        } else if p == ".."@ {
            if out.len() > 0 {
                out.drop_last()
            } else {
                out
            }
        } else {
            out.push(p)
        }
    }
}

/// A path with `.`, `..` and empty segments resolved.
pub open spec fn normalized(path: Seq<char>) -> Seq<char> {
    text::join(collapsed(split(path, '/')), "/"@)
}

/// Collapse `.` and `..` segments; import specifiers are full of them.
pub fn normalize(path: &str) -> (r: String)
    ensures
        r@ == normalized(path@),
{
    let parts = text::split_on(path, '/');
    let ghost all = parts.deep_view();
    let mut out: Vec<String> = Vec::new();
    let mut i: usize = 0;
    assert(out.deep_view() =~= collapsed(all.take(0)));
    while i < parts.len()
        invariant
            all == parts.deep_view(),
            i <= parts@.len(),
            out.deep_view() == collapsed(all.take(i as int)),
        decreases parts@.len() - i,
    {
        let ghost o0 = out.deep_view();
        let p = parts[i].as_str();
        i += 1;
        proof {
            assert(all.take(i as int).drop_last() =~= all.take(i - 1));
            assert(all.take(i as int).last() == p@);
        }
        if same(p, "") || same(p, ".") {
        } else if same(p, "..") {
            out.pop();
            assert(o0.len() > 0 ==> out.deep_view() =~= o0.drop_last());
            assert(o0.len() == 0 ==> out.deep_view() =~= o0);
        } else {
            out.push(p.to_owned());
            assert(out.deep_view() =~= o0.push(p@));
        }
    }
    assert(all.take(i as int) =~= all);
    text::join_with(&out, "/")
}

/// The directory that a Rust file's submodules live in.
pub open spec fn stem_of(path: Seq<char>) -> Seq<char> {
    let stem = path.take(path.len() - 3);
    if ".rs"@.is_suffix_of(path) && !"/mod"@.is_suffix_of(stem) {
        stem
    } else {
        parent_of(path)
    }
}

/// The directory a Rust file's submodules live in: `src/pay.rs` owns `src/pay/`.
pub fn stem_dir(path: &str) -> (r: String)
    ensures
        r@ == stem_of(path@),
{
    proof {
        reveal_strlit(".rs");
    }
    match text::without_suffix(path, ".rs") {
        Some(stem) => {
            if !text::ends_with(stem.as_str(), "/mod") {
                stem
            } else {
                parent_dir(path)
            }
        },
        None => parent_dir(path),
    }
}

/// The `src` directory of the crate that holds `path`.
pub open spec fn crate_root_of(path: Seq<char>) -> Seq<char> {
    match find_from(path, "src/"@, 0) {
        Some(i) => path.take(i + 3),
        None => parent_of(path),
    }
}

/// The `src/` directory of the crate containing `path`, which is what `crate::`
/// resolves against.
pub fn crate_root(path: &str) -> (r: String)
    ensures
        r@ == crate_root_of(path@),
{
    match text::find(path, "src/") {
        Some(i) => {
            proof {
                reveal_strlit("src/");
            }
            let a = text::chars_of(path);
            let n = a.len();
            let r = text::piece(&a, 0, i + 3);
            assert(r@ =~= path@.take(i + 3));
            r
        },
        None => parent_dir(path),
    }
}

// ------------------------------------------------------------------- file index

/// Every source file of the workspace, in the order in which it was given.
#[derive(Debug)]
pub struct FileIndex {
    files: Vec<String>,
}

/// The files whose name, without directory, is `name`.
pub open spec fn named(files: Seq<Seq<char>>, name: Seq<char>) -> Seq<Seq<char>> {
    files.filter(|f: Seq<char>| after_last(f, '/') == name)
}

/// Does the directory path end with `suffix`, at a segment boundary?
pub open spec fn dir_matches(dir: Seq<char>, suffix: Seq<char>) -> bool {
    dir == suffix || ("/"@ + suffix).is_suffix_of(dir)
}

/// The length of a text in bytes.
pub open spec fn byte_len(s: Seq<char>) -> nat {
    vstd::utf8::encode_utf8(s).len()
}

/// Of the directories that end with `suffix` the shortest; of several equally
/// short ones that of the earliest file.
pub open spec fn best_dir(files: Seq<Seq<char>>, suffix: Seq<char>) -> Option<Seq<char>>
    decreases files.len(),
{
    if files.len() == 0 {
        None
    } else {
        let before = best_dir(files.drop_last(), suffix);
        let dir = parent_of(files.last());
        match before {
            Some(b) => if dir_matches(dir, suffix) && byte_len(dir) < byte_len(b) {
                Some(dir)
            } else {
                before
            },
            None => if dir_matches(dir, suffix) {
                Some(dir)
            } else {
                None
            },
        }
    }
}

/// The files directly in the best directory for `suffix` that end with `ext`.
pub open spec fn in_best_dir(files: Seq<Seq<char>>, suffix: Seq<char>, ext: Seq<char>) -> Seq<
    Seq<char>,
> {
    match best_dir(files, suffix) {
        Some(d) => files.filter(|f: Seq<char>| parent_of(f) == d && ext.is_suffix_of(f)),
        None => Seq::empty(),
    }
}

impl FileIndex {
    /// The files, in order.
    pub closed spec fn view(&self) -> Seq<Seq<char>> {
        self.files.deep_view()
    }

    pub fn new(files: Vec<String>) -> (r: FileIndex)
        ensures
            r@ == files.deep_view(),
    {
        FileIndex { files }
    }

    pub fn contains(&self, path: &str) -> (r: bool)
        ensures
            r == self@.contains(path@),
    {
        let mut i: usize = 0;
        while i < self.files.len()
            invariant
                i <= self.files@.len(),
                forall|k: int| 0 <= k < i ==> self.files@[k]@ != path@,
            decreases self.files@.len() - i,
        {
            if same(self.files[i].as_str(), path) {
                assert(self@[i as int] == path@);
                return true;
            }
            i += 1;
        }
        false
    }

    /// The files with this name, whatever their directory.
    pub fn basename(&self, name: &str) -> (r: Vec<String>)
        ensures
            r.deep_view() == named(self@, name@),
    {
        let ghost p = |f: Seq<char>| after_last(f, '/') == name@;
        let mut out: Vec<String> = Vec::new();
        let mut i: usize = 0;
        assert(out.deep_view() =~= self@.take(0).filter(p));
        while i < self.files.len()
            invariant
                i <= self.files@.len(),
                p == (|f: Seq<char>| after_last(f, '/') == name@),
                out.deep_view() == self@.take(i as int).filter(p),
            decreases self.files@.len() - i,
        {
            let ghost o0 = out.deep_view();
            let f = &self.files[i];
            proof {
                assert(self@.take(i + 1) =~= self@.take(i as int).push(f@));
                self@.take(i as int).lemma_filter_push(f@, p);
            }
            if same(last_piece(f.as_str(), '/').as_str(), name) {
                out.push(f.clone());
                assert(out.deep_view() =~= o0.push(f@));
            }
            i += 1;
        }
        assert(self@.take(i as int) =~= self@);
        out
    }

    fn dir_for(&self, suffix: &str) -> (r: Option<String>)
        ensures
            r.deep_view() == best_dir(self@, suffix@),
    {
        let tail = cat("/", suffix);
        let mut best: Option<String> = None;
        let mut i: usize = 0;
        while i < self.files.len()
            invariant
                i <= self.files@.len(),
                tail@ == "/"@ + suffix@,
                best.deep_view() == best_dir(self@.take(i as int), suffix@),
            decreases self.files@.len() - i,
        {
            let dir = parent_dir(self.files[i].as_str());
            proof {
                assert(self@.take(i + 1).drop_last() =~= self@.take(i as int));
                assert(self@.take(i + 1).last() == self.files@[i as int]@);
            }
            if same(dir.as_str(), suffix) || text::ends_with(dir.as_str(), tail.as_str()) {
                let better = match &best {
                    Some(b) => shorter(dir.as_str(), b.as_str()),
                    None => true,
                };
                if better {
                    best = Some(dir);
                }
            }
            i += 1;
        }
        assert(self@.take(i as int) =~= self@);
        best
    }

    /// Files in the first directory whose path ends with `suffix`.
    pub fn dir_suffix(&self, suffix: &str, ext: &str) -> (r: Vec<String>)
        ensures
            r.deep_view() == in_best_dir(self@, suffix@, ext@),
    {
        let mut out: Vec<String> = Vec::new();
        let dir = match self.dir_for(suffix) {
            Some(d) => d,
            None => {
                assert(out.deep_view() =~= Seq::empty());
                return out;
            },
        };
        let ghost p = |f: Seq<char>| parent_of(f) == dir@ && ext@.is_suffix_of(f);
        let mut i: usize = 0;
        assert(out.deep_view() =~= self@.take(0).filter(p));
        while i < self.files.len()
            invariant
                i <= self.files@.len(),
                p == (|f: Seq<char>| parent_of(f) == dir@ && ext@.is_suffix_of(f)),
                out.deep_view() == self@.take(i as int).filter(p),
            decreases self.files@.len() - i,
        {
            let ghost o0 = out.deep_view();
            let f = &self.files[i];
            proof {
                assert(self@.take(i + 1) =~= self@.take(i as int).push(f@));
                self@.take(i as int).lemma_filter_push(f@, p);
            }
            if same(parent_dir(f.as_str()).as_str(), dir.as_str()) && text::ends_with(
                f.as_str(),
                ext,
            ) {
                out.push(f.clone());
                assert(out.deep_view() =~= o0.push(f@));
            }
            i += 1;
        }
        assert(self@.take(i as int) =~= self@);
        out
    }
}

/// Has `a` fewer bytes than `b`?
fn shorter(a: &str, b: &str) -> (r: bool)
    ensures
        r == (byte_len(a@) < byte_len(b@)),
{
    a.as_bytes().len() < b.as_bytes().len()
}

// -------------------------------------------------------------------- extraction

/// A raw import specifier as written in the source.
#[derive(Debug)]
pub struct RawImport {
    pub specifier: String,
    pub byte: usize,
}

/// The contents of a [`RawImport`].
pub struct RawImportV {
    pub specifier: Seq<char>,
    pub byte: usize,
}

impl DeepView for RawImport {
    type V = RawImportV;

    open spec fn deep_view(&self) -> RawImportV {
        RawImportV { specifier: self.specifier@, byte: self.byte }
    }
}

impl Ranked for RawImport {
    open spec fn before(a: RawImportV, b: RawImportV) -> bool {
        a.byte < b.byte
    }

    fn is_before(&self, other: &Self) -> (r: bool) {
        self.byte < other.byte
    }
}

/// A specifier without quotes, angle brackets and white space around it.
pub open spec fn unquoted(raw: Seq<char>) -> Seq<char> {
    trimmed(trimmed_of(trimmed(raw), "\"'`<>"@))
}

/// A specifier without quotes, angle brackets and white space around it.
pub fn unquote(raw: &str) -> (r: String)
    ensures
        r@ == unquoted(raw@),
{
    let a = text::trim(raw);
    let b = text::trim_of(a.as_str(), "\"'`<>");
    text::trim(b.as_str())
}

/// The last capture of `m` with this name.
pub open spec fn last_named(m: Seq<CaptureV>, name: Seq<char>) -> Option<CaptureV>
    decreases m.len(),
{
    if m.len() == 0 {
        None
    } else if m.last().name == name {
        Some(m.last())
    } else {
        last_named(m.drop_last(), name)
    }
}

/// The text of a capture; empty where it is not UTF-8.
pub open spec fn text_of(c: CaptureV) -> Seq<char> {
    match c.text {
        Some(t) => t,
        None => Seq::empty(),
    }
}

/// The import in one match. The dynamic-import pattern matches every call with
/// one string; only `require` and `import` are imports.
pub open spec fn import_in(m: Seq<CaptureV>) -> Option<RawImportV> {
    let callee_ok = match last_named(m, "callee"@) {
        Some(c) => text_of(c) == "require"@ || text_of(c) == "import"@,
        None => true,
    };
    match last_named(m, "module"@) {
        Some(c) => if callee_ok && unquoted(text_of(c)).len() > 0 {
            Some(RawImportV { specifier: unquoted(text_of(c)), byte: c.start_byte })
        } else {
            None
        },
        None => None,
    }
}

/// The imports in some matches.
pub open spec fn imports_in(ms: Seq<Seq<CaptureV>>) -> Seq<RawImportV>
    decreases ms.len(),
{
    if ms.len() == 0 {
        Seq::empty()
    } else {
        match import_in(ms.last()) {
            Some(i) => imports_in(ms.drop_last()).push(i),
            None => imports_in(ms.drop_last()),
        }
    }
}

/// Every run of imports with the same specifier cut down to its first.
pub open spec fn once(s: Seq<RawImportV>) -> Seq<RawImportV>
    decreases s.len(),
{
    if s.len() < 2 {
        s
    } else if s.last().specifier == s[s.len() - 2].specifier {
        once(s.drop_last())
    } else {
        once(s.drop_last()).push(s.last())
    }
}

/// The imports of a source, in the order of the source.
pub open spec fn listed(ms: Seq<Seq<CaptureV>>) -> Seq<RawImportV> {
    once(sorted(imports_in(ms), rank::<RawImport>()))
}

fn find_last(m: &Vec<Capture>, name: &str) -> (r: Option<usize>)
    ensures
        match r {
            Some(i) => i < m@.len() && last_named(m.deep_view(), name@) == Some(
                m@[i as int].deep_view(),
            ),
            None => last_named(m.deep_view(), name@) is None,
        },
{
    let ghost all = m.deep_view();
    let mut i: usize = m.len();
    assert(all.take(i as int) =~= all);
    while i > 0
        invariant
            all == m.deep_view(),
            i <= m@.len(),
            last_named(all, name@) == last_named(all.take(i as int), name@),
        decreases i,
    {
        assert(all.take(i as int).drop_last() =~= all.take(i - 1));
        assert(all.take(i as int).last() == m@[i - 1].deep_view());
        if same(m[i - 1].name.as_str(), name) {
            return Some(i - 1);
        }
        i -= 1;
    }
    None
}

fn capture_text(c: &Capture) -> (r: String)
    ensures
        r@ == text_of(c.deep_view()),
{
    match &c.text {
        Some(t) => t.clone(),
        None => String::new(),
    }
}

/// Makes the list of imports from the matches of an import query.
pub fn list_imports(ms: &Vec<Vec<Capture>>) -> (r: Vec<RawImport>)
    ensures
        r.deep_view() == listed(ms.deep_view()),
{
    let ghost all = ms.deep_view();
    let mut found: Vec<RawImport> = Vec::new();
    let mut i: usize = 0;
    assert(found.deep_view() =~= imports_in(all.take(0)));
    while i < ms.len()
        invariant
            all == ms.deep_view(),
            i <= ms@.len(),
            found.deep_view() == imports_in(all.take(i as int)),
        decreases ms@.len() - i,
    {
        let ghost f0 = found.deep_view();
        let m = &ms[i];
        i += 1;
        proof {
            assert(all.take(i as int).drop_last() =~= all.take(i - 1));
            assert(all.take(i as int).last() == m.deep_view());
        }
        if let Some(k) = find_last(m, "callee") {
            let callee = capture_text(&m[k]);
            if !same(callee.as_str(), "require") && !same(callee.as_str(), "import") {
                continue ;
            }
        }
        if let Some(k) = find_last(m, "module") {
            let specifier = unquote(capture_text(&m[k]).as_str());
            if !specifier.as_str().is_empty() {
                let imp = RawImport { specifier, byte: m[k].start_byte };
                let ghost iv = imp.deep_view();
                found.push(imp);
                assert(found.deep_view() =~= f0.push(iv));
            }
        }
    }
    assert(all.take(i as int) =~= all);
    let ordered = stable_sort(found);
    let ghost ov = ordered.deep_view();
    let mut out: Vec<RawImport> = Vec::new();
    let mut k: usize = 0;
    assert(out.deep_view() =~= once(ov.take(0)));
    while k < ordered.len()
        invariant
            ov == ordered.deep_view(),
            k <= ordered@.len(),
            out.deep_view() == once(ov.take(k as int)),
        decreases ordered@.len() - k,
    {
        let ghost o0 = out.deep_view();
        assert(ov.take(k + 1).drop_last() =~= ov.take(k as int));
        if k == 0 || !same(ordered[k].specifier.as_str(), ordered[k - 1].specifier.as_str()) {
            let imp = RawImport {
                specifier: ordered[k].specifier.clone(),
                byte: ordered[k].byte,
            };
            out.push(imp);
            assert(out.deep_view() =~= o0.push(ov[k as int]));
        }
        if k == 0 {
            assert(out.deep_view() =~= ov.take(1));
        }
        k += 1;
    }
    assert(ov.take(k as int) =~= ov);
    out
}

/// The import specifiers of a source.
pub open spec fn extracted(g: Grammar, source: Seq<u8>) -> Seq<RawImportV> {
    if g.imports().len() == 0 {
        Seq::empty()
    } else {
        match captures_of(g, g.imports(), source) {
            Some(ms) => listed(ms),
            None => Seq::empty(),
        }
    }
}

/// Pull every import specifier out of a file.
pub fn extract(spec: &LangSpec, source: &[u8]) -> (r: Vec<RawImport>)
    requires
        spec.wf(),
        source@.len() <= u32::MAX,
    ensures
        r.deep_view() == extracted(spec.grammar, source@),
{
    let query = spec.imports();
    let none: Vec<RawImport> = Vec::new();
    assert(none.deep_view() =~= Seq::empty());
    if query.is_empty() {
        return none;
    }
    match captures(spec.grammar, query, source) {
        Some(ms) => list_imports(&ms),
        None => none,
    }
}

/// The import specifiers of a file, by the language of its path.
pub fn extract_for_path(path: &str, source: &[u8]) -> (r: Vec<RawImport>)
    requires
        source@.len() <= u32::MAX,
    ensures
        r.deep_view() == (match lang::grammar_of_path(path@) {
            Some(g) => extracted(g, source@),
            None => Seq::empty(),
        }),
{
    match lang::for_path(path) {
        Some(spec) => extract(&spec, source),
        None => {
            let none: Vec<RawImport> = Vec::new();
            assert(none.deep_view() =~= Seq::empty());
            none
        },
    }
}

// -------------------------------------------------------------------- resolution

/// The first candidate, normalized, that is a file.
pub open spec fn first_of(candidates: Seq<Seq<char>>, files: Seq<Seq<char>>) -> Seq<Seq<char>>
    decreases candidates.len(),
{
    if candidates.len() == 0 {
        Seq::empty()
    } else if files.contains(normalized(candidates[0])) {
        seq![normalized(candidates[0])]
    } else {
        first_of(candidates.drop_first(), files)
    }
}

/// The first candidate, normalized, that is a file.
pub fn first_existing(candidates: &Vec<String>, index: &FileIndex) -> (r: Vec<String>)
    ensures
        r.deep_view() == first_of(candidates.deep_view(), index@),
{
    let ghost all = candidates.deep_view();
    let mut out: Vec<String> = Vec::new();
    let mut i: usize = 0;
    assert(all.skip(0) =~= all);
    while i < candidates.len()
        invariant
            all == candidates.deep_view(),
            i <= candidates@.len(),
            out@.len() == 0,
            first_of(all, index@) == first_of(all.skip(i as int), index@),
        decreases candidates@.len() - i,
    {
        assert(all.skip(i as int)[0] == candidates@[i as int]@);
        assert(all.skip(i as int).drop_first() =~= all.skip(i + 1));
        let c = normalize(candidates[i].as_str());
        if index.contains(c.as_str()) {
            let ghost cv = c@;
            out.push(c);
            assert(out.deep_view() =~= seq![cv]);
            return out;
        }
        i += 1;
    }
    assert(out.deep_view() =~= Seq::empty());
    out
}

/// The extensions that a JavaScript import may leave out.
pub open spec fn js_exts() -> Seq<Seq<char>> {
    seq!["ts"@, "tsx"@, "js"@, "jsx"@, "mjs"@, "cjs"@]
}

/// `base` as a file and as a directory with an index, for the first `n`
/// extensions.
pub open spec fn js_candidates(base: Seq<char>, n: int) -> Seq<Seq<char>>
    decreases n,
{
    if n <= 0 {
        seq![base]
    } else {
        js_candidates(base, n - 1).push(base + "."@ + js_exts()[n - 1]).push(
            base + "/index."@ + js_exts()[n - 1],
        )
    }
}

/// The file that a JavaScript or TypeScript specifier means.
pub open spec fn js_resolved(dir: Seq<char>, spec: Seq<char>, files: Seq<Seq<char>>) -> Seq<
    Seq<char>,
> {
    if spec.len() == 0 || !(spec[0] == '.' || spec[0] == '/' || spec[0] == '~') {
        Seq::empty()
    } else {
        let bare = trim_start(trim_start(spec, |c: char| c == '~'), |c: char| c == '/');
        let base = normalized(joined(dir, bare));
        let plain = js_candidates(base, 6);
        let stem = base.take(base.len() - 3);
        first_of(
            if ".js"@.is_suffix_of(base) {
                plain.push(stem + "."@ + "ts"@).push(stem + "."@ + "tsx"@)
            } else {
                plain
            },
            files,
        )
    }
}

/// Resolves a JavaScript or TypeScript specifier.
pub fn resolve_js(dir: &str, specifier: &str, index: &FileIndex) -> (r: Vec<String>)
    ensures
        r.deep_view() == js_resolved(dir@, specifier@, index@),
{
    let first = text::chars_of(specifier);
    if first.len() == 0 || !(first[0] == '.' || first[0] == '/' || first[0] == '~') {
        let none: Vec<String> = Vec::new();
        assert(none.deep_view() =~= Seq::empty());
        return none;
    }
    let bare = text::trim_start_of(text::trim_start_of(specifier, '~').as_str(), '/');
    let base = normalize(join(dir, bare.as_str()).as_str());
    let exts: Vec<&'static str> = vec!["ts", "tsx", "js", "jsx", "mjs", "cjs"];
    let mut candidates: Vec<String> = Vec::new();
    candidates.push(base.clone());
    assert(candidates.deep_view() =~= js_candidates(base@, 0));
    let mut i: usize = 0;
    while i < exts.len()
        invariant
            i <= exts@.len(),
            exts@.len() == 6,
            forall|k: int| 0 <= k < 6 ==> (#[trigger] exts@[k])@ == js_exts()[k],
            candidates.deep_view() == js_candidates(base@, i as int),
        decreases exts@.len() - i,
    {
        let ghost c0 = candidates.deep_view();
        let e = exts[i];
        candidates.push(cat3(base.as_str(), ".", e));
        assert(candidates.deep_view() =~= c0.push(base@ + "."@ + e@));
        candidates.push(cat3(base.as_str(), "/index.", e));
        assert(candidates.deep_view() =~= c0.push(base@ + "."@ + e@).push(
            base@ + "/index."@ + e@,
        ));
        i += 1;
    }
    proof {
        reveal_strlit(".js");
    }
    if let Some(stem) = text::without_suffix(base.as_str(), ".js") {
        let ghost c0 = candidates.deep_view();
        candidates.push(cat3(stem.as_str(), ".", "ts"));
        assert(candidates.deep_view() =~= c0.push(stem@ + "."@ + "ts"@));
        candidates.push(cat3(stem.as_str(), ".", "tsx"));
        assert(candidates.deep_view() =~= c0.push(stem@ + "."@ + "ts"@).push(
            stem@ + "."@ + "tsx"@,
        ));
    }
    first_existing(&candidates, index)
}

/// `rel` inside `dir` as a Python module and as a package.
pub open spec fn py_pair(dir: Seq<char>, rel: Seq<char>) -> Seq<Seq<char>> {
    seq![joined(dir, rel) + ".py"@, joined(dir, rel) + "/__init__.py"@]
}

/// The pairs for a directory and everything above it.
pub open spec fn py_upwards(dir: Seq<char>, rel: Seq<char>) -> Seq<Seq<char>>
    decreases dir.len(),
{
    proof {
        law_parent_shorter(dir);
    }
    if dir.len() == 0 {
        py_pair(dir, rel)
    } else {
        py_pair(dir, rel) + py_upwards(parent_of(dir), rel)
    }
}

/// The directory `n` levels above.
pub open spec fn up(dir: Seq<char>, n: nat) -> Seq<char>
    decreases n,
{
    if n == 0 {
        dir
    } else {
        up(parent_of(dir), (n - 1) as nat)
    }
}

/// The file that a Python specifier means.
pub open spec fn py_resolved(from: Seq<char>, spec: Seq<char>, files: Seq<Seq<char>>) -> Seq<
    Seq<char>,
> {
    let rest = trim_start(spec, |c: char| c == '.');
    let dots = spec.len() - rest.len();
    let rel = replaced(rest, '.', '/');
    if rest.len() == 0 {
        Seq::empty()
    } else if dots > 0 {
        first_of(py_pair(up(parent_of(from), (dots - 1) as nat), rel), files)
    } else {
        first_of(py_pair(Seq::empty(), rel) + py_upwards(parent_of(from), rel), files)
    }
}

proof fn lemma_trim_start_len(s: Seq<char>, f: spec_fn(char) -> bool)
    ensures
        trim_start(s, f).len() <= s.len(),
    decreases s.len(),
{
    if s.len() > 0 && f(s[0]) {
        lemma_trim_start_len(s.drop_first(), f);
    }
}

fn push_pair(out: &mut Vec<String>, dir: &str, rel: &str)
    ensures
        final(out).deep_view() == old(out).deep_view() + py_pair(dir@, rel@),
{
    let base = join(dir, rel);
    let ghost o0 = out.deep_view();
    out.push(cat(base.as_str(), ".py"));
    assert(out.deep_view() =~= o0.push(base@ + ".py"@));
    out.push(cat(base.as_str(), "/__init__.py"));
    assert(out.deep_view() =~= o0 + py_pair(dir@, rel@));
}

/// Resolves a Python specifier.
pub fn resolve_python(from_file: &str, specifier: &str, index: &FileIndex) -> (r: Vec<String>)
    ensures
        r.deep_view() == py_resolved(from_file@, specifier@, index@),
{
    let rest = text::trim_start_of(specifier, '.');
    proof {
        lemma_trim_start_len(specifier@, |c: char| c == '.');
    }
    if rest.as_str().is_empty() {
        let none: Vec<String> = Vec::new();
        assert(none.deep_view() =~= Seq::empty());
        return none;
    }
    let dots = text::chars_of(specifier).len() - text::chars_of(rest.as_str()).len();
    let rel = text::replace_char(rest.as_str(), '.', '/');
    let mut candidates: Vec<String> = Vec::new();
    assert(candidates.deep_view() =~= Seq::empty());
    let mut dir = parent_dir(from_file);
    if dots > 0 {
        let mut n: usize = dots - 1;
        while n > 0
            invariant
                dots > 0,
                up(parent_of(from_file@), (dots - 1) as nat) == up(dir@, n as nat),
            decreases n,
        {
            dir = parent_dir(dir.as_str());
            n -= 1;
        }
        push_pair(&mut candidates, dir.as_str(), rel.as_str());
        assert(candidates.deep_view() =~= py_pair(dir@, rel@));
        return first_existing(&candidates, index);
    }
    push_pair(&mut candidates, "", rel.as_str());
    proof {
        reveal_strlit("");
        assert(""@ =~= Seq::empty());
    }
    let ghost want = py_pair(Seq::empty(), rel@) + py_upwards(dir@, rel@);
    assert(candidates.deep_view() + py_upwards(dir@, rel@) =~= want);
    while !dir.as_str().is_empty()
        invariant
            candidates.deep_view() + py_upwards(dir@, rel@) == want,
        decreases dir@.len(),
    {
        proof {
            law_parent_shorter(dir@);
        }
        let ghost c0 = candidates.deep_view();
        push_pair(&mut candidates, dir.as_str(), rel.as_str());
        let above = parent_dir(dir.as_str());
        assert(candidates.deep_view() + py_upwards(above@, rel@) =~= c0 + py_upwards(dir@, rel@));
        dir = above;
    }
    push_pair(&mut candidates, dir.as_str(), rel.as_str());
    assert(candidates.deep_view() =~= want);
    first_existing(&candidates, index)
}

/// A Rust module inside `root`: as a file and as a directory.
pub open spec fn rs_pair(root: Seq<char>, sub: Seq<char>) -> Seq<Seq<char>> {
    seq![joined(root, sub + ".rs"@), joined(root, sub + "/mod.rs"@)]
}

/// The pairs for the first `n` segments, then for one less, and so on.
pub open spec fn rs_downwards(root: Seq<char>, rest: Seq<Seq<char>>, n: int) -> Seq<Seq<char>>
    decreases n,
{
    if n <= 0 {
        Seq::empty()
    } else {
        rs_pair(root, text::join(rest.take(n), "/"@)) + rs_downwards(root, rest, n - 1)
    }
}

/// The file that a Rust specifier means.
pub open spec fn rs_resolved(from: Seq<char>, spec: Seq<char>, files: Seq<Seq<char>>) -> Seq<
    Seq<char>,
> {
    let dir = parent_of(from);
    if !contains_text(spec, "::"@) {
        first_of(rs_pair(dir, spec) + rs_pair(stem_of(from), spec), files)
    } else {
        let path = split_text(spec, "::"@);
        let (root, rest) = if path[0] == "crate"@ {
            (crate_root_of(from), path.skip(1))
        } else if path[0] == "self"@ {
            (dir, path.skip(1))
        } else if path[0] == "super"@ {
            (parent_of(dir), path.skip(1))
        } else {
            (crate_root_of(from), path)
        };
        first_of(rs_downwards(root, rest, rest.len() as int), files)
    }
}

fn push_rs(out: &mut Vec<String>, root: &str, sub: &str)
    ensures
        final(out).deep_view() == old(out).deep_view() + rs_pair(root@, sub@),
{
    let ghost o0 = out.deep_view();
    out.push(join(root, cat(sub, ".rs").as_str()));
    assert(out.deep_view() =~= o0.push(joined(root@, sub@ + ".rs"@)));
    out.push(join(root, cat(sub, "/mod.rs").as_str()));
    assert(out.deep_view() =~= o0 + rs_pair(root@, sub@));
}

/// Resolves a Rust specifier.
pub fn resolve_rust(from_file: &str, specifier: &str, index: &FileIndex) -> (r: Vec<String>)
    ensures
        r.deep_view() == rs_resolved(from_file@, specifier@, index@),
{
    let dir = parent_dir(from_file);
    let mut candidates: Vec<String> = Vec::new();
    assert(candidates.deep_view() =~= Seq::empty());
    if !text::contains(specifier, "::") {
        push_rs(&mut candidates, dir.as_str(), specifier);
        push_rs(&mut candidates, stem_dir(from_file).as_str(), specifier);
        assert(candidates.deep_view() =~= rs_pair(dir@, specifier@) + rs_pair(
            stem_of(from_file@),
            specifier@,
        ));
        return first_existing(&candidates, index);
    }
    proof {
        reveal_strlit("::");
    }
    let path = text::split_on_text(specifier, "::");
    let (root, skip): (String, usize) = if same(path[0].as_str(), "crate") {
        (crate_root(from_file), 1)
    } else if same(path[0].as_str(), "self") {
        (dir.clone(), 1)
    } else if same(path[0].as_str(), "super") {
        (parent_dir(dir.as_str()), 1)
    } else {
        (crate_root(from_file), 0)
    };
    let ghost all = path.deep_view();
    let ghost rest = all.skip(skip as int);
    assert(all.skip(0) =~= all);
    let len = path.len();
    let mut n: usize = len;
    assert(candidates.deep_view() + rs_downwards(root@, rest, rest.len() as int) =~= rs_downwards(
        root@,
        rest,
        rest.len() as int,
    ));
    while n > skip
        invariant
            all == path.deep_view(),
            rest == all.skip(skip as int),
            skip <= n <= path@.len(),
            candidates.deep_view() + rs_downwards(root@, rest, n - skip) == rs_downwards(
                root@,
                rest,
                rest.len() as int,
            ),
        decreases n,
    {
        let ghost c0 = candidates.deep_view();
        let sub = text::join_range(&path, skip, n, "/");
        assert(all.subrange(skip as int, n as int) =~= rest.take(n - skip));
        push_rs(&mut candidates, root.as_str(), sub.as_str());
        assert(candidates.deep_view() + rs_downwards(root@, rest, n - skip - 1) =~= c0
            + rs_downwards(root@, rest, n - skip));
        n -= 1;
    }
    assert(candidates.deep_view() =~= rs_downwards(root@, rest, rest.len() as int));
    first_existing(&candidates, index)
}

/// The Go files of the directory that the longest tail of the segments names.
pub open spec fn go_tail(parts: Seq<Seq<char>>, files: Seq<Seq<char>>) -> Seq<Seq<char>>
    decreases parts.len(),
{
    if parts.len() == 0 {
        Seq::empty()
    } else {
        let hits = in_best_dir(files, text::join(parts, "/"@), ".go"@);
        if hits.len() > 0 {
            hits
        } else {
            go_tail(parts.drop_first(), files)
        }
    }
}

/// The files that a Go specifier means.
pub open spec fn go_resolved(spec: Seq<char>, files: Seq<Seq<char>>) -> Seq<Seq<char>> {
    go_tail(split(trimmed_of(spec, "\""@), '/'), files)
}

/// Resolves a Go specifier: an absolute module path, whose tail is matched
/// against a directory.
pub fn resolve_go(specifier: &str, index: &FileIndex) -> (r: Vec<String>)
    ensures
        r.deep_view() == go_resolved(specifier@, index@),
{
    let trimmed = text::trim_of(specifier, "\"");
    let parts = text::split_on(trimmed.as_str(), '/');
    let ghost all = parts.deep_view();
    let n = parts.len();
    let mut i: usize = 0;
    assert(all.skip(0) =~= all);
    while i < n
        invariant
            all == parts.deep_view(),
            n == parts@.len(),
            i <= n,
            go_resolved(specifier@, index@) == go_tail(all.skip(i as int), index@),
        decreases n - i,
    {
        let suffix = text::join_range(&parts, i, n, "/");
        assert(all.subrange(i as int, n as int) =~= all.skip(i as int));
        let hits = index.dir_suffix(suffix.as_str(), ".go");
        assert(hits@.len() == hits.deep_view().len());
        if hits.len() > 0 {
            return hits;
        }
        assert(all.skip(i as int).drop_first() =~= all.skip(i + 1));
        i += 1;
    }
    let none: Vec<String> = Vec::new();
    assert(none.deep_view() =~= Seq::empty());
    none
}

/// The only file with this name, or nothing.
pub open spec fn only_named(files: Seq<Seq<char>>, name: Seq<char>) -> Seq<Seq<char>> {
    if named(files, name).len() == 1 {
        named(files, name)
    } else {
        Seq::empty()
    }
}

fn only(index: &FileIndex, name: &str) -> (r: Vec<String>)
    ensures
        r.deep_view() == only_named(index@, name@),
{
    let hits = index.basename(name);
    if hits.len() == 1 {
        hits
    } else {
        let none: Vec<String> = Vec::new();
        assert(none.deep_view() =~= Seq::empty());
        none
    }
}

/// The file that a dotted type name means: the only one named after its last
/// segment.
pub open spec fn type_resolved(spec: Seq<char>, ext: Seq<char>, files: Seq<Seq<char>>) -> Seq<
    Seq<char>,
> {
    let last = after_last(spec, '.');
    if last == "*"@ || last.len() == 0 {
        Seq::empty()
    } else {
        only_named(files, last + "."@ + ext)
    }
}

/// Resolves a dotted type name, when the repository has exactly one such file.
pub fn resolve_by_type_name(specifier: &str, ext: &str, index: &FileIndex) -> (r: Vec<String>)
    ensures
        r.deep_view() == type_resolved(specifier@, ext@, index@),
{
    let last = last_piece(specifier, '.');
    if same(last.as_str(), "*") || last.as_str().is_empty() {
        let none: Vec<String> = Vec::new();
        assert(none.deep_view() =~= Seq::empty());
        return none;
    }
    only(index, cat3(last.as_str(), ".", ext).as_str())
}

/// The file that an include path means: beside the including file, at the root,
/// or the only one with that name.
pub open spec fn include_resolved(dir: Seq<char>, spec: Seq<char>, files: Seq<Seq<char>>) -> Seq<
    Seq<char>,
> {
    if files.contains(normalized(joined(dir, spec))) {
        seq![normalized(joined(dir, spec))]
    } else if files.contains(spec) {
        seq![spec]
    } else {
        only_named(files, after_last(spec, '/'))
    }
}

/// Resolves an include path.
pub fn resolve_include(dir: &str, specifier: &str, index: &FileIndex) -> (r: Vec<String>)
    ensures
        r.deep_view() == include_resolved(dir@, specifier@, index@),
{
    let direct = normalize(join(dir, specifier).as_str());
    if index.contains(direct.as_str()) {
        let r: Vec<String> = vec![direct];
        assert(r.deep_view() =~= seq![direct@]);
        return r;
    }
    if index.contains(specifier) {
        let r: Vec<String> = vec![specifier.to_owned()];
        assert(r.deep_view() =~= seq![specifier@]);
        return r;
    }
    only(index, last_piece(specifier, '/').as_str())
}

/// The files of the repository that a specifier means.
pub open spec fn resolved(
    lang: Seq<char>,
    from: Seq<char>,
    spec: Seq<char>,
    files: Seq<Seq<char>>,
) -> Seq<Seq<char>> {
    if lang == "typescript"@ || lang == "tsx"@ || lang == "javascript"@ {
        js_resolved(parent_of(from), spec, files)
    } else if lang == "python"@ {
        py_resolved(from, spec, files)
    } else if lang == "rust"@ {
        rs_resolved(from, spec, files)
    } else if lang == "go"@ {
        go_resolved(spec, files)
    } else if lang == "java"@ {
        type_resolved(spec, "java"@, files)
    } else if lang == "csharp"@ {
        type_resolved(spec, "cs"@, files)
    } else if lang == "cpp"@ {
        include_resolved(parent_of(from), spec, files)
    } else {
        Seq::empty()
    }
}

/// Resolve one import specifier to the repository files it refers to. Empty for
/// third-party and standard-library imports.
pub fn resolve(lang: &str, from_file: &str, specifier: &str, index: &FileIndex) -> (r: Vec<String>)
    ensures
        r.deep_view() == resolved(lang@, from_file@, specifier@, index@),
{
    let dir = parent_dir(from_file);
    if same(lang, "typescript") || same(lang, "tsx") || same(lang, "javascript") {
        resolve_js(dir.as_str(), specifier, index)
    } else if same(lang, "python") {
        resolve_python(from_file, specifier, index)
    } else if same(lang, "rust") {
        resolve_rust(from_file, specifier, index)
    } else if same(lang, "go") {
        resolve_go(specifier, index)
    } else if same(lang, "java") {
        resolve_by_type_name(specifier, "java", index)
    } else if same(lang, "csharp") {
        resolve_by_type_name(specifier, "cs", index)
    } else if same(lang, "cpp") {
        resolve_include(dir.as_str(), specifier, index)
    } else {
        let none: Vec<String> = Vec::new();
        assert(none.deep_view() =~= Seq::empty());
        none
    }
}

// ----------------------------------------------------------------------- laws

/// A candidate that was picked is a file of the index.
proof fn lemma_first_of_exists(candidates: Seq<Seq<char>>, files: Seq<Seq<char>>)
    ensures
        first_of(candidates, files).len() <= 1,
        forall|i: int|
            0 <= i < first_of(candidates, files).len() ==> files.contains(
                #[trigger] first_of(candidates, files)[i],
            ),
    decreases candidates.len(),
{
    if candidates.len() > 0 {
        lemma_first_of_exists(candidates.drop_first(), files);
    }
}

proof fn lemma_filter_exists(files: Seq<Seq<char>>, p: spec_fn(Seq<char>) -> bool)
    ensures
        forall|i: int| 0 <= i < files.filter(p).len() ==> files.contains(#[trigger] files.filter(p)[i]),
{
    assert forall|i: int| 0 <= i < files.filter(p).len() implies files.contains(
        #[trigger] files.filter(p)[i],
    ) by {
        files.lemma_filter_contains_rev(p, files.filter(p)[i]);
    }
}

proof fn lemma_best_dir_exists(files: Seq<Seq<char>>, suffix: Seq<char>, ext: Seq<char>)
    ensures
        forall|i: int|
            0 <= i < in_best_dir(files, suffix, ext).len() ==> files.contains(
                #[trigger] in_best_dir(files, suffix, ext)[i],
            ),
{
    if let Some(d) = best_dir(files, suffix) {
        lemma_filter_exists(files, |f: Seq<char>| parent_of(f) == d && ext.is_suffix_of(f));
    }
}

proof fn lemma_go_exists(parts: Seq<Seq<char>>, files: Seq<Seq<char>>)
    ensures
        forall|i: int|
            0 <= i < go_tail(parts, files).len() ==> files.contains(
                #[trigger] go_tail(parts, files)[i],
            ),
    decreases parts.len(),
{
    if parts.len() > 0 {
        lemma_go_exists(parts.drop_first(), files);
        let hits = in_best_dir(files, text::join(parts, "/"@), ".go"@);
        lemma_best_dir_exists(files, text::join(parts, "/"@), ".go"@);
        assert forall|i: int| 0 <= i < go_tail(parts, files).len() implies files.contains(
            #[trigger] go_tail(parts, files)[i],
        ) by {
            if hits.len() > 0 {
                assert(go_tail(parts, files)[i] == hits[i]);
            } else {
                assert(go_tail(parts, files)[i] == go_tail(parts.drop_first(), files)[i]);
            }
        }
    }
}

/// Resolution only ever names files of the repository.
pub proof fn law_resolution_stays_inside(
    lang: Seq<char>,
    from: Seq<char>,
    spec: Seq<char>,
    files: Seq<Seq<char>>,
    i: int,
)
    requires
        0 <= i < resolved(lang, from, spec, files).len(),
    ensures
        files.contains(resolved(lang, from, spec, files)[i]),
{
    assert forall|c: Seq<Seq<char>>, k: int| 0 <= k < first_of(c, files).len() implies files.contains(
        #[trigger] first_of(c, files)[k],
    ) by {
        lemma_first_of_exists(c, files);
    }
    assert forall|n: Seq<char>, k: int| 0 <= k < named(files, n).len() implies files.contains(
        #[trigger] named(files, n)[k],
    ) by {
        lemma_filter_exists(files, |f: Seq<char>| after_last(f, '/') == n);
    }
    lemma_go_exists(split(trimmed_of(spec, "\""@), '/'), files);
}

/// Is `p` a segment that normalizing leaves alone?
pub open spec fn plain_segment(p: Seq<char>) -> bool {
    &&& p != ""@
    &&& p != "."@
    &&& p != ".."@
    &&& !p.contains('/')
}

pub(crate) proof fn lemma_split_segments(s: Seq<char>)
    ensures
        split(s, '/').len() >= 1,
        forall|i: int| 0 <= i < split(s, '/').len() ==> !(#[trigger] split(s, '/')[i]).contains('/'),
    decreases s.len(),
{
    if s.len() > 0 {
        lemma_split_segments(s.drop_last());
        let b = split(s.drop_last(), '/');
        if s.last() != '/' {
            let l = b.last().push(s.last());
            assert(!l.contains('/')) by {
                if l.contains('/') {
                    let k = choose|k: int| 0 <= k < l.len() && l[k] == '/';
                    assert(k < b.last().len());
                    assert(b[b.len() - 1][k] == '/');
                    assert(b[b.len() - 1].contains('/'));
                }
            }
        }
    }
}

pub(crate) proof fn lemma_collapsed_plain(parts: Seq<Seq<char>>)
    requires
        forall|i: int| 0 <= i < parts.len() ==> !(#[trigger] parts[i]).contains('/'),
    ensures
        forall|i: int|
            0 <= i < collapsed(parts).len() ==> plain_segment(#[trigger] collapsed(parts)[i]),
    decreases parts.len(),
{
    if parts.len() > 0 {
        assert forall|i: int| 0 <= i < parts.drop_last().len() implies !(
        #[trigger] parts.drop_last()[i]).contains('/') by {
            assert(parts[i] == parts.drop_last()[i]);
        }
        lemma_collapsed_plain(parts.drop_last());
        assert(!parts[parts.len() - 1].contains('/'));
        let out = collapsed(parts.drop_last());
        assert forall|i: int| 0 <= i < collapsed(parts).len() implies plain_segment(
            #[trigger] collapsed(parts)[i],
        ) by {
            if i < out.len() {
                assert(collapsed(parts)[i] == out[i]);
            }
        }
    }
}

pub(crate) proof fn lemma_collapsed_fixed(parts: Seq<Seq<char>>)
    requires
        forall|i: int| 0 <= i < parts.len() ==> plain_segment(#[trigger] parts[i]),
    ensures
        collapsed(parts) == parts,
    decreases parts.len(),
{
    if parts.len() > 0 {
        assert forall|i: int| 0 <= i < parts.drop_last().len() implies plain_segment(
            #[trigger] parts.drop_last()[i],
        ) by {
            assert(parts[i] == parts.drop_last()[i]);
        }
        lemma_collapsed_fixed(parts.drop_last());
        assert(plain_segment(parts[parts.len() - 1]));
        assert(parts.drop_last().push(parts.last()) =~= parts);
    }
}

/// Splitting a text with a slash-free tail: the tail is the end of the last
/// piece.
pub(crate) proof fn lemma_split_tail(s: Seq<char>, t: Seq<char>)
    requires
        !t.contains('/'),
    ensures
        split(s + t, '/') == split(s, '/').drop_last().push(split(s, '/').last() + t),
        split(s, '/').len() >= 1,
    decreases t.len(),
{
    lemma_split_segments(s);
    if t.len() == 0 {
        assert(s + t =~= s);
        assert(split(s, '/').last() + t =~= split(s, '/').last());
        assert(split(s, '/').drop_last().push(split(s, '/').last()) =~= split(s, '/'));
    } else {
        assert(!t.drop_last().contains('/')) by {
            if t.drop_last().contains('/') {
                let k = choose|k: int| 0 <= k < t.drop_last().len() && t.drop_last()[k] == '/';
                assert(t[k] == '/');
            }
        }
        lemma_split_tail(s, t.drop_last());
        assert((s + t).drop_last() =~= s + t.drop_last());
        assert((s + t).last() == t.last());
        assert(t[t.len() - 1] != '/');
        let b = split(s, '/');
        let m = b.drop_last().push(b.last() + t.drop_last());
        assert(m.drop_last() =~= b.drop_last());
        assert((b.last() + t.drop_last()).push(t.last()) =~= b.last() + t);
    }
}

pub(crate) proof fn lemma_split_join(parts: Seq<Seq<char>>)
    requires
        parts.len() > 0,
        forall|i: int| 0 <= i < parts.len() ==> !(#[trigger] parts[i]).contains('/'),
    ensures
        split(text::join(parts, "/"@), '/') == parts,
    decreases parts.len(),
{
    reveal_strlit("/");
    assert("/"@ =~= seq!['/']);
    let last = parts[parts.len() - 1];
    assert(!last.contains('/'));
    if parts.len() == 1 {
        let e = Seq::<char>::empty();
        lemma_split_tail(e, last);
        assert(e + last =~= last);
        assert(split(e, '/') =~= seq![e]);
        assert(split(e, '/').drop_last().push(e + last) =~= parts);
    } else {
        let init = parts.drop_last();
        assert forall|i: int| 0 <= i < init.len() implies !(#[trigger] init[i]).contains('/') by {
            assert(parts[i] == init[i]);
        }
        lemma_split_join(init);
        let s = text::join(init, "/"@);
        let sl = s + "/"@;
        assert(sl.drop_last() =~= s);
        assert(split(sl, '/') =~= init.push(Seq::empty()));
        lemma_split_tail(sl, last);
        assert(Seq::<char>::empty() + last =~= last);
        assert(init.push(Seq::<char>::empty()).drop_last() =~= init);
        assert(init.push(last) =~= parts);
    }
}

/// Normalizing twice is normalizing once.
pub proof fn law_normalize_idempotent(path: Seq<char>)
    ensures
        normalized(normalized(path)) == normalized(path),
{
    let parts = split(path, '/');
    lemma_split_segments(path);
    lemma_collapsed_plain(parts);
    let c = collapsed(parts);
    if c.len() == 0 {
        let e = Seq::<char>::empty();
        assert(text::join(c, "/"@) == e);
        let s = split(e, '/');
        assert(s =~= seq![e]);
        reveal_strlit("");
        assert(e =~= ""@);
        assert(s.drop_last() =~= Seq::empty());
        assert(collapsed(s.drop_last()) =~= Seq::empty());
        assert(collapsed(s) =~= Seq::empty());
        assert(c =~= collapsed(s));
    } else {
        assert forall|i: int| 0 <= i < c.len() implies !(#[trigger] c[i]).contains('/') by {
            assert(plain_segment(c[i]));
        }
        lemma_split_join(c);
        lemma_collapsed_fixed(c);
    }
}

} // verus!
