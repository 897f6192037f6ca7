//! Source file to symbols and references.

use streaming_iterator::StreamingIterator;
use tree_sitter::{Parser, Query, QueryCapture, QueryCursor};
use vstd::prelude::*;
use vstd::string::*;

use crate::ids::{content_hash, short_hash};
use crate::lang::{self, compiles, language_of, Grammar, LangSpec};
use crate::model::{EdgeKind, SymbolKind};
use crate::order::{law_filter_counts, law_sorting_forgets_order, rank, sorted, stable_sort, Ranked};
use crate::text::{cat3, comes_before, same, starts_with, text_lt};

verus! {

broadcast use vstd::string::group_string_axioms;

/// One captured node of a query match.
#[derive(Debug)]
pub struct Capture {
    /// The name of the capture in the query.
    pub name: String,
    /// The source text of the node, where it is UTF-8.
    pub text: Option<String>,
    pub start_byte: usize,
    pub end_byte: usize,
    pub start_line: usize,
    pub end_line: usize,
}

/// The contents of a [`Capture`].
pub struct CaptureV {
    pub name: Seq<char>,
    pub text: Option<Seq<char>>,
    pub start_byte: usize,
    pub end_byte: usize,
    pub start_line: usize,
    pub end_line: usize,
}

impl DeepView for Capture {
    type V = CaptureV;

    open spec fn deep_view(&self) -> CaptureV {
        CaptureV {
            name: self.name@,
            text: self.text.deep_view(),
            start_byte: self.start_byte,
            end_byte: self.end_byte,
            start_line: self.start_line,
            end_line: self.end_line,
        }
    }
}

impl Clone for Capture {
    fn clone(&self) -> (r: Self)
        ensures
            r.deep_view() == self.deep_view(),
    {
        let r = Capture {
            name: self.name.clone(),
            text: self.text.clone(),
            start_byte: self.start_byte,
            end_byte: self.end_byte,
            start_line: self.start_line,
            end_line: self.end_line,
        };
        r
    }
}

/// The captures of every match of query `text` in `source`, in the order in
/// which the matches are found; nothing where the query does not compile or the
/// source cannot be parsed.
pub uninterp spec fn captures_of(g: Grammar, text: Seq<char>, source: Seq<u8>) -> Option<
    Seq<Seq<CaptureV>>,
>;

/// `tree_sitter::Parser::parse` and `tree_sitter::QueryCursor::matches`: parses
/// `source` and runs a query over the tree. The result is named `captures_of`;
/// which nodes a query captures is left unsaid.
#[verifier::external_body]
pub(crate) fn captures(g: Grammar, text: &str, source: &[u8]) -> (r: Option<Vec<Vec<Capture>>>)
    requires
        source@.len() <= u32::MAX,
    ensures
        r.deep_view() == captures_of(g, text@, source@),
{
    let query = Query::new(&language_of(g), text).ok()?;
    let mut parser = Parser::new();
    parser.set_language(&language_of(g)).ok()?;
    let tree = parser.parse(source, None)?;
    let mut cursor = QueryCursor::new();
    Some(cursor.matches(&query, tree.root_node(), source).map_deref(|m| m.captures.iter().map(|QueryCapture { node, index }| Capture {
        name: query.capture_names()[*index as usize].into(),
        text: node.utf8_text(source).ok().map(Into::into),
        start_byte: node.start_byte(),
        end_byte: node.end_byte(),
        start_line: node.start_position().row,
        end_line: node.end_position().row
    }).collect()).collect())
}

/// A symbol found in one file.
#[derive(Debug)]
pub struct ParsedSymbol {
    pub kind: SymbolKind,
    pub name: String,
    /// Qualified by enclosing symbols within the file.
    pub fqn: String,
    /// Index into `ParsedFile::symbols`.
    pub parent: Option<usize>,
    pub start_byte: usize,
    pub end_byte: usize,
    pub start_line: usize,
    pub end_line: usize,
    /// Hash of the symbol's full source text, nested symbols included.
    pub body_hash: String,
    /// Hash of the symbol's text with nested symbols blanked out.
    pub own_hash: String,
    /// Distinguishes same-named siblings.
    pub disambiguator: u32,
}

/// The contents of a [`ParsedSymbol`].
pub struct ParsedSymbolV {
    pub kind: SymbolKind,
    pub name: Seq<char>,
    pub fqn: Seq<char>,
    pub parent: Option<usize>,
    pub start_byte: usize,
    pub end_byte: usize,
    pub start_line: usize,
    pub end_line: usize,
    pub body_hash: Seq<char>,
    pub own_hash: Seq<char>,
    pub disambiguator: u32,
}

impl DeepView for ParsedSymbol {
    type V = ParsedSymbolV;

    open spec fn deep_view(&self) -> ParsedSymbolV {
        ParsedSymbolV {
            kind: self.kind,
            name: self.name@,
            fqn: self.fqn@,
            parent: self.parent,
            start_byte: self.start_byte,
            end_byte: self.end_byte,
            start_line: self.start_line,
            end_line: self.end_line,
            body_hash: self.body_hash@,
            own_hash: self.own_hash@,
            disambiguator: self.disambiguator,
        }
    }
}

impl Clone for ParsedSymbol {
    fn clone(&self) -> (r: Self)
        ensures
            r.deep_view() == self.deep_view(),
    {
        let r = ParsedSymbol {
            kind: self.kind,
            name: self.name.clone(),
            fqn: self.fqn.clone(),
            parent: self.parent,
            start_byte: self.start_byte,
            end_byte: self.end_byte,
            start_line: self.start_line,
            end_line: self.end_line,
            body_hash: self.body_hash.clone(),
            own_hash: self.own_hash.clone(),
            disambiguator: self.disambiguator,
        };
        r
    }
}

/// A reference found in one file.
#[derive(Debug)]
pub struct ParsedRef {
    /// Referenced name as written.
    pub name: String,
    /// Enclosing symbol index, if the reference sits inside one.
    pub from: Option<usize>,
    pub kind: EdgeKind,
}

/// The contents of a [`ParsedRef`].
pub struct ParsedRefV {
    pub name: Seq<char>,
    pub from: Option<usize>,
    pub kind: EdgeKind,
}

impl DeepView for ParsedRef {
    type V = ParsedRefV;

    open spec fn deep_view(&self) -> ParsedRefV {
        ParsedRefV {
            name: self.name@,
            from: self.from,
            kind: self.kind,
        }
    }
}

impl Clone for ParsedRef {
    fn clone(&self) -> (r: Self)
        ensures
            r.deep_view() == self.deep_view(),
    {
        let r = ParsedRef {
            name: self.name.clone(),
            from: self.from,
            kind: self.kind,
        };
        r
    }
}

/// A definition as captured.
#[derive(Debug)]
pub struct RawDef {
    pub kind: SymbolKind,
    pub name: String,
    pub start_byte: usize,
    pub end_byte: usize,
    pub start_line: usize,
    pub end_line: usize,
}

/// The contents of a [`RawDef`].
pub struct RawDefV {
    pub kind: SymbolKind,
    pub name: Seq<char>,
    pub start_byte: usize,
    pub end_byte: usize,
    pub start_line: usize,
    pub end_line: usize,
}

impl DeepView for RawDef {
    type V = RawDefV;

    open spec fn deep_view(&self) -> RawDefV {
        RawDefV {
            kind: self.kind,
            name: self.name@,
            start_byte: self.start_byte,
            end_byte: self.end_byte,
            start_line: self.start_line,
            end_line: self.end_line,
        }
    }
}

impl Clone for RawDef {
    fn clone(&self) -> (r: Self)
        ensures
            r.deep_view() == self.deep_view(),
    {
        let r = RawDef {
            kind: self.kind,
            name: self.name.clone(),
            start_byte: self.start_byte,
            end_byte: self.end_byte,
            start_line: self.start_line,
            end_line: self.end_line,
        };
        r
    }
}

/// A reference as captured.
#[derive(Debug)]
pub struct RawRef {
    pub name: String,
    pub kind: EdgeKind,
    pub start_byte: usize,
    pub end_byte: usize,
}

/// The contents of a [`RawRef`].
pub struct RawRefV {
    pub name: Seq<char>,
    pub kind: EdgeKind,
    pub start_byte: usize,
    pub end_byte: usize,
}

impl DeepView for RawRef {
    type V = RawRefV;

    open spec fn deep_view(&self) -> RawRefV {
        RawRefV {
            name: self.name@,
            kind: self.kind,
            start_byte: self.start_byte,
            end_byte: self.end_byte,
        }
    }
}

impl Clone for RawRef {
    fn clone(&self) -> (r: Self)
        ensures
            r.deep_view() == self.deep_view(),
    {
        let r = RawRef {
            name: self.name.clone(),
            kind: self.kind,
            start_byte: self.start_byte,
            end_byte: self.end_byte,
        };
        r
    }
}

/// What a source file holds.
#[derive(Debug)]
pub struct ParsedFile {
    pub lang: &'static str,
    pub symbols: Vec<ParsedSymbol>,
    pub refs: Vec<ParsedRef>,
    /// Hash of the whole file.
    pub content_hash: String,
    /// Hash of the file with top-level symbols blanked out: imports, module
    /// wiring and stray statements.
    pub own_hash: String,
}

/// The contents of a [`ParsedFile`].
pub struct ParsedFileV {
    pub lang: Seq<char>,
    pub symbols: Seq<ParsedSymbolV>,
    pub refs: Seq<ParsedRefV>,
    pub content_hash: Seq<char>,
    pub own_hash: Seq<char>,
}

impl DeepView for ParsedFile {
    type V = ParsedFileV;

    open spec fn deep_view(&self) -> ParsedFileV {
        ParsedFileV {
            lang: self.lang@,
            symbols: self.symbols.deep_view(),
            refs: self.refs.deep_view(),
            content_hash: self.content_hash@,
            own_hash: self.own_hash@,
        }
    }
}

/// Why a file was not parsed.
#[derive(Debug, Clone, Copy, PartialEq, Eq, Structural)]
pub enum ParseError {
    /// The extension belongs to no grammar.
    NoGrammar,
    /// The grammar does not take its own query.
    BadQuery,
    /// The parser gave up.
    Unparsed,
}

// ---------------------------------------------------------- reading a match

/// The kind of symbol that a capture name defines.
pub open spec fn def_kind_of(capture: Seq<char>) -> Option<SymbolKind> {
    if capture == "definition.function"@ {
        Some(SymbolKind::Function)
    } else if capture == "definition.method"@ {
        Some(SymbolKind::Method)
    } else if capture == "definition.class"@ || capture == "definition.struct"@ || capture
        == "definition.enum"@ {
        Some(SymbolKind::Class)
    } else if capture == "definition.interface"@ {
        Some(SymbolKind::Interface)
    } else if capture == "definition.trait"@ {
        Some(SymbolKind::Trait)
    } else if capture == "definition.module"@ || capture == "definition.namespace"@ {
        Some(SymbolKind::Module)
    } else if capture == "definition.type"@ {
        Some(SymbolKind::Type)
    } else if capture == "definition.constant"@ || capture == "definition.variable"@ {
        Some(SymbolKind::Constant)
    } else if capture == "definition.macro"@ {
        Some(SymbolKind::Macro)
    } else {
        None
    }
}

/// The kind of symbol that a capture name defines.
pub fn def_kind(capture: &str) -> (r: Option<SymbolKind>)
    ensures
        r == def_kind_of(capture@),
{
    if same(capture, "definition.function") {
        Some(SymbolKind::Function)
    } else if same(capture, "definition.method") {
        Some(SymbolKind::Method)
    } else if same(capture, "definition.class") || same(capture, "definition.struct") || same(
        capture,
        "definition.enum",
    ) {
        Some(SymbolKind::Class)
    } else if same(capture, "definition.interface") {
        Some(SymbolKind::Interface)
    } else if same(capture, "definition.trait") {
        Some(SymbolKind::Trait)
    } else if same(capture, "definition.module") || same(capture, "definition.namespace") {
        Some(SymbolKind::Module)
    } else if same(capture, "definition.type") {
        Some(SymbolKind::Type)
    } else if same(capture, "definition.constant") || same(capture, "definition.variable") {
        Some(SymbolKind::Constant)
    } else if same(capture, "definition.macro") {
        Some(SymbolKind::Macro)
    } else {
        None
    }
}

/// The kind of edge that a capture name refers by.
pub open spec fn ref_kind_of(capture: Seq<char>) -> Option<EdgeKind> {
    if capture == "reference.call"@ || capture == "reference.send"@ {
        Some(EdgeKind::Calls)
    } else if capture == "reference.class"@ || capture == "reference.type"@ || capture
        == "reference.interface"@ || capture == "reference.implementation"@ || capture
        == "reference.module"@ {
        Some(EdgeKind::Uses)
    } else {
        None
    }
}

/// The kind of edge that a capture name refers by.
pub fn ref_kind(capture: &str) -> (r: Option<EdgeKind>)
    ensures
        r == ref_kind_of(capture@),
{
    if same(capture, "reference.call") || same(capture, "reference.send") {
        Some(EdgeKind::Calls)
    } else if same(capture, "reference.class") || same(capture, "reference.type") || same(
        capture,
        "reference.interface",
    ) || same(capture, "reference.implementation") || same(capture, "reference.module") {
        Some(EdgeKind::Uses)
    } else {
        None
    }
}

/// Does the capture mark a definition or a reference?
pub open spec fn is_target(c: CaptureV) -> bool {
    "definition."@.is_prefix_of(c.name) || "reference."@.is_prefix_of(c.name)
}

/// The first capture of `m` that marks a definition or a reference.
pub open spec fn target_of(m: Seq<CaptureV>) -> Option<CaptureV>
    decreases m.len(),
{
    if m.len() == 0 {
        None
    } else if is_target(m[0]) {
        Some(m[0])
    } else {
        target_of(m.drop_first())
    }
}

/// Is `c` a usable name for the node `t`: called `name`, inside it, not empty?
pub open spec fn names(c: CaptureV, t: CaptureV) -> bool {
    &&& c.name == "name"@
    &&& t.start_byte <= c.start_byte
    &&& c.end_byte <= t.end_byte
    &&& c.text is Some
    &&& c.text->0.len() > 0
}

/// The first usable name in `m` for the node `t`.
pub open spec fn name_in(m: Seq<CaptureV>, t: CaptureV) -> Option<Seq<char>>
    decreases m.len(),
{
    if m.len() == 0 {
        None
    } else if names(m[0], t) {
        m[0].text
    } else {
        name_in(m.drop_first(), t)
    }
}

/// Do the two definitions describe the same node the same way?
pub open spec fn same_def(a: RawDefV, b: RawDefV) -> bool {
    &&& a.start_byte == b.start_byte
    &&& a.end_byte == b.end_byte
    &&& a.kind == b.kind
    &&& a.name == b.name
}

/// Is a definition like `d` already among `defs`?
pub open spec fn known_def(defs: Seq<RawDefV>, d: RawDefV) -> bool {
    exists|i: int| 0 <= i < defs.len() && same_def(#[trigger] defs[i], d)
}

/// The definition in one match.
pub open spec fn def_in(m: Seq<CaptureV>) -> Option<RawDefV> {
    match target_of(m) {
        Some(t) => match (name_in(m, t), def_kind_of(t.name)) {
            (Some(name), Some(kind)) => Some(
                RawDefV {
                    kind,
                    name,
                    start_byte: t.start_byte,
                    end_byte: t.end_byte,
                    start_line: t.start_line,
                    end_line: t.end_line,
                },
            ),
            _ => None,
        },
        None => None,
    }
}

/// The reference in one match.
pub open spec fn ref_in(m: Seq<CaptureV>) -> Option<RawRefV> {
    match target_of(m) {
        Some(t) => match (name_in(m, t), def_kind_of(t.name), ref_kind_of(t.name)) {
            (Some(name), None, Some(kind)) => Some(
                RawRefV { name, kind, start_byte: t.start_byte, end_byte: t.end_byte },
            ),
            _ => None,
        },
        None => None,
    }
}

/// The definitions in some matches, each once.
pub open spec fn defs_in(ms: Seq<Seq<CaptureV>>) -> Seq<RawDefV>
    decreases ms.len(),
{
    if ms.len() == 0 {
        Seq::empty()
    } else {
        let before = defs_in(ms.drop_last());
        match def_in(ms.last()) {
            Some(d) if !known_def(before, d) => before.push(d),
            _ => before,
        }
    }
}

/// The references in some matches.
pub open spec fn refs_in(ms: Seq<Seq<CaptureV>>) -> Seq<RawRefV>
    decreases ms.len(),
{
    if ms.len() == 0 {
        Seq::empty()
    } else {
        match ref_in(ms.last()) {
            Some(d) => refs_in(ms.drop_last()).push(d),
            None => refs_in(ms.drop_last()),
        }
    }
}

fn target(m: &Vec<Capture>) -> (r: Option<usize>)
    ensures
        match r {
            Some(i) => i < m@.len() && target_of(m.deep_view()) == Some(m@[i as int].deep_view()),
            None => target_of(m.deep_view()) is None,
        },
{
    let ghost all = m.deep_view();
    let mut i: usize = 0;
    assert(all.skip(0) =~= all);
    while i < m.len()
        invariant
            all == m.deep_view(),
            i <= m@.len(),
            target_of(all) == target_of(all.skip(i as int)),
        decreases m@.len() - i,
    {
        assert(all.skip(i as int)[0] == m@[i as int].deep_view());
        assert(all.skip(i as int).drop_first() =~= all.skip(i + 1));
        if starts_with(m[i].name.as_str(), "definition.") || starts_with(
            m[i].name.as_str(),
            "reference.",
        ) {
            return Some(i);
        }
        i += 1;
    }
    None
}

fn name_for(m: &Vec<Capture>, t: &Capture) -> (r: Option<String>)
    ensures
        r.deep_view() == name_in(m.deep_view(), t.deep_view()),
{
    let ghost all = m.deep_view();
    let ghost tv = t.deep_view();
    let mut i: usize = 0;
    assert(all.skip(0) =~= all);
    while i < m.len()
        invariant
            all == m.deep_view(),
            tv == t.deep_view(),
            i <= m@.len(),
            name_in(all, tv) == name_in(all.skip(i as int), tv),
        decreases m@.len() - i,
    {
        let c = &m[i];
        assert(all.skip(i as int)[0] == c.deep_view());
        assert(all.skip(i as int).drop_first() =~= all.skip(i + 1));
        if same(c.name.as_str(), "name") && t.start_byte <= c.start_byte && c.end_byte
            <= t.end_byte {
            if let Some(text) = &c.text {
                if !text.as_str().is_empty() {
                    return Some(text.clone());
                }
            }
        }
        i += 1;
    }
    None
}

fn is_known(defs: &Vec<RawDef>, d: &RawDef) -> (r: bool)
    ensures
        r == known_def(defs.deep_view(), d.deep_view()),
{
    let mut i: usize = 0;
    while i < defs.len()
        invariant
            i <= defs@.len(),
            forall|k: int|
                0 <= k < i ==> !same_def(#[trigger] defs.deep_view()[k], d.deep_view()),
        decreases defs@.len() - i,
    {
        let e = &defs[i];
        assert(defs.deep_view()[i as int] == e.deep_view());
        if e.start_byte == d.start_byte && e.end_byte == d.end_byte && e.kind == d.kind && same(
            e.name.as_str(),
            d.name.as_str(),
        ) {
            return true;
        }
        i += 1;
    }
    false
}

/// Sorts the matches into definitions and references.
pub fn select(ms: &Vec<Vec<Capture>>) -> (r: (Vec<RawDef>, Vec<RawRef>))
    ensures
        r.0.deep_view() == defs_in(ms.deep_view()),
        r.1.deep_view() == refs_in(ms.deep_view()),
{
    let ghost all = ms.deep_view();
    let mut defs: Vec<RawDef> = Vec::new();
    let mut refs: Vec<RawRef> = Vec::new();
    let mut i: usize = 0;
    assert(defs.deep_view() =~= defs_in(all.take(0)));
    assert(refs.deep_view() =~= refs_in(all.take(0)));
    while i < ms.len()
        invariant
            all == ms.deep_view(),
            i <= ms@.len(),
            defs.deep_view() == defs_in(all.take(i as int)),
            refs.deep_view() == refs_in(all.take(i as int)),
        decreases ms@.len() - i,
    {
        let ghost d0 = defs.deep_view();
        let ghost r0 = refs.deep_view();
        let m = &ms[i];
        i += 1;
        proof {
            assert(all.take(i as int).drop_last() =~= all.take(i - 1));
            assert(all.take(i as int).last() == m.deep_view());
        }
        let t = match target(m) {
            Some(k) => &m[k],
            None => continue ,
        };
        let name = match name_for(m, t) {
            Some(n) => n,
            None => continue ,
        };
        match def_kind(t.name.as_str()) {
            Some(kind) => {
                let d = RawDef {
                    kind,
                    name,
                    start_byte: t.start_byte,
                    end_byte: t.end_byte,
                    start_line: t.start_line,
                    end_line: t.end_line,
                };
                if !is_known(&defs, &d) {
                    let ghost dv = d.deep_view();
                    defs.push(d);
                    assert(defs.deep_view() =~= d0.push(dv));
                }
            },
            None => {
                if let Some(kind) = ref_kind(t.name.as_str()) {
                    let d = RawRef {
                        name,
                        kind,
                        start_byte: t.start_byte,
                        end_byte: t.end_byte,
                    };
                    let ghost dv = d.deep_view();
                    refs.push(d);
                    assert(refs.deep_view() =~= r0.push(dv));
                }
            },
        }
    }
    assert(all.take(i as int) =~= all);
    (defs, refs)
}

// -------------------------------------------------------------- blanked text

/// What stands for a nested symbol.
pub open spec fn hole() -> Seq<u8> {
    seq![0u8, 60u8, 110u8, 101u8, 115u8, 116u8, 101u8, 100u8, 62u8, 0u8]
}

impl Ranked for (usize, usize) {
    open spec fn before(a: (usize, usize), b: (usize, usize)) -> bool {
        a.0 < b.0 || (a.0 == b.0 && a.1 < b.1)
    }

    fn is_before(&self, other: &Self) -> (r: bool) {
        self.0 < other.0 || (self.0 == other.0 && self.1 < other.1)
    }
}

/// Is the span not empty and inside `start..end`?
pub open spec fn fits(span: (usize, usize), start: int, end: int) -> bool {
    start <= span.0 && span.1 <= end && span.0 < span.1
}

/// Copies `source` from `cursor` on, the spans replaced by holes; gives the text
/// and how far it got. A span that begins before the cursor was covered already.
pub open spec fn blanked(source: Seq<u8>, spans: Seq<(usize, usize)>, start: int) -> (
    Seq<u8>,
    int,
)
    decreases spans.len(),
{
    if spans.len() == 0 {
        (Seq::empty(), start)
    } else {
        let (buf, cursor) = blanked(source, spans.drop_last(), start);
        let (s, e) = spans.last();
        if s < cursor {
            (buf, cursor)
        } else {
            (buf + source.subrange(cursor, s as int) + hole(), e as int)
        }
    }
}

/// The spans that matter for `start..end`, in order.
pub open spec fn spans_within(spans: Seq<(usize, usize)>, start: int, end: int) -> Seq<
    (usize, usize),
> {
    sorted(spans.filter(|p: (usize, usize)| fits(p, start, end)), rank::<(usize, usize)>())
}

/// `source[start..end]` with `spans` replaced by holes.
pub open spec fn elided(
    source: Seq<u8>,
    start: int,
    end: int,
    spans: Seq<(usize, usize)>,
) -> Seq<u8> {
    let stop = if end < source.len() {
        end
    } else {
        source.len() as int
    };
    if start >= stop {
        Seq::empty()
    } else {
        let (buf, cursor) = blanked(source, spans_within(spans, start, stop), start);
        buf + source.subrange(cursor, stop)
    }
}

/// The cursor stays inside the text while spans fit.
proof fn lemma_cursor_fits(source: Seq<u8>, spans: Seq<(usize, usize)>, start: int, stop: int)
    requires
        start <= stop,
        forall|i: int| 0 <= i < spans.len() ==> fits(#[trigger] spans[i], start, stop),
    ensures
        start <= blanked(source, spans, start).1 <= stop,
    decreases spans.len(),
{
    if spans.len() > 0 {
        lemma_cursor_fits(source, spans.drop_last(), start, stop);
        assert(fits(spans[spans.len() - 1], start, stop));
    }
}

fn copy_range(buf: &mut Vec<u8>, source: &[u8], from: usize, to: usize)
    requires
        from <= to <= source@.len(),
    ensures
        final(buf)@ == old(buf)@ + source@.subrange(from as int, to as int),
{
    let mut i: usize = from;
    assert(source@.subrange(from as int, from as int) =~= Seq::empty());
    assert(buf@ =~= old(buf)@ + source@.subrange(from as int, i as int));
    while i < to
        invariant
            from <= i <= to <= source@.len(),
            buf@ == old(buf)@ + source@.subrange(from as int, i as int),
        decreases to - i,
    {
        buf.push(source[i]);
        i += 1;
        assert(source@.subrange(from as int, i as int) =~= source@.subrange(
            from as int,
            i - 1,
        ).push(source@[i - 1]));
        assert(buf@ =~= old(buf)@ + source@.subrange(from as int, i as int));
    }
}

/// Hash of `source[start..end]` with `spans` replaced by a fixed marker.
pub fn elided_hash(source: &[u8], start: usize, end: usize, spans: &Vec<(usize, usize)>) -> (r:
    String)
    ensures
        r@ == short_hash(elided(source@, start as int, end as int, spans@), 16),
{
    let stop = if end < source.len() {
        end
    } else {
        source.len()
    };
    if start >= stop {
        let empty: Vec<u8> = Vec::new();
        return content_hash(empty.as_slice());
    }
    let ghost p = |q: (usize, usize)| fits(q, start as int, stop as int);
    let mut kept: Vec<(usize, usize)> = Vec::new();
    let mut i: usize = 0;
    assert(kept@ =~= spans@.take(0).filter(p));
    while i < spans.len()
        invariant
            i <= spans@.len(),
            p == (|q: (usize, usize)| fits(q, start as int, stop as int)),
            kept@ == spans@.take(i as int).filter(p),
        decreases spans@.len() - i,
    {
        let (s, e) = spans[i];
        proof {
            assert(spans@.take(i + 1) =~= spans@.take(i as int).push(spans@[i as int]));
            spans@.take(i as int).lemma_filter_push(spans@[i as int], p);
        }
        if s >= start && e <= stop && s < e {
            kept.push((s, e));
        }
        i += 1;
    }
    assert(spans@.take(i as int) =~= spans@);
    let ghost kept0 = kept@;
    assert(kept.deep_view() =~= kept@);
    let kept = stable_sort(kept);
    assert(kept.deep_view() =~= kept@);
    let ghost within = spans_within(spans@, start as int, stop as int);
    assert(kept@ == within);
    assert forall|k: int| 0 <= k < kept@.len() implies fits(
        #[trigger] kept@[k],
        start as int,
        stop as int,
    ) by {
        crate::order::law_sorted_keeps(kept0, rank::<(usize, usize)>());
        kept@.to_multiset_ensures();
        kept0.to_multiset_ensures();
        assert(kept@.to_multiset().count(kept@[k]) > 0);
        assert(kept0.contains(kept@[k]));
        let j = choose|j: int| 0 <= j < kept0.len() && kept0[j] == kept@[k];
        spans@.lemma_filter_pred(p, j);
    }
    let holed: Vec<u8> = vec![0u8, 60u8, 110u8, 101u8, 115u8, 116u8, 101u8, 100u8, 62u8, 0u8];
    assert(holed@ =~= hole());
    let mut buf: Vec<u8> = Vec::new();
    let mut cursor: usize = start;
    let mut k: usize = 0;
    assert(kept@.take(0) =~= Seq::empty());
    while k < kept.len()
        invariant
            k <= kept@.len(),
            start <= stop <= source@.len(),
            holed@ == hole(),
            forall|j: int|
                0 <= j < kept@.len() ==> fits(#[trigger] kept@[j], start as int, stop as int),
            (buf@, cursor as int) == blanked(source@, kept@.take(k as int), start as int),
            start <= cursor <= stop,
        decreases kept@.len() - k,
    {
        let (s, e) = kept[k];
        k += 1;
        proof {
            assert(kept@.take(k as int).drop_last() =~= kept@.take(k - 1));
            assert(kept@.take(k as int).last() == (s, e));
            assert(fits(kept@[k - 1], start as int, stop as int));
        }
        if s < cursor {
            continue ;
        }
        copy_range(&mut buf, source, cursor, s);
        copy_range(&mut buf, holed.as_slice(), 0, 10);
        assert(hole().subrange(0, 10) =~= hole());
        cursor = e;
    }
    assert(kept@.take(k as int) =~= kept@);
    copy_range(&mut buf, source, cursor, stop);
    content_hash(buf.as_slice())
}

// ----------------------------------------------------------------- containment

impl Ranked for RawDef {
    /// Outermost first: by start, then by later end, then by the word of the
    /// kind.
    open spec fn before(a: RawDefV, b: RawDefV) -> bool {
        a.start_byte < b.start_byte || (a.start_byte == b.start_byte && (a.end_byte > b.end_byte
            || (a.end_byte == b.end_byte && text_lt(a.kind.word(), b.kind.word()))))
    }

    fn is_before(&self, other: &Self) -> (r: bool) {
        self.start_byte < other.start_byte || (self.start_byte == other.start_byte && (
        self.end_byte > other.end_byte || (self.end_byte == other.end_byte && comes_before(
            self.kind.as_str(),
            other.kind.as_str(),
        ))))
    }
}

/// The stack of enclosing symbols without those that end before `start`.
pub open spec fn enclosing(
    symbols: Seq<ParsedSymbolV>,
    stack: Seq<usize>,
    start: usize,
) -> Seq<usize>
    decreases stack.len(),
{
    if stack.len() > 0 && start >= symbols[stack.last() as int].end_byte {
        enclosing(symbols, stack.drop_last(), start)
    } else {
        stack
    }
}

/// Does the innermost enclosing symbol describe the same declaration already?
pub open spec fn doubled(symbols: Seq<ParsedSymbolV>, stack: Seq<usize>, raw: RawDefV) -> bool {
    stack.len() > 0 && {
        let t = symbols[stack.last() as int];
        t.name == raw.name && t.start_byte <= raw.start_byte && raw.end_byte <= t.end_byte
    }
}

/// How many of `symbols` have this kind and qualified name.
pub open spec fn namesakes(symbols: Seq<ParsedSymbolV>, kind: SymbolKind, fqn: Seq<char>) -> nat
    decreases symbols.len(),
{
    if symbols.len() == 0 {
        0
    } else {
        namesakes(symbols.drop_last(), kind, fqn) + if symbols.last().kind == kind
            && symbols.last().fqn == fqn {
            1nat
        } else {
            0nat
        }
    }
}

/// The text of a definition, as much of it as the source holds.
pub open spec fn body(source: Seq<u8>, start: int, end: int) -> Seq<u8> {
    let stop = if end < source.len() {
        end
    } else {
        source.len() as int
    };
    if start <= stop {
        source.subrange(start, stop)
    } else {
        Seq::empty()
    }
}

/// The symbol for a definition inside the symbols of `stack`.
pub open spec fn symbol_for(
    symbols: Seq<ParsedSymbolV>,
    stack: Seq<usize>,
    raw: RawDefV,
    source: Seq<u8>,
) -> ParsedSymbolV {
    let parent = if stack.len() > 0 {
        Some(stack.last())
    } else {
        None
    };
    let fqn = match parent {
        Some(p) => symbols[p as int].fqn + "."@ + raw.name,
        None => raw.name,
    };
    ParsedSymbolV {
        kind: raw.kind,
        name: raw.name,
        fqn,
        parent,
        start_byte: raw.start_byte,
        end_byte: raw.end_byte,
        start_line: raw.start_line,
        end_line: raw.end_line,
        body_hash: short_hash(body(source, raw.start_byte as int, raw.end_byte as int), 16),
        own_hash: Seq::empty(),
        disambiguator: namesakes(symbols, raw.kind, fqn) as u32,
    }
}

/// Symbols and stack once the definitions, outermost first, are placed.
pub open spec fn placed(defs: Seq<RawDefV>, source: Seq<u8>) -> (Seq<ParsedSymbolV>, Seq<usize>)
    decreases defs.len(),
{
    if defs.len() == 0 {
        (Seq::empty(), Seq::empty())
    } else {
        let (symbols, stack) = placed(defs.drop_last(), source);
        let raw = defs.last();
        let open = enclosing(symbols, stack, raw.start_byte);
        if doubled(symbols, open, raw) {
            (symbols, open)
        } else {
            (
                symbols.push(symbol_for(symbols, open, raw, source)),
                open.push(symbols.len() as usize),
            )
        }
    }
}

/// The spans of the symbols whose parent is `parent`.
pub open spec fn child_spans(symbols: Seq<ParsedSymbolV>, parent: Option<usize>) -> Seq<
    (usize, usize),
>
    decreases symbols.len(),
{
    if symbols.len() == 0 {
        Seq::empty()
    } else if symbols.last().parent == parent {
        child_spans(symbols.drop_last(), parent).push(
            (symbols.last().start_byte, symbols.last().end_byte),
        )
    } else {
        child_spans(symbols.drop_last(), parent)
    }
}

/// `symbols[i]` with the hash of its own text filled in.
pub open spec fn with_own_hash(symbols: Seq<ParsedSymbolV>, i: int, source: Seq<u8>) -> ParsedSymbolV {
    ParsedSymbolV {
        own_hash: short_hash(
            elided(
                source,
                symbols[i].start_byte as int,
                symbols[i].end_byte as int,
                child_spans(symbols, Some(i as usize)),
            ),
            16,
        ),
        ..symbols[i]
    }
}

/// Does the symbol contain the reference?
pub open spec fn holds(s: ParsedSymbolV, r: RawRefV) -> bool {
    s.start_byte <= r.start_byte && r.end_byte <= s.end_byte
}

/// Does `a` lie inside `b`, or where `b` does: does it start later, or start there
/// and end no later?
pub open spec fn inside(a: ParsedSymbolV, b: ParsedSymbolV) -> bool {
    a.start_byte > b.start_byte || (a.start_byte == b.start_byte && a.end_byte <= b.end_byte)
}

/// The innermost of `symbols` that contains `r`: of those that do, the one that
/// starts last, and of several that start there the one that ends first. Of several
/// with one span it is the last, which the others were placed around.
pub open spec fn innermost(symbols: Seq<ParsedSymbolV>, r: RawRefV) -> Option<usize>
    decreases symbols.len(),
{
    if symbols.len() == 0 {
        None
    } else {
        let best = innermost(symbols.drop_last(), r);
        if !holds(symbols.last(), r) {
            best
        } else {
            match best {
                Some(b) if !inside(symbols.last(), symbols[b as int]) => best,
                _ => Some((symbols.len() - 1) as usize),
            }
        }
    }
}

/// The definitions outermost first.
pub open spec fn outermost_first(defs: Seq<RawDefV>) -> Seq<RawDefV> {
    sorted(defs, rank::<RawDef>())
}

/// The file with these definitions and references.
pub open spec fn built(
    lang: Seq<char>,
    defs: Seq<RawDefV>,
    raw_refs: Seq<RawRefV>,
    source: Seq<u8>,
) -> ParsedFileV {
    let symbols = placed(outermost_first(defs), source).0;
    ParsedFileV {
        lang,
        symbols: Seq::new(symbols.len(), |i: int| with_own_hash(symbols, i, source)),
        refs: raw_refs.map_values(
            |r: RawRefV| ParsedRefV { name: r.name, from: innermost(symbols, r), kind: r.kind },
        ),
        content_hash: short_hash(source, 16),
        own_hash: short_hash(
            elided(source, 0, source.len() as int, child_spans(symbols, None)),
            16,
        ),
    }
}

/// Every index on the stack is that of a symbol, parents come before their
/// children, and an innermost symbol is one of the symbols.
pub(crate) proof fn lemma_placed(defs: Seq<RawDefV>, source: Seq<u8>)
    requires
        defs.len() <= usize::MAX,
    ensures
        forall|i: int|
            0 <= i < placed(defs, source).1.len() ==> (#[trigger] placed(defs, source).1[i])
                < placed(defs, source).0.len(),
        forall|i: int|
            0 <= i < placed(defs, source).0.len() ==> ((
            #[trigger] placed(defs, source).0[i]).parent matches Some(p) ==> p < i),
        placed(defs, source).0.len() <= defs.len(),
    decreases defs.len(),
{
    if defs.len() > 0 {
        lemma_placed(defs.drop_last(), source);
        let (symbols, stack) = placed(defs.drop_last(), source);
        lemma_enclosing(symbols, stack, defs.last().start_byte);
    }
}

pub(crate) proof fn lemma_enclosing(symbols: Seq<ParsedSymbolV>, stack: Seq<usize>, start: usize)
    ensures
        enclosing(symbols, stack, start).len() <= stack.len(),
        forall|i: int|
            0 <= i < enclosing(symbols, stack, start).len() ==> #[trigger] enclosing(
                symbols,
                stack,
                start,
            )[i] == stack[i],
        enclosing(symbols, stack, start).len() > 0 ==> start < symbols[enclosing(
            symbols,
            stack,
            start,
        ).last() as int].end_byte,
    decreases stack.len(),
{
    if stack.len() > 0 && start >= symbols[stack.last() as int].end_byte {
        lemma_enclosing(symbols, stack.drop_last(), start);
    }
}

proof fn lemma_innermost(symbols: Seq<ParsedSymbolV>, r: RawRefV)
    requires
        symbols.len() <= usize::MAX,
    ensures
        innermost(symbols, r) matches Some(b) ==> b < symbols.len() && holds(symbols[b as int], r)
            && forall|i: int|
            0 <= i < symbols.len() && holds(#[trigger] symbols[i], r) ==> inside(
                symbols[b as int],
                symbols[i],
            ) && (inside(symbols[i], symbols[b as int]) ==> i <= b),
        innermost(symbols, r) is None ==> forall|i: int|
            0 <= i < symbols.len() ==> !holds(#[trigger] symbols[i], r),
    decreases symbols.len(),
{
    if symbols.len() > 0 {
        lemma_innermost(symbols.drop_last(), r);
        let best = innermost(symbols.drop_last(), r);
        let res = innermost(symbols, r);
        assert forall|i: int| 0 <= i < symbols.len() && holds(#[trigger] symbols[i], r) implies (
        res matches Some(b) && inside(symbols[b as int], symbols[i]) && (inside(
            symbols[i],
            symbols[b as int],
        ) ==> i <= b)) by {
            if i < symbols.len() - 1 {
                assert(symbols.drop_last()[i] == symbols[i]);
            }
        }
    }
}

fn count_namesakes(symbols: &Vec<ParsedSymbol>, kind: SymbolKind, fqn: &str) -> (r: usize)
    ensures
        r == namesakes(symbols.deep_view(), kind, fqn@),
        r <= symbols@.len(),
{
    let ghost all = symbols.deep_view();
    let mut n: usize = 0;
    let mut i: usize = 0;
    while i < symbols.len()
        invariant
            all == symbols.deep_view(),
            i <= symbols@.len(),
            n <= i,
            n == namesakes(all.take(i as int), kind, fqn@),
        decreases symbols@.len() - i,
    {
        let s = &symbols[i];
        i += 1;
        proof {
            assert(all.take(i as int).drop_last() =~= all.take(i - 1));
            assert(all.take(i as int).last() == s.deep_view());
        }
        if s.kind == kind && same(s.fqn.as_str(), fqn) {
            n += 1;
        }
    }
    assert(all.take(i as int) =~= all);
    n
}

fn spans_of(symbols: &Vec<ParsedSymbol>, parent: Option<usize>) -> (r: Vec<(usize, usize)>)
    ensures
        r@ == child_spans(symbols.deep_view(), parent),
{
    let ghost all = symbols.deep_view();
    let mut out: Vec<(usize, usize)> = Vec::new();
    let mut i: usize = 0;
    assert(out@ =~= child_spans(all.take(0), parent));
    while i < symbols.len()
        invariant
            all == symbols.deep_view(),
            i <= symbols@.len(),
            out@ == child_spans(all.take(i as int), parent),
        decreases symbols@.len() - i,
    {
        let s = &symbols[i];
        i += 1;
        proof {
            assert(all.take(i as int).drop_last() =~= all.take(i - 1));
            assert(all.take(i as int).last() == s.deep_view());
        }
        let mine = match (s.parent, parent) {
            (Some(a), Some(b)) => a == b,
            (None, None) => true,
            _ => false,
        };
        if mine {
            out.push((s.start_byte, s.end_byte));
        }
    }
    assert(all.take(i as int) =~= all);
    out
}

fn attribute(symbols: &Vec<ParsedSymbol>, r: &RawRef) -> (best: Option<usize>)
    ensures
        best == innermost(symbols.deep_view(), r.deep_view()),
{
    let ghost all = symbols.deep_view();
    let ghost rv = r.deep_view();
    let n = symbols.len();
    let mut best: Option<usize> = None;
    let mut i: usize = 0;
    while i < n
        invariant
            all == symbols.deep_view(),
            rv == r.deep_view(),
            n == symbols@.len(),
            i <= n,
            best == innermost(all.take(i as int), rv),
            best matches Some(b) ==> b < i,
        decreases n - i,
    {
        let s = &symbols[i];
        proof {
            assert(all.take(i + 1).drop_last() =~= all.take(i as int));
            assert(all.take(i + 1).last() == s.deep_view());
            if let Some(b) = best {
                assert(all.take(i + 1)[b as int] == symbols@[b as int].deep_view());
            }
        }
        if s.start_byte <= r.start_byte && r.end_byte <= s.end_byte {
            let keep = match best {
                Some(b) => symbols[b].start_byte > s.start_byte || (symbols[b].start_byte
                    == s.start_byte && symbols[b].end_byte < s.end_byte),
                None => false,
            };
            if !keep {
                best = Some(i);
            }
        }
        i += 1;
    }
    assert(all.take(i as int) =~= all);
    best
}

fn body_hash(source: &[u8], start: usize, end: usize) -> (r: String)
    ensures
        r@ == short_hash(body(source@, start as int, end as int), 16),
{
    let stop = if end < source.len() {
        end
    } else {
        source.len()
    };
    let mut buf: Vec<u8> = Vec::new();
    if start <= stop {
        copy_range(&mut buf, source, start, stop);
    }
    assert(buf@ =~= body(source@, start as int, end as int));
    content_hash(buf.as_slice())
}

/// Places the definitions, outermost first, inside one another.
fn place(defs: &Vec<RawDef>, source: &[u8]) -> (symbols: Vec<ParsedSymbol>)
    ensures
        symbols.deep_view() == placed(defs.deep_view(), source@).0,
        symbols@.len() <= defs@.len(),
{
    let ghost all = defs.deep_view();
    let mut symbols: Vec<ParsedSymbol> = Vec::new();
    let mut stack: Vec<usize> = Vec::new();
    let mut i: usize = 0;
    assert(symbols.deep_view() =~= placed(all.take(0), source@).0);
    assert(stack@ =~= placed(all.take(0), source@).1);
    while i < defs.len()
        invariant
            all == defs.deep_view(),
            i <= defs@.len(),
            symbols@.len() <= i,
            (symbols.deep_view(), stack@) == placed(all.take(i as int), source@),
            forall|k: int| 0 <= k < stack@.len() ==> (#[trigger] stack@[k]) < symbols@.len(),
        decreases defs@.len() - i,
    {
        let raw = &defs[i];
        i += 1;
        proof {
            assert(all.take(i as int).drop_last() =~= all.take(i - 1));
            assert(all.take(i as int).last() == raw.deep_view());
        }
        let ghost sv = symbols.deep_view();
        let ghost st0 = stack@;
        while stack.len() > 0 && raw.start_byte >= symbols[stack[stack.len() - 1]].end_byte
            invariant
                sv == symbols.deep_view(),
                forall|k: int| 0 <= k < stack@.len() ==> (#[trigger] stack@[k]) < symbols@.len(),
                enclosing(sv, st0, raw.start_byte) == enclosing(sv, stack@, raw.start_byte),
            decreases stack@.len(),
        {
            assert(sv[stack@.last() as int] == symbols@[stack@.last() as int].deep_view());
            let ghost before = stack@;
            stack.pop();
            assert(stack@ =~= before.drop_last());
        }
        proof {
            if stack@.len() > 0 {
                assert(sv[stack@.last() as int] == symbols@[stack@.last() as int].deep_view());
            }
            assert(enclosing(sv, st0, raw.start_byte) == stack@);
        }
        let parent = if stack.len() > 0 {
            Some(stack[stack.len() - 1])
        } else {
            None
        };
        if let Some(top) = parent {
            let t = &symbols[top];
            if same(t.name.as_str(), raw.name.as_str()) && t.start_byte <= raw.start_byte
                && raw.end_byte <= t.end_byte {
                continue ;
            }
        }
        let fqn = match parent {
            Some(p) => cat3(symbols[p].fqn.as_str(), ".", raw.name.as_str()),
            None => raw.name.clone(),
        };
        let twins = count_namesakes(&symbols, raw.kind, fqn.as_str());
        let symbol = ParsedSymbol {
            kind: raw.kind,
            name: raw.name.clone(),
            fqn,
            parent,
            start_byte: raw.start_byte,
            end_byte: raw.end_byte,
            start_line: raw.start_line,
            end_line: raw.end_line,
            body_hash: body_hash(source, raw.start_byte, raw.end_byte),
            own_hash: String::new(),
            disambiguator: #[verifier::truncate] (twins as u32),
        };
        let ghost v = symbol.deep_view();
        assert(v == symbol_for(sv, stack@, raw.deep_view(), source@));
        stack.push(symbols.len());
        symbols.push(symbol);
        assert(symbols.deep_view() =~= sv.push(v));
    }
    assert(all.take(i as int) =~= all);
    symbols
}

/// Does every parent and every enclosing symbol that is named exist, parents
/// first?
pub open spec fn links_ok(f: ParsedFileV) -> bool {
    &&& forall|i: int|
        0 <= i < f.symbols.len() ==> ((#[trigger] f.symbols[i]).parent matches Some(p) ==> p < i)
    &&& forall|i: int|
        0 <= i < f.refs.len() ==> ((#[trigger] f.refs[i]).from matches Some(k) ==> k
            < f.symbols.len())
}

/// Turn a flat capture list into a containment tree with qualified names.
pub fn build(
    lang: &'static str,
    defs: Vec<RawDef>,
    raw_refs: &Vec<RawRef>,
    source: &[u8],
) -> (r: ParsedFile)
    ensures
        r.deep_view() == built(lang@, defs.deep_view(), raw_refs.deep_view(), source@),
        links_ok(r.deep_view()),
{
    let defs = stable_sort(defs);
    let bare = place(&defs, source);
    let ghost sv = bare.deep_view();
    let mut symbols: Vec<ParsedSymbol> = Vec::new();
    let mut i: usize = 0;
    while i < bare.len()
        invariant
            sv == bare.deep_view(),
            i <= bare@.len(),
            symbols@.len() == i,
            forall|k: int|
                0 <= k < i ==> (#[trigger] symbols@[k]).deep_view() == with_own_hash(sv, k, source@),
        decreases bare@.len() - i,
    {
        let mut s = bare[i].clone();
        let spans = spans_of(&bare, Some(i));
        s.own_hash = elided_hash(source, s.start_byte, s.end_byte, &spans);
        symbols.push(s);
        i += 1;
    }
    let mut refs: Vec<ParsedRef> = Vec::new();
    let mut j: usize = 0;
    while j < raw_refs.len()
        invariant
            sv == bare.deep_view(),
            j <= raw_refs@.len(),
            refs@.len() == j,
            forall|k: int|
                0 <= k < j ==> (#[trigger] refs@[k]).deep_view() == (ParsedRefV {
                    name: raw_refs@[k].name@,
                    from: innermost(sv, raw_refs@[k].deep_view()),
                    kind: raw_refs@[k].kind,
                }),
        decreases raw_refs@.len() - j,
    {
        let r = &raw_refs[j];
        refs.push(ParsedRef { name: r.name.clone(), from: attribute(&bare, r), kind: r.kind });
        j += 1;
    }
    let top = spans_of(&bare, None);
    let r = ParsedFile {
        lang,
        symbols,
        refs,
        content_hash: content_hash(source),
        own_hash: elided_hash(source, 0, source.len(), &top),
    };
    let ghost want = built(lang@, defs.deep_view(), raw_refs.deep_view(), source@);
    proof {
        assert(r.symbols.deep_view() =~= Seq::new(
            sv.len(),
            |i: int| with_own_hash(sv, i, source@),
        ));
        assert(r.refs.deep_view() =~= raw_refs.deep_view().map_values(
            |r: RawRefV| ParsedRefV { name: r.name, from: innermost(sv, r), kind: r.kind },
        ));
        assert(defs.len() == defs@.len() && defs@.len() == defs.deep_view().len());
        assert(bare.len() == bare@.len() && bare@.len() == sv.len());
        lemma_placed(defs.deep_view(), source@);
        let f = r.deep_view();
        assert forall|i: int| 0 <= i < f.symbols.len() implies ((
        #[trigger] f.symbols[i]).parent matches Some(p) ==> p < i) by {
            assert(f.symbols[i].parent == sv[i].parent);
        }
        assert forall|i: int| 0 <= i < f.refs.len() implies ((
        #[trigger] f.refs[i]).from matches Some(k) ==> k < f.symbols.len()) by {
            lemma_innermost(sv, raw_refs.deep_view()[i]);
        }
    }
    r
}

/// What a language makes of a source.
pub open spec fn parsed(g: Grammar, source: Seq<u8>) -> Result<ParsedFileV, ParseError> {
    if !compiles(g, g.query_text()) {
        Err(ParseError::BadQuery)
    } else {
        match captures_of(g, g.query_text(), source) {
            Some(ms) => Ok(built(g.word(), defs_in(ms), refs_in(ms), source)),
            None => Err(ParseError::Unparsed),
        }
    }
}

/// The same outcome, by its contents.
pub open spec fn outcome(r: Result<ParsedFile, ParseError>) -> Result<ParsedFileV, ParseError> {
    match r {
        Ok(f) => Ok(f.deep_view()),
        Err(e) => Err(e),
    }
}

/// Parse `source` as a language.
pub fn parse_with(spec: &LangSpec, source: &[u8]) -> (r: Result<ParsedFile, ParseError>)
    requires
        spec.wf(),
        source@.len() <= u32::MAX,
    ensures
        outcome(r) == parsed(spec.grammar, source@),
        r matches Ok(f) ==> links_ok(f.deep_view()),
{
    if spec.query().is_err() {
        return Err(ParseError::BadQuery);
    }
    let text = spec.query_text();
    match captures(spec.grammar, text.as_str(), source) {
        Some(ms) => {
            let (defs, refs) = select(&ms);
            Ok(build(spec.name, defs, &refs, source))
        },
        None => Err(ParseError::Unparsed),
    }
}

/// Parse `source` using the grammar implied by `path`'s extension.
pub fn parse_path(path: &str, source: &[u8]) -> (r: Result<ParsedFile, ParseError>)
    requires
        source@.len() <= u32::MAX,
    ensures
        outcome(r) == (match lang::grammar_of_path(path@) {
            Some(g) => parsed(g, source@),
            None => Err(ParseError::NoGrammar),
        }),
        r matches Ok(f) ==> links_ok(f.deep_view()),
{
    match lang::for_path(path) {
        Some(spec) => parse_with(&spec, source),
        None => Err(ParseError::NoGrammar),
    }
}

// ----------------------------------------------------------------------- laws

/// Counting namesakes in a prefix counts no more than in the whole.
proof fn lemma_namesakes_grow(symbols: Seq<ParsedSymbolV>, kind: SymbolKind, fqn: Seq<char>, n: int)
    requires
        0 <= n <= symbols.len(),
    ensures
        namesakes(symbols.take(n), kind, fqn) <= namesakes(symbols, kind, fqn),
        namesakes(symbols, kind, fqn) <= symbols.len(),
    decreases symbols.len(),
{
    if n < symbols.len() {
        lemma_namesakes_grow(symbols.drop_last(), kind, fqn, n);
        assert(symbols.drop_last().take(n) =~= symbols.take(n));
    } else if symbols.len() > 0 {
        assert(symbols.take(n) =~= symbols);
        lemma_namesakes_grow(symbols.drop_last(), kind, fqn, n - 1);
    }
}

/// What is known of each placed symbol: it counts its namesakes before it, and
/// it lies behind its parent, begins before the parent ends and carries the
/// parent's qualified name.
pub open spec fn well_placed(symbols: Seq<ParsedSymbolV>, i: int) -> bool {
    let s = symbols[i];
    &&& s.disambiguator == namesakes(symbols.take(i), s.kind, s.fqn) as u32
    &&& match s.parent {
        Some(p) => p < i && s.start_byte < symbols[p as int].end_byte && s.fqn
            == symbols[p as int].fqn + "."@ + s.name,
        None => s.fqn == s.name,
    }
}

proof fn lemma_well_placed(defs: Seq<RawDefV>, source: Seq<u8>)
    requires
        defs.len() <= usize::MAX,
    ensures
        forall|i: int|
            0 <= i < placed(defs, source).0.len() ==> #[trigger] well_placed(
                placed(defs, source).0,
                i,
            ),
    decreases defs.len(),
{
    if defs.len() > 0 {
        lemma_well_placed(defs.drop_last(), source);
        lemma_placed(defs.drop_last(), source);
        let (symbols, stack) = placed(defs.drop_last(), source);
        let raw = defs.last();
        lemma_enclosing(symbols, stack, raw.start_byte);
        let open = enclosing(symbols, stack, raw.start_byte);
        if !doubled(symbols, open, raw) {
            let s = symbol_for(symbols, open, raw, source);
            let all = symbols.push(s);
            assert forall|i: int| 0 <= i < all.len() implies #[trigger] well_placed(all, i) by {
                assert(all.take(i) =~= symbols.take(i));
                if i < symbols.len() {
                    assert(well_placed(symbols, i));
                } else {
                    assert(symbols.take(i) =~= symbols);
                    if open.len() > 0 {
                        assert(open.last() == stack[open.len() - 1]);
                    }
                }
            }
        }
    }
}

pub(crate) proof fn lemma_outermost_len(defs: Seq<RawDefV>)
    ensures
        outermost_first(defs).len() == defs.len(),
{
    crate::order::law_sorted_keeps(defs, rank::<RawDef>());
}

/// Symbols of one file differ in kind, qualified name or disambiguator, so that
/// no two of them get the same identity.
pub proof fn law_identities_differ(
    lang: Seq<char>,
    defs: Seq<RawDefV>,
    refs: Seq<RawRefV>,
    source: Seq<u8>,
    i: int,
    j: int,
)
    requires
        defs.len() <= u32::MAX,
        0 <= i < j < built(lang, defs, refs, source).symbols.len(),
    ensures
        ({
            let a = built(lang, defs, refs, source).symbols[i];
            let b = built(lang, defs, refs, source).symbols[j];
            a.kind != b.kind || a.fqn != b.fqn || a.disambiguator != b.disambiguator
        }),
{
    lemma_outermost_len(defs);
    let ordered = outermost_first(defs);
    lemma_placed(ordered, source);
    lemma_well_placed(ordered, source);
    let symbols = placed(ordered, source).0;
    assert(well_placed(symbols, i));
    assert(well_placed(symbols, j));
    let a = symbols[i];
    let b = symbols[j];
    if a.kind == b.kind && a.fqn == b.fqn {
        lemma_namesakes_grow(symbols.take(j), b.kind, b.fqn, i + 1);
        lemma_namesakes_grow(symbols.take(i), a.kind, a.fqn, i);
        assert(symbols.take(j).take(i + 1) =~= symbols.take(i + 1));
        assert(symbols.take(i + 1).drop_last() =~= symbols.take(i));
        assert(symbols.take(i + 1).last() == a);
    }
}

/// A nested symbol stands behind its parent, begins before the parent ends, and
/// its qualified name is the parent's with its own name added; a top-level
/// symbol goes by its name alone.
pub proof fn law_names_follow_containment(
    lang: Seq<char>,
    defs: Seq<RawDefV>,
    refs: Seq<RawRefV>,
    source: Seq<u8>,
    i: int,
)
    requires
        defs.len() <= usize::MAX,
        0 <= i < built(lang, defs, refs, source).symbols.len(),
    ensures
        ({
            let symbols = built(lang, defs, refs, source).symbols;
            match symbols[i].parent {
                Some(p) => p < i && symbols[i].start_byte < symbols[p as int].end_byte
                    && symbols[i].fqn == symbols[p as int].fqn + "."@ + symbols[i].name,
                None => symbols[i].fqn == symbols[i].name,
            }
        }),
{
    lemma_outermost_len(defs);
    lemma_placed(outermost_first(defs), source);
    lemma_well_placed(outermost_first(defs), source);
    assert(well_placed(placed(outermost_first(defs), source).0, i));
}

/// A reference belongs to the innermost symbol that contains it: no other symbol that
/// does starts later, none that starts there ends earlier, and none with the same
/// span was placed further in. It belongs to none only where none contains it.
pub proof fn law_reference_innermost(
    lang: Seq<char>,
    defs: Seq<RawDefV>,
    refs: Seq<RawRefV>,
    source: Seq<u8>,
    k: int,
    i: int,
)
    requires
        defs.len() <= usize::MAX,
        0 <= k < refs.len(),
        0 <= i < built(lang, defs, refs, source).symbols.len(),
    ensures
        ({
            let f = built(lang, defs, refs, source);
            match f.refs[k].from {
                Some(b) => b < f.symbols.len() && holds(f.symbols[b as int], refs[k]) && (holds(
                    f.symbols[i],
                    refs[k],
                ) ==> {
                    &&& f.symbols[i].start_byte <= f.symbols[b as int].start_byte
                    &&& f.symbols[i].start_byte == f.symbols[b as int].start_byte
                        ==> f.symbols[b as int].end_byte <= f.symbols[i].end_byte
                    &&& inside(f.symbols[i], f.symbols[b as int]) ==> i <= b
                }),
                None => !holds(f.symbols[i], refs[k]),
            }
        }),
{
    lemma_outermost_len(defs);
    lemma_placed(outermost_first(defs), source);
    let symbols = placed(outermost_first(defs), source).0;
    lemma_innermost(symbols, refs[k]);
    let f = built(lang, defs, refs, source);
    assert(holds(f.symbols[i], refs[k]) == holds(symbols[i], refs[k]));
    if let Some(b) = f.refs[k].from {
        assert(f.symbols[b as int].start_byte == symbols[b as int].start_byte);
    }
}

/// Do the two sources agree in `start..stop` outside the spans?
pub open spec fn agree_outside(
    a: Seq<u8>,
    b: Seq<u8>,
    spans: Seq<(usize, usize)>,
    start: int,
    stop: int,
) -> bool {
    forall|k: int|
        start <= k < stop && (forall|i: int|
            0 <= i < spans.len() ==> !((#[trigger] spans[i]).0 <= k < spans[i].1)) ==> #[trigger] a[k]
            == b[k]
}

/// Are the spans in order and apart?
pub open spec fn apart(spans: Seq<(usize, usize)>) -> bool {
    forall|i: int, j: int| 0 <= i < j < spans.len() ==> (#[trigger] spans[i]).1 <= (#[trigger] spans[j]).0
}

proof fn lemma_blanked_agree(
    a: Seq<u8>,
    b: Seq<u8>,
    all: Seq<(usize, usize)>,
    n: int,
    start: int,
    stop: int,
)
    requires
        0 <= n <= all.len(),
        0 <= start <= stop <= a.len(),
        a.len() == b.len(),
        apart(all),
        forall|i: int| 0 <= i < all.len() ==> fits(#[trigger] all[i], start, stop),
        agree_outside(a, b, all, start, stop),
    ensures
        blanked(a, all.take(n), start) == blanked(b, all.take(n), start),
        start <= blanked(a, all.take(n), start).1 <= stop,
        n == 0 ==> blanked(a, all.take(n), start).1 == start,
        n > 0 ==> blanked(a, all.take(n), start).1 == all[n - 1].1,
    decreases n,
{
    if n > 0 {
        lemma_blanked_agree(a, b, all, n - 1, start, stop);
        assert(all.take(n).drop_last() =~= all.take(n - 1));
        let cursor = blanked(a, all.take(n - 1), start).1;
        let (s, e) = all[n - 1];
        assert(fits(all[n - 1], start, stop));
        assert(cursor <= s);
        assert(a.subrange(cursor, s as int) =~= b.subrange(cursor, s as int)) by {
            assert forall|k: int| cursor <= k < s implies a[k] == b[k] by {
                assert forall|i: int| 0 <= i < all.len() implies !((#[trigger] all[i]).0 <= k
                    < all[i].1) by {
                    if i < n - 1 {
                        if n - 1 > i + 1 {
                            assert(all[i].1 <= all[n - 2].0);
                            assert(fits(all[n - 2], start, stop));
                        }
                        assert(all[i].1 <= cursor);
                    } else if i > n - 1 {
                        assert(all[n - 1].1 <= all[i].0);
                    }
                }
            }
        }
    }
}

/// The blanked text of a symbol does not depend on what its nested symbols hold:
/// sources that agree outside the nested spans have the same blanked text, and
/// so the same own hash.
pub proof fn law_own_text_ignores_nested(
    a: Seq<u8>,
    b: Seq<u8>,
    start: int,
    end: int,
    spans: Seq<(usize, usize)>,
)
    requires
        a.len() == b.len(),
        0 <= start,
        apart(spans_within(spans, start, if end < a.len() { end } else { a.len() as int })),
        agree_outside(
            a,
            b,
            spans_within(spans, start, if end < a.len() { end } else { a.len() as int }),
            start,
            if end < a.len() { end } else { a.len() as int },
        ),
    ensures
        elided(a, start, end, spans) == elided(b, start, end, spans),
{
    let stop = if end < a.len() {
        end
    } else {
        a.len() as int
    };
    if start < stop {
        let kept = spans.filter(|p: (usize, usize)| fits(p, start, stop));
        let all = spans_within(spans, start, stop);
        assert forall|k: int| 0 <= k < all.len() implies fits(#[trigger] all[k], start, stop) by {
            crate::order::law_sorted_keeps(kept, rank::<(usize, usize)>());
            all.to_multiset_ensures();
            kept.to_multiset_ensures();
            assert(all.to_multiset().count(all[k]) > 0);
            assert(kept.contains(all[k]));
            let j = choose|j: int| 0 <= j < kept.len() && kept[j] == all[k];
            spans.lemma_filter_pred(|p: (usize, usize)| fits(p, start, stop), j);
        }
        lemma_blanked_agree(a, b, all, all.len() as int, start, stop);
        assert(all.take(all.len() as int) =~= all);
        let cursor = blanked(a, all, start).1;
        assert(a.subrange(cursor, stop) =~= b.subrange(cursor, stop)) by {
            assert forall|k: int| cursor <= k < stop implies a[k] == b[k] by {
                assert forall|i: int| 0 <= i < all.len() implies !((#[trigger] all[i]).0 <= k
                    < all[i].1) by {
                    if i < all.len() - 1 {
                        assert(all[i].1 <= all[all.len() - 1].0);
                        assert(fits(all[all.len() - 1], start, stop));
                    }
                }
            }
        }
    }
}

/// The blanked text of a symbol does not depend on the order in which its spans are
/// given.
pub proof fn law_span_order_does_not_matter(
    source: Seq<u8>,
    start: int,
    end: int,
    a: Seq<(usize, usize)>,
    b: Seq<(usize, usize)>,
)
    requires
        a.to_multiset() == b.to_multiset(),
    ensures
        elided(source, start, end, a) == elided(source, start, end, b),
{
    let stop = if end < source.len() {
        end
    } else {
        source.len() as int
    };
    let p = |q: (usize, usize)| fits(q, start, stop);
    assert forall|x: (usize, usize)| #[trigger]
        a.filter(p).to_multiset().count(x) == b.filter(p).to_multiset().count(x) by {
        law_filter_counts(a, p, x);
        law_filter_counts(b, p, x);
    }
    assert(a.filter(p).to_multiset() =~= b.filter(p).to_multiset());
    law_sorting_forgets_order(a.filter(p), b.filter(p), rank::<(usize, usize)>());
}

} // verus!
