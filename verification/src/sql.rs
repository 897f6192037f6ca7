//! Database nodes.
//!
//! Tables come from DDL in `.sql` files. References come from SQL embedded in
//! application code. This is a scanner, not a SQL parser: it recognises the
//! handful of shapes that name a table and ignores everything else.

use vstd::prelude::*;
use vstd::string::*;
use vstd::utf8::{encode_utf8, valid_utf8};

use crate::order::{dedup_texts, deduped, sort_texts, sorted_texts};
use crate::text::{
    self, after_last, ascii_lower, last_piece, same, to_ascii_lowercase, trimmed, trimmed_of,
    words,
};

verus! {

broadcast use vstd::string::group_string_axioms;

/// One match of a pattern with two groups.
#[derive(Debug)]
pub struct Found {
    /// Where the match begins, in bytes.
    pub start: usize,
    /// Where the match ends, in bytes.
    pub end: usize,
    /// The text of the first group.
    pub first: Option<String>,
    /// The text of the second group.
    pub second: Option<String>,
}

/// The contents of a [`Found`].
pub struct FoundV {
    pub start: usize,
    pub end: usize,
    pub first: Option<Seq<char>>,
    pub second: Option<Seq<char>>,
}

impl DeepView for Found {
    type V = FoundV;

    open spec fn deep_view(&self) -> FoundV {
        FoundV {
            start: self.start,
            end: self.end,
            first: self.first.deep_view(),
            second: self.second.deep_view(),
        }
    }
}

impl Clone for Found {
    fn clone(&self) -> (r: Self)
        ensures
            r.deep_view() == self.deep_view(),
    {
        let r = Found {
            start: self.start,
            end: self.end,
            first: self.first.clone(),
            second: self.second.clone(),
        };
        r
    }
}

/// A table declared by DDL.
#[derive(Debug)]
pub struct TableDef {
    pub name: String,
    pub start_byte: usize,
    pub end_byte: usize,
    pub line: usize,
    /// `CREATE TABLE` or `ALTER TABLE`: whether the table is made here or only
    /// touched. Dropping it touches it.
    pub statement: String,
}

/// The contents of a [`TableDef`].
pub struct TableDefV {
    pub name: Seq<char>,
    pub start_byte: usize,
    pub end_byte: usize,
    pub line: usize,
    pub statement: Seq<char>,
}

impl DeepView for TableDef {
    type V = TableDefV;

    open spec fn deep_view(&self) -> TableDefV {
        TableDefV {
            name: self.name@,
            start_byte: self.start_byte,
            end_byte: self.end_byte,
            line: self.line,
            statement: self.statement@,
        }
    }
}

impl Clone for TableDef {
    fn clone(&self) -> (r: Self)
        ensures
            r.deep_view() == self.deep_view(),
    {
        let r = TableDef {
            name: self.name.clone(),
            start_byte: self.start_byte,
            end_byte: self.end_byte,
            line: self.line,
            statement: self.statement.clone(),
        };
        r
    }
}

/// A statement that declares, alters or drops a table, and the table's name.
pub const DDL: &'static str =
    r#"(?is)\b(create\s+table(?:\s+if\s+not\s+exists)?|alter\s+table|drop\s+table(?:\s+if\s+exists)?)\s+((?:["`\[]?[A-Za-z_]\w*["`\]]?\s*\.\s*)*["`\[]?[A-Za-z_]\w*["`\]]?)"#;

/// A word that a table's name follows, and the name.
pub const REFS: &'static str =
    r#"(?is)\b(from|join|into|update|delete\s+from|table)\s+((?:["`\[]?[A-Za-z_]\w*["`\]]?\s*\.\s*)*["`\[]?[A-Za-z_]\w*["`\]]?)"#;

/// Every match of a pattern in a text, in order; nothing for a pattern that does
/// not compile.
pub uninterp spec fn regex_matches(pattern: Seq<char>, haystack: Seq<char>) -> Option<Seq<FoundV>>;

/// `regex::Regex::new` and `Regex::captures_iter`: all matches with their first
/// two groups, named `regex_matches`. Positions are byte offsets into the text.
#[verifier::external_body]
fn find_all(pattern: &str, haystack: &str) -> (r: Option<Vec<Found>>)
    ensures
        r.deep_view() == regex_matches(pattern@, haystack@),
        r matches Some(v) ==> forall|i: int|
            0 <= i < v@.len() ==> (#[trigger] v@[i]).start <= v@[i].end <= encode_utf8(
                haystack@,
            ).len(),
{
    let re = regex::Regex::new(pattern).ok()?;
    Some(re.captures_iter(haystack).map(|c| Found {
        start: c.get(0).map_or(0, |m| m.start()),
        end: c.get(0).map_or(0, |m| m.end()),
        first: c.get(1).map(|m| m.as_str().to_string()),
        second: c.get(2).map(|m| m.as_str().to_string()),
    }).collect())
}

/// `str::from_utf8` of the standard library: the text that the bytes encode, if
/// they are UTF-8.
#[verifier::external_body]
pub(crate) fn decode(source: &[u8]) -> (r: Option<String>)
    ensures
        match r {
            Some(s) => valid_utf8(source@) && encode_utf8(s@) == source@,
            None => !valid_utf8(source@),
        },
{
    std::str::from_utf8(source).ok().map(|s| s.to_string())
}

/// A table name without quoting and schema, in small letters.
pub open spec fn table_name(raw: Seq<char>) -> Seq<char> {
    ascii_lower(trimmed_of(trimmed(after_last(raw, '.')), "\"`[]"@))
}

/// Strip quoting and any schema qualifier, then case-fold.
pub fn normalize(raw: &str) -> (r: String)
    ensures
        r@ == table_name(raw@),
{
    let last = last_piece(raw, '.');
    let a = text::trim(last.as_str());
    let b = text::trim_of(a.as_str(), "\"`[]");
    to_ascii_lowercase(b.as_str())
}

/// Is the first word `create`, in capitals or not?
pub open spec fn makes(raw: Seq<char>) -> bool {
    words(raw).len() > 0 && ascii_lower(words(raw)[0]) == "create"@
}

/// The statement that a match begins with. One that does not make its table, be it
/// altered or dropped, touches it.
pub open spec fn statement_of(raw: Seq<char>) -> Seq<char> {
    if makes(raw) {
        "CREATE TABLE"@
    } else {
        "ALTER TABLE"@
    }
}

fn is_making(raw: &str) -> (r: bool)
    ensures
        r == makes(raw@),
{
    let ws = text::words_of(raw);
    assert(ws.len() == ws.deep_view().len());
    ws.len() > 0 && same(to_ascii_lowercase(ws[0].as_str()).as_str(), "create")
}

/// How many of the bytes are line feeds.
pub open spec fn line_feeds(b: Seq<u8>) -> nat
    decreases b.len(),
{
    if b.len() == 0 {
        0
    } else {
        line_feeds(b.drop_last()) + if b.last() == 10u8 {
            1nat
        } else {
            0nat
        }
    }
}

/// Is the statement one that creates?
pub open spec fn creates(statement: Seq<char>) -> bool {
    statement == "CREATE TABLE"@
}

/// The table that a match declares, if it names one.
pub open spec fn table_in(f: FoundV, source: Seq<u8>) -> Option<TableDefV> {
    match (f.first, f.second) {
        (Some(a), Some(b)) => if table_name(b).len() > 0 {
            Some(
                TableDefV {
                    name: table_name(b),
                    start_byte: f.start,
                    end_byte: f.end,
                    line: line_feeds(source.take(f.start as int)) as usize,
                    statement: statement_of(a),
                },
            )
        } else {
            None
        },
        _ => None,
    }
}

/// Where the table called `name` stands in `out`.
pub open spec fn place_of(out: Seq<TableDefV>, name: Seq<char>) -> Option<int>
    decreases out.len(),
{
    if out.len() == 0 {
        None
    } else {
        match place_of(out.drop_last(), name) {
            Some(i) => Some(i),
            None => if out.last().name == name {
                Some(out.len() - 1)
            } else {
                None
            },
        }
    }
}

/// `out` once `t` was seen: a new table is added; of a known one the definition
/// wins over mere alterations.
pub open spec fn noted(out: Seq<TableDefV>, t: TableDefV) -> Seq<TableDefV> {
    match place_of(out, t.name) {
        Some(i) => if creates(t.statement) && !creates(out[i].statement) {
            out.update(i, t)
        } else {
            out
        },
        None => out.push(t),
    }
}

/// The tables that some matches declare, in the order of their first mention.
pub open spec fn tables_in(ms: Seq<FoundV>, source: Seq<u8>) -> Seq<TableDefV>
    decreases ms.len(),
{
    if ms.len() == 0 {
        Seq::empty()
    } else {
        let out = tables_in(ms.drop_last(), source);
        match table_in(ms.last(), source) {
            Some(t) => noted(out, t),
            None => out,
        }
    }
}

proof fn lemma_place(out: Seq<TableDefV>, name: Seq<char>)
    ensures
        match place_of(out, name) {
            Some(i) => 0 <= i < out.len() && out[i].name == name,
            None => forall|i: int| 0 <= i < out.len() ==> (#[trigger] out[i]).name != name,
        },
    decreases out.len(),
{
    if out.len() > 0 {
        lemma_place(out.drop_last(), name);
        assert forall|i: int| 0 <= i < out.len() && place_of(out, name) is None implies (
        #[trigger] out[i]).name != name by {
            if i < out.len() - 1 {
                assert(out.drop_last()[i] == out[i]);
            }
        }
    }
}

fn find_table(out: &Vec<TableDef>, name: &str) -> (r: Option<usize>)
    ensures
        match r {
            Some(i) => i < out@.len() && place_of(out.deep_view(), name@) == Some(i as int),
            None => place_of(out.deep_view(), name@) is None,
        },
{
    let ghost all = out.deep_view();
    let mut hit: Option<usize> = None;
    let mut i: usize = 0;
    while i < out.len()
        invariant
            all == out.deep_view(),
            i <= out@.len(),
            match hit {
                Some(k) => k < i && place_of(all.take(i as int), name@) == Some(k as int),
                None => place_of(all.take(i as int), name@) is None,
            },
        decreases out@.len() - i,
    {
        assert(all.take(i + 1).drop_last() =~= all.take(i as int));
        assert(all.take(i + 1).last() == out@[i as int].deep_view());
        if hit.is_none() && same(out[i].name.as_str(), name) {
            hit = Some(i);
        }
        i += 1;
    }
    assert(all.take(i as int) =~= all);
    hit
}

fn count_line_feeds(source: &[u8], end: usize) -> (r: usize)
    requires
        end <= source@.len(),
    ensures
        r == line_feeds(source@.take(end as int)),
{
    let mut n: usize = 0;
    let mut i: usize = 0;
    while i < end
        invariant
            i <= end <= source@.len(),
            n <= i,
            n == line_feeds(source@.take(i as int)),
        decreases end - i,
    {
        assert(source@.take(i + 1).drop_last() =~= source@.take(i as int));
        if source[i] == 10u8 {
            n += 1;
        }
        i += 1;
    }
    n
}

/// Makes the list of tables from the matches of the DDL pattern.
pub fn list_tables(ms: &Vec<Found>, source: &[u8]) -> (r: Vec<TableDef>)
    requires
        forall|i: int| 0 <= i < ms@.len() ==> (#[trigger] ms@[i]).start <= source@.len(),
    ensures
        r.deep_view() == tables_in(ms.deep_view(), source@),
{
    let ghost all = ms.deep_view();
    let mut out: Vec<TableDef> = Vec::new();
    let mut i: usize = 0;
    assert(out.deep_view() =~= tables_in(all.take(0), source@));
    while i < ms.len()
        invariant
            all == ms.deep_view(),
            i <= ms@.len(),
            forall|k: int| 0 <= k < ms@.len() ==> (#[trigger] ms@[k]).start <= source@.len(),
            out.deep_view() == tables_in(all.take(i as int), source@),
        decreases ms@.len() - i,
    {
        let ghost o0 = out.deep_view();
        let m = &ms[i];
        i += 1;
        proof {
            assert(all.take(i as int).drop_last() =~= all.take(i - 1));
            assert(all.take(i as int).last() == m.deep_view());
        }
        let (a, b) = match (&m.first, &m.second) {
            (Some(a), Some(b)) => (a, b),
            _ => continue ,
        };
        let name = normalize(b.as_str());
        if name.as_str().is_empty() {
            continue ;
        }
        let statement: String = if is_making(a.as_str()) {
            "CREATE TABLE".to_owned()
        } else {
            "ALTER TABLE".to_owned()
        };
        let made = same(statement.as_str(), "CREATE TABLE");
        let line = count_line_feeds(source, m.start);
        let place = find_table(&out, name.as_str());
        let t = TableDef { name, start_byte: m.start, end_byte: m.end, line, statement };
        let ghost tv = t.deep_view();
        match place {
            Some(k) => {
                if made && !same(out[k].statement.as_str(), "CREATE TABLE") {
                    out.set(k, t);
                    assert(out.deep_view() =~= o0.update(k as int, tv));
                }
            },
            None => {
                out.push(t);
                assert(out.deep_view() =~= o0.push(tv));
            },
        }
    }
    assert(all.take(i as int) =~= all);
    out
}

/// The tables that a source declares.
pub open spec fn declared(source: Seq<u8>) -> Seq<TableDefV> {
    if valid_utf8(source) {
        match regex_matches(DDL@, vstd::utf8::decode_utf8(source)) {
            Some(ms) => tables_in(ms, source),
            None => Seq::empty(),
        }
    } else {
        Seq::empty()
    }
}

/// Extract table definitions from a `.sql` file.
///
/// A table is defined once but altered many times; the definition wins, and
/// migrations that only alter still register the table they touch.
pub fn tables(source: &[u8]) -> (r: Vec<TableDef>)
    ensures
        r.deep_view() == declared(source@),
{
    let none: Vec<TableDef> = Vec::new();
    assert(none.deep_view() =~= Seq::empty());
    match decode(source) {
        Some(t) => {
            proof {
                vstd::utf8::encode_utf8_decode_utf8(t@);
            }
            match find_all(DDL, t.as_str()) {
                Some(ms) => list_tables(&ms, source),
                None => none,
            }
        },
        None => none,
    }
}

/// The known tables that some matches name, as often as they do.
pub open spec fn hits_in(ms: Seq<FoundV>, known: Seq<Seq<char>>) -> Seq<Seq<char>>
    decreases ms.len(),
{
    if ms.len() == 0 {
        Seq::empty()
    } else {
        let out = hits_in(ms.drop_last(), known);
        match ms.last().second {
            Some(b) => if known.contains(table_name(b)) {
                out.push(table_name(b))
            } else {
                out
            },
            None => out,
        }
    }
}

/// The known tables that a source touches, each once, in text order.
pub open spec fn touched(source: Seq<char>, known: Seq<Seq<char>>) -> Seq<Seq<char>> {
    if known.len() == 0 {
        Seq::empty()
    } else {
        match regex_matches(REFS@, source) {
            Some(ms) => deduped(sorted_texts(hits_in(ms, known))),
            None => Seq::empty(),
        }
    }
}

/// Is `name` one of the strings?
pub(crate) fn holds_text(v: &Vec<String>, name: &str) -> (r: bool)
    ensures
        r == v.deep_view().contains(name@),
{
    let mut i: usize = 0;
    while i < v.len()
        invariant
            i <= v@.len(),
            forall|k: int| 0 <= k < i ==> v.deep_view()[k] != name@,
        decreases v@.len() - i,
    {
        if same(v[i].as_str(), name) {
            assert(v.deep_view()[i as int] == name@);
            return true;
        }
        i += 1;
    }
    false
}

/// Makes the list of touched tables from the matches of the reference pattern.
pub fn list_references(ms: &Vec<Found>, known: &Vec<String>) -> (r: Vec<String>)
    ensures
        r.deep_view() == deduped(sorted_texts(hits_in(ms.deep_view(), known.deep_view()))),
{
    let ghost all = ms.deep_view();
    let mut out: Vec<String> = Vec::new();
    let mut i: usize = 0;
    assert(out.deep_view() =~= hits_in(all.take(0), known.deep_view()));
    while i < ms.len()
        invariant
            all == ms.deep_view(),
            i <= ms@.len(),
            out.deep_view() == hits_in(all.take(i as int), known.deep_view()),
        decreases ms@.len() - i,
    {
        let ghost o0 = out.deep_view();
        let m = &ms[i];
        i += 1;
        proof {
            assert(all.take(i as int).drop_last() =~= all.take(i - 1));
            assert(all.take(i as int).last() == m.deep_view());
        }
        if let Some(b) = &m.second {
            let name = normalize(b.as_str());
            if holds_text(known, name.as_str()) {
                let ghost nv = name@;
                out.push(name);
                assert(out.deep_view() =~= o0.push(nv));
            }
        }
    }
    assert(all.take(i as int) =~= all);
    dedup_texts(&sort_texts(out))
}

/// Which of the `known` tables a chunk of code touches.
///
/// Matching against known table names is what keeps `from collections import x`
/// out of the database graph.
pub fn referenced(source: &str, known: &Vec<String>) -> (r: Vec<String>)
    ensures
        r.deep_view() == touched(source@, known.deep_view()),
{
    let none: Vec<String> = Vec::new();
    assert(none.deep_view() =~= Seq::empty());
    if known.len() == 0 {
        return none;
    }
    match find_all(REFS, source) {
        Some(ms) => list_references(&ms, known),
        None => none,
    }
}

/// Is this a file the SQL scanner should read?
pub fn is_sql_path(path: &str) -> (r: bool)
    ensures
        r == ".sql"@.is_suffix_of(ascii_lower(path@)),
{
    text::ends_with(to_ascii_lowercase(path).as_str(), ".sql")
}

// ----------------------------------------------------------------------- laws

/// No table is listed twice.
pub proof fn law_tables_once(ms: Seq<FoundV>, source: Seq<u8>, i: int, j: int)
    requires
        0 <= i < j < tables_in(ms, source).len(),
    ensures
        tables_in(ms, source)[i].name != tables_in(ms, source)[j].name,
    decreases ms.len(),
{
    if ms.len() > 0 {
        let out = tables_in(ms.drop_last(), source);
        if let Some(t) = table_in(ms.last(), source) {
            lemma_place(out, t.name);
            if j < out.len() {
                law_tables_once(ms.drop_last(), source, i, j);
            }
        } else {
            law_tables_once(ms.drop_last(), source, i, j);
        }
    }
}

/// A listed table was created or altered; nothing else is said of it.
pub proof fn law_created_or_altered(ms: Seq<FoundV>, source: Seq<u8>, i: int)
    requires
        0 <= i < tables_in(ms, source).len(),
    ensures
        tables_in(ms, source)[i].statement == "CREATE TABLE"@ || tables_in(ms, source)[i].statement
            == "ALTER TABLE"@,
    decreases ms.len(),
{
    let before = tables_in(ms.drop_last(), source);
    if let Some(t) = table_in(ms.last(), source) {
        lemma_place(before, t.name);
    }
    if i < before.len() {
        law_created_or_altered(ms.drop_last(), source, i);
    }
}

/// Every table that a match names is listed; and where one of the statements
/// that name it creates it, the listed statement creates it: the definition
/// wins over alterations, whichever comes first.
pub proof fn law_definition_wins(ms: Seq<FoundV>, source: Seq<u8>, k: int)
    requires
        0 <= k < ms.len(),
        table_in(ms[k], source) is Some,
    ensures
        ({
            let t = table_in(ms[k], source)->0;
            let out = tables_in(ms, source);
            match place_of(out, t.name) {
                Some(i) => 0 <= i < out.len() && out[i].name == t.name && (creates(t.statement)
                    ==> creates(out[i].statement)),
                None => false,
            }
        }),
    decreases ms.len(),
{
    let t = table_in(ms[k], source)->0;
    let before = tables_in(ms.drop_last(), source);
    let out = tables_in(ms, source);
    lemma_place(out, t.name);
    lemma_place(before, t.name);
    if k < ms.len() - 1 {
        assert(ms.drop_last()[k] == ms[k]);
        law_definition_wins(ms.drop_last(), source, k);
        if let Some(u) = table_in(ms.last(), source) {
            lemma_place(before, u.name);
            let i = place_of(before, t.name)->0;
            assert(out[i].name == t.name);
            let j = place_of(out, t.name);
            assert(j is Some);
            if j->0 != i {
                if j->0 < i {
                    law_tables_once(ms, source, j->0, i);
                } else {
                    law_tables_once(ms, source, i, j->0);
                }
            }
        }
    } else {
        match place_of(before, t.name) {
            Some(i) => {
                assert(out[i].name == t.name);
                let j = place_of(out, t.name);
                if j is Some && j->0 != i {
                    if j->0 < i {
                        law_tables_once(ms, source, j->0, i);
                    } else {
                        law_tables_once(ms, source, i, j->0);
                    }
                }
            },
            None => {
                let n = before.len() as int;
                assert(out[n] == t);
                let j = place_of(out, t.name);
                if j is Some && j->0 != n {
                    law_tables_once(ms, source, j->0, n);
                }
            },
        }
    }
}

} // verus!
