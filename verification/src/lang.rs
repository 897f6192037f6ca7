//! Language registry.
//!
//! Every grammar ships a tags query that finds definitions and references in
//! idiomatic code. Where it misses something (arrow-function constants in
//! TypeScript, calls in C++), supplemental patterns with the same capture names
//! are added.

use vstd::prelude::*;
use vstd::string::*;

use crate::order::{sort_texts, sorted_texts};
use crate::text::{
    after_last, ascii_lower, cat3, last_piece, same, to_ascii_lowercase,
};

verus! {

broadcast use vstd::string::group_string_axioms;

/// `tree_sitter::Language`: one compiled grammar.
#[verifier::external_type_specification]
#[verifier::external_body]
pub struct ExLanguage(tree_sitter::Language);

/// `tree_sitter::Query`: a compiled query.
#[verifier::external_type_specification]
#[verifier::external_body]
pub struct ExQuery(tree_sitter::Query);

/// `tree_sitter::QueryError`: why a query does not compile.
#[verifier::external_type_specification]
#[verifier::external_body]
pub struct ExQueryError(tree_sitter::QueryError);

/// Patterns added to the TypeScript tags: arrow functions and calls.
pub const TS_EXTRA: &'static str = r#"
(variable_declarator
  name: (identifier) @name
  value: [(arrow_function) (function_expression)]) @definition.function
(public_field_definition
  name: (property_identifier) @name
  value: [(arrow_function) (function_expression)]) @definition.method
(call_expression function: (identifier) @name) @reference.call
(call_expression function: (member_expression property: (property_identifier) @name)) @reference.call
"#;

/// Patterns added to the JavaScript tags: arrow functions.
pub const JS_EXTRA: &'static str = r#"
(variable_declarator
  name: (identifier) @name
  value: [(arrow_function) (function_expression)]) @definition.function
"#;

/// Patterns added to the C++ tags: calls.
pub const CPP_EXTRA: &'static str = r#"
(call_expression function: (identifier) @name) @reference.call
(call_expression function: (field_expression field: (field_identifier) @name)) @reference.call
"#;

/// Patterns added to the Go tags: constants.
pub const GO_EXTRA: &'static str = r#"
(const_spec name: (identifier) @name) @definition.constant
"#;

/// Patterns added to the Rust tags: constants and impl blocks.
pub const RUST_EXTRA: &'static str = r#"
(const_item name: (identifier) @name) @definition.constant
(static_item name: (identifier) @name) @definition.constant
(impl_item type: (type_identifier) @name) @definition.class
(impl_item type: (generic_type type: (type_identifier) @name)) @definition.class
"#;

/// Import specifiers of TypeScript and JavaScript.
pub const TS_IMPORTS: &'static str = r#"
(import_statement source: (string) @module)
(export_statement source: (string) @module)
(call_expression function: (identifier) @callee arguments: (arguments (string) @module))
"#;

/// Import specifiers of Python.
pub const PY_IMPORTS: &'static str = r#"
(import_statement name: (dotted_name) @module)
(import_statement name: (aliased_import name: (dotted_name) @module))
(import_from_statement module_name: (dotted_name) @module)
(import_from_statement module_name: (relative_import) @module)
"#;

/// Import specifiers of Rust.
pub const RUST_IMPORTS: &'static str = r#"
(use_declaration argument: (_) @module)
(mod_item name: (identifier) @module)
"#;

/// Import specifiers of Go.
pub const GO_IMPORTS: &'static str = r#"
(import_spec path: (interpreted_string_literal) @module)
"#;

/// Import specifiers of Java.
pub const JAVA_IMPORTS: &'static str = r#"
(import_declaration (scoped_identifier) @module)
"#;

/// Import specifiers of C#.
pub const CSHARP_IMPORTS: &'static str = r#"
(using_directive (qualified_name) @module)
(using_directive (identifier) @module)
"#;

/// Include paths of C and C++.
pub const CPP_IMPORTS: &'static str = r#"
(preproc_include path: (string_literal) @module)
(preproc_include path: (system_lib_string) @module)
"#;

/// A grammar the library knows.
#[derive(Debug, Clone, Copy, PartialEq, Eq, Structural)]
pub enum Grammar {
    Rust,
    TypeScript,
    Tsx,
    JavaScript,
    Python,
    Go,
    Java,
    CSharp,
    Cpp,
}

impl Grammar {
    /// Its name.
    pub open spec fn word(self) -> Seq<char> {
        match self {
            Grammar::Rust => "rust"@,
            Grammar::TypeScript => "typescript"@,
            Grammar::Tsx => "tsx"@,
            Grammar::JavaScript => "javascript"@,
            Grammar::Python => "python"@,
            Grammar::Go => "go"@,
            Grammar::Java => "java"@,
            Grammar::CSharp => "csharp"@,
            Grammar::Cpp => "cpp"@,
        }
    }

    /// The file extensions that it stands for.
    pub open spec fn exts(self) -> Seq<Seq<char>> {
        match self {
            Grammar::Rust => seq!["rs"@],
            Grammar::TypeScript => seq!["ts"@, "mts"@, "cts"@],
            Grammar::Tsx => seq!["tsx"@],
            Grammar::JavaScript => seq!["js"@, "jsx"@, "mjs"@, "cjs"@],
            Grammar::Python => seq!["py"@, "pyi"@],
            Grammar::Go => seq!["go"@],
            Grammar::Java => seq!["java"@],
            Grammar::CSharp => seq!["cs"@],
            Grammar::Cpp => seq!["cpp"@, "cc"@, "cxx"@, "hpp"@, "hh"@, "hxx"@, "h"@],
        }
    }

    /// The patterns added to its tags.
    pub open spec fn extra(self) -> Seq<char> {
        match self {
            Grammar::Rust => RUST_EXTRA@,
            Grammar::TypeScript => TS_EXTRA@,
            Grammar::Tsx => TS_EXTRA@,
            Grammar::JavaScript => JS_EXTRA@,
            Grammar::Python => ""@,
            Grammar::Go => GO_EXTRA@,
            Grammar::Java => ""@,
            Grammar::CSharp => ""@,
            Grammar::Cpp => CPP_EXTRA@,
        }
    }

    /// The query that finds its import specifiers.
    pub open spec fn imports(self) -> Seq<char> {
        match self {
            Grammar::Rust => RUST_IMPORTS@,
            Grammar::TypeScript => TS_IMPORTS@,
            Grammar::Tsx => TS_IMPORTS@,
            Grammar::JavaScript => TS_IMPORTS@,
            Grammar::Python => PY_IMPORTS@,
            Grammar::Go => GO_IMPORTS@,
            Grammar::Java => JAVA_IMPORTS@,
            Grammar::CSharp => CSHARP_IMPORTS@,
            Grammar::Cpp => CPP_IMPORTS@,
        }
    }

    /// Its tags; TypeScript ships only what differs from JavaScript, so both
    /// are taken there.
    pub open spec fn tags(self) -> Seq<char> {
        match self {
            Grammar::TypeScript => tags_text(Grammar::JavaScript) + "\n"@ + tags_text(
                Grammar::TypeScript,
            ),
            Grammar::Tsx => tags_text(Grammar::JavaScript) + "\n"@ + tags_text(Grammar::Tsx),
            g => tags_text(g),
        }
    }

    /// The query for definitions and references: tags with supplements, or the
    /// tags alone where the grammar does not take the supplements.
    pub open spec fn query_text(self) -> Seq<char> {
        let full = self.tags() + "\n"@ + self.extra();
        if self.extra().len() > 0 && compiles(self, full) {
            full
        } else {
            self.tags()
        }
    }
}

/// The text of the tags query that the crate of grammar `g` ships.
pub uninterp spec fn tags_text(g: Grammar) -> Seq<char>;

/// The constant `TAGS_QUERY` of the grammar's crate, named `tags_text`.
#[verifier::external_body]
fn tags_of(g: Grammar) -> (r: &'static str)
    ensures
        r@ == tags_text(g),
{
    match g {
        Grammar::Rust => tree_sitter_rust::TAGS_QUERY,
        Grammar::TypeScript | Grammar::Tsx => tree_sitter_typescript::TAGS_QUERY,
        Grammar::JavaScript => tree_sitter_javascript::TAGS_QUERY,
        Grammar::Python => tree_sitter_python::TAGS_QUERY,
        Grammar::Go => tree_sitter_go::TAGS_QUERY,
        Grammar::Java => tree_sitter_java::TAGS_QUERY,
        Grammar::CSharp => tree_sitter_c_sharp::TAGS_QUERY,
        Grammar::Cpp => tree_sitter_cpp::TAGS_QUERY,
    }
}

/// The compiled grammar that the crate of grammar `g` ships.
pub uninterp spec fn language_named(g: Grammar) -> tree_sitter::Language;

/// The constant `LANGUAGE` of the grammar's crate as a `tree_sitter::Language`,
/// named `language_named`. What the grammar accepts is left unsaid.
#[verifier::external_body]
pub(crate) fn language_of(g: Grammar) -> (r: tree_sitter::Language)
    ensures
        r == language_named(g),
{
    match g {
        Grammar::Rust => tree_sitter_rust::LANGUAGE.into(),
        Grammar::TypeScript => tree_sitter_typescript::LANGUAGE_TYPESCRIPT.into(),
        Grammar::Tsx => tree_sitter_typescript::LANGUAGE_TSX.into(),
        Grammar::JavaScript => tree_sitter_javascript::LANGUAGE.into(),
        Grammar::Python => tree_sitter_python::LANGUAGE.into(),
        Grammar::Go => tree_sitter_go::LANGUAGE.into(),
        Grammar::Java => tree_sitter_java::LANGUAGE.into(),
        Grammar::CSharp => tree_sitter_c_sharp::LANGUAGE.into(),
        Grammar::Cpp => tree_sitter_cpp::LANGUAGE.into(),
    }
}

/// What grammar `g` makes of the query `text`: the compiled query, or why it does not
/// compile.
pub uninterp spec fn query_named(g: Grammar, text: Seq<char>) -> Result<
    tree_sitter::Query,
    tree_sitter::QueryError,
>;

/// Does grammar `g` accept the query `text`?
pub open spec fn compiles(g: Grammar, text: Seq<char>) -> bool {
    query_named(g, text) is Ok
}

/// `tree_sitter::Query::new` on the grammar's language: the query, or the error, is
/// named `query_named`. What the query then finds is left unsaid.
#[verifier::external_body]
fn compile(g: Grammar, text: &str) -> (r: Result<tree_sitter::Query, tree_sitter::QueryError>)
    ensures
        r == query_named(g, text@),
{
    tree_sitter::Query::new(&language_of(g), text)
}

/// A language: its name, its file extensions and its grammar.
#[derive(Debug)]
pub struct LangSpec {
    pub name: &'static str,
    pub extensions: Vec<&'static str>,
    pub grammar: Grammar,
}

/// The texts of some string slices.
pub open spec fn texts(v: Seq<&'static str>) -> Seq<Seq<char>> {
    v.map_values(|s: &'static str| s@)
}

impl LangSpec {
    /// Do name and extensions belong to the grammar?
    pub open spec fn wf(self) -> bool {
        &&& self.name@ == self.grammar.word()
        &&& texts(self.extensions@) == self.grammar.exts()
    }

    /// The entry for a grammar.
    pub fn of(g: Grammar) -> (r: LangSpec)
        ensures
            r.wf(),
            r.grammar == g,
    {
        let (name, extensions): (&'static str, Vec<&'static str>) = match g {
            Grammar::Rust => ("rust", vec!["rs"]),
            Grammar::TypeScript => ("typescript", vec!["ts", "mts", "cts"]),
            Grammar::Tsx => ("tsx", vec!["tsx"]),
            Grammar::JavaScript => ("javascript", vec!["js", "jsx", "mjs", "cjs"]),
            Grammar::Python => ("python", vec!["py", "pyi"]),
            Grammar::Go => ("go", vec!["go"]),
            Grammar::Java => ("java", vec!["java"]),
            Grammar::CSharp => ("csharp", vec!["cs"]),
            Grammar::Cpp => ("cpp", vec!["cpp", "cc", "cxx", "hpp", "hh", "hxx", "h"]),
        };
        assert(texts(extensions@) =~= g.exts());
        LangSpec { name, extensions, grammar: g }
    }

    /// The compiled grammar.
    pub fn language(&self) -> (r: tree_sitter::Language)
        ensures
            r == language_named(self.grammar),
    {
        language_of(self.grammar)
    }

    /// The supplemental patterns.
    fn extra(&self) -> (r: &'static str)
        ensures
            r@ == self.grammar.extra(),
    {
        match self.grammar {
            Grammar::Rust => RUST_EXTRA,
            Grammar::TypeScript => TS_EXTRA,
            Grammar::Tsx => TS_EXTRA,
            Grammar::JavaScript => JS_EXTRA,
            Grammar::Python => "",
            Grammar::Go => GO_EXTRA,
            Grammar::Java => "",
            Grammar::CSharp => "",
            Grammar::Cpp => CPP_EXTRA,
        }
    }

    /// The query for import specifiers.
    pub fn imports(&self) -> (r: &'static str)
        ensures
            r@ == self.grammar.imports(),
    {
        match self.grammar {
            Grammar::Rust => RUST_IMPORTS,
            Grammar::TypeScript => TS_IMPORTS,
            Grammar::Tsx => TS_IMPORTS,
            Grammar::JavaScript => TS_IMPORTS,
            Grammar::Python => PY_IMPORTS,
            Grammar::Go => GO_IMPORTS,
            Grammar::Java => JAVA_IMPORTS,
            Grammar::CSharp => CSHARP_IMPORTS,
            Grammar::Cpp => CPP_IMPORTS,
        }
    }

    /// The tags.
    fn tags(&self) -> (r: String)
        ensures
            r@ == self.grammar.tags(),
    {
        match self.grammar {
            Grammar::TypeScript => cat3(
                tags_of(Grammar::JavaScript),
                "\n",
                tags_of(Grammar::TypeScript),
            ),
            Grammar::Tsx => cat3(tags_of(Grammar::JavaScript), "\n", tags_of(Grammar::Tsx)),
            g => tags_of(g).to_owned(),
        }
    }

    /// The text of the query for definitions and references.
    pub fn query_text(&self) -> (r: String)
        ensures
            r@ == self.grammar.query_text(),
    {
        let base = self.tags();
        let extra = self.extra();
        if !extra.is_empty() {
            let full = cat3(base.as_str(), "\n", extra);
            if compile(self.grammar, full.as_str()).is_ok() {
                return full;
            }
        }
        base
    }

    /// Compiled query, preferring tags with supplements and degrading to plain
    /// tags if a supplement does not match this grammar's node types.
    pub fn query(&self) -> (r: Result<tree_sitter::Query, tree_sitter::QueryError>)
        ensures
            r == query_named(self.grammar, self.grammar.query_text()),
    {
        let text = self.query_text();
        compile(self.grammar, text.as_str())
    }

    /// Compiled import query, or `None` if this grammar has no import syntax
    /// that it understands.
    pub fn imports_query(&self) -> (r: Option<tree_sitter::Query>)
        ensures
            r == (if self.grammar.imports().len() > 0 {
                query_named(self.grammar, self.grammar.imports()).ok()
            } else {
                None
            }),
    {
        let text = self.imports();
        if text.is_empty() {
            return None;
        }
        match compile(self.grammar, text) {
            Ok(q) => Some(q),
            Err(_) => None,
        }
    }

    /// File extensions to try when an import specifier omits one.
    pub fn source_extensions(&self) -> (r: &Vec<&'static str>)
        ensures
            *r == self.extensions,
    {
        &self.extensions
    }
}

/// Every grammar, in the order of the registry.
pub open spec fn registry() -> Seq<Grammar> {
    seq![
        Grammar::Rust,
        Grammar::TypeScript,
        Grammar::Tsx,
        Grammar::JavaScript,
        Grammar::Python,
        Grammar::Go,
        Grammar::Java,
        Grammar::CSharp,
        Grammar::Cpp,
    ]
}

/// Every language.
pub fn all() -> (r: Vec<LangSpec>)
    ensures
        r@.len() == registry().len(),
        forall|i: int|
            0 <= i < r@.len() ==> (#[trigger] r@[i]).wf() && r@[i].grammar == registry()[i],
{
    vec![
        LangSpec::of(Grammar::Rust),
        LangSpec::of(Grammar::TypeScript),
        LangSpec::of(Grammar::Tsx),
        LangSpec::of(Grammar::JavaScript),
        LangSpec::of(Grammar::Python),
        LangSpec::of(Grammar::Go),
        LangSpec::of(Grammar::Java),
        LangSpec::of(Grammar::CSharp),
        LangSpec::of(Grammar::Cpp),
    ]
}

/// The language with this name.
pub fn by_name(name: &str) -> (r: Option<LangSpec>)
    ensures
        match r {
            Some(s) => s.wf() && s.grammar.word() == name@,
            None => forall|g: Grammar| #[trigger] g.word() != name@,
        },
{
    let g = if same(name, "rust") {
        Grammar::Rust
    } else if same(name, "typescript") {
        Grammar::TypeScript
    } else if same(name, "tsx") {
        Grammar::Tsx
    } else if same(name, "javascript") {
        Grammar::JavaScript
    } else if same(name, "python") {
        Grammar::Python
    } else if same(name, "go") {
        Grammar::Go
    } else if same(name, "java") {
        Grammar::Java
    } else if same(name, "csharp") {
        Grammar::CSharp
    } else if same(name, "cpp") {
        Grammar::Cpp
    } else {
        return None;
    };
    Some(LangSpec::of(g))
}

/// The grammar for a file extension.
pub open spec fn grammar_for(ext: Seq<char>) -> Option<Grammar> {
    if exists|g: Grammar| #[trigger] g.exts().contains(ext) {
        Some(choose|g: Grammar| #[trigger] g.exts().contains(ext))
    } else {
        None
    }
}

/// The grammar with a file extension, if there is one.
pub fn by_extension(ext: &str) -> (r: Option<Grammar>)
    ensures
        r == grammar_for(ext@),
{
    if same(ext, "rs") {
        proof {
            assert(Grammar::Rust.exts()[0] == "rs"@);
            law_one_grammar(ext@, Grammar::Rust);
        }
        return Some(Grammar::Rust);
    }
    if same(ext, "ts") || same(ext, "mts") || same(ext, "cts") {
        proof {
            assert(Grammar::TypeScript.exts()[0] == "ts"@);
            assert(Grammar::TypeScript.exts()[1] == "mts"@);
            assert(Grammar::TypeScript.exts()[2] == "cts"@);
            law_one_grammar(ext@, Grammar::TypeScript);
        }
        return Some(Grammar::TypeScript);
    }
    if same(ext, "tsx") {
        proof {
            assert(Grammar::Tsx.exts()[0] == "tsx"@);
            law_one_grammar(ext@, Grammar::Tsx);
        }
        return Some(Grammar::Tsx);
    }
    if same(ext, "js") || same(ext, "jsx") || same(ext, "mjs") || same(ext, "cjs") {
        proof {
            assert(Grammar::JavaScript.exts()[0] == "js"@);
            assert(Grammar::JavaScript.exts()[1] == "jsx"@);
            assert(Grammar::JavaScript.exts()[2] == "mjs"@);
            assert(Grammar::JavaScript.exts()[3] == "cjs"@);
            law_one_grammar(ext@, Grammar::JavaScript);
        }
        return Some(Grammar::JavaScript);
    }
    if same(ext, "py") || same(ext, "pyi") {
        proof {
            assert(Grammar::Python.exts()[0] == "py"@);
            assert(Grammar::Python.exts()[1] == "pyi"@);
            law_one_grammar(ext@, Grammar::Python);
        }
        return Some(Grammar::Python);
    }
    if same(ext, "go") {
        proof {
            assert(Grammar::Go.exts()[0] == "go"@);
            law_one_grammar(ext@, Grammar::Go);
        }
        return Some(Grammar::Go);
    }
    if same(ext, "java") {
        proof {
            assert(Grammar::Java.exts()[0] == "java"@);
            law_one_grammar(ext@, Grammar::Java);
        }
        return Some(Grammar::Java);
    }
    if same(ext, "cs") {
        proof {
            assert(Grammar::CSharp.exts()[0] == "cs"@);
            law_one_grammar(ext@, Grammar::CSharp);
        }
        return Some(Grammar::CSharp);
    }
    if same(ext, "cpp") || same(ext, "cc") || same(ext, "cxx") || same(ext, "hpp") || same(ext, "hh") || same(ext, "hxx") || same(ext, "h") {
        proof {
            assert(Grammar::Cpp.exts()[0] == "cpp"@);
            assert(Grammar::Cpp.exts()[1] == "cc"@);
            assert(Grammar::Cpp.exts()[2] == "cxx"@);
            assert(Grammar::Cpp.exts()[3] == "hpp"@);
            assert(Grammar::Cpp.exts()[4] == "hh"@);
            assert(Grammar::Cpp.exts()[5] == "hxx"@);
            assert(Grammar::Cpp.exts()[6] == "h"@);
            law_one_grammar(ext@, Grammar::Cpp);
        }
        return Some(Grammar::Cpp);
    }
    assert forall|g: Grammar| !#[trigger] g.exts().contains(ext@) by {
        if g.exts().contains(ext@) {
            let i = choose|i: int| 0 <= i < g.exts().len() && g.exts()[i] == ext@;
            assert(i == 0 || i == 1 || i == 2 || i == 3 || i == 4 || i == 5 || i == 6);
        }
    }
    None
}

/// No two grammars share a file extension.
pub proof fn law_one_grammar(ext: Seq<char>, g: Grammar)
    requires
        g.exts().contains(ext),
    ensures
        grammar_for(ext) == Some(g),
{
    reveal_strlit("rs");
    reveal_strlit("ts");
    reveal_strlit("mts");
    reveal_strlit("cts");
    reveal_strlit("tsx");
    reveal_strlit("js");
    reveal_strlit("jsx");
    reveal_strlit("mjs");
    reveal_strlit("cjs");
    reveal_strlit("py");
    reveal_strlit("pyi");
    reveal_strlit("go");
    reveal_strlit("java");
    reveal_strlit("cs");
    reveal_strlit("cpp");
    reveal_strlit("cc");
    reveal_strlit("cxx");
    reveal_strlit("hpp");
    reveal_strlit("hh");
    reveal_strlit("hxx");
    reveal_strlit("h");
    let h = choose|h: Grammar| #[trigger] h.exts().contains(ext);
    let i = choose|i: int| 0 <= i < g.exts().len() && g.exts()[i] == ext;
    let j = choose|j: int| 0 <= j < h.exts().len() && h.exts()[j] == ext;
    let x = g.exts()[i];
    let y = h.exts()[j];
    assert(i == 0 || i == 1 || i == 2 || i == 3 || i == 4 || i == 5 || i == 6);
    assert(j == 0 || j == 1 || j == 2 || j == 3 || j == 4 || j == 5 || j == 6);
    assert(x.len() == y.len());
    assert(x[0] == y[0]);
    assert(x.len() > 1 ==> x[1] == y[1]);
    assert(x.len() > 2 ==> x[2] == y[2]);
}

/// The grammar for a path: by what follows its last dot, capitals made small.
/// A path without a dot has none.
pub open spec fn grammar_of_path(path: Seq<char>) -> Option<Grammar> {
    if after_last(path, '.') == path {
        None
    } else {
        grammar_for(ascii_lower(after_last(path, '.')))
    }
}

/// Pick a language from a file path's extension.
pub fn for_path(path: &str) -> (r: Option<LangSpec>)
    ensures
        match r {
            Some(s) => s.wf() && grammar_of_path(path@) == Some(s.grammar),
            None => grammar_of_path(path@) is None,
        },
{
    let ext = last_piece(path, '.');
    if same(ext.as_str(), path) {
        return None;
    }
    let ext = to_ascii_lowercase(ext.as_str());
    match by_extension(ext.as_str()) {
        Some(g) => Some(LangSpec::of(g)),
        None => None,
    }
}

/// Every extension of every grammar, in the order of the registry.
pub open spec fn all_extensions() -> Seq<Seq<char>> {
    seq![
        "rs"@, "ts"@, "mts"@, "cts"@, "tsx"@, "js"@, "jsx"@, "mjs"@, "cjs"@, "py"@, "pyi"@, "go"@, "java"@, "cs"@, "cpp"@, "cc"@, "cxx"@, "hpp"@, "hh"@, "hxx"@, "h"@,
    ]
}

/// Every extension the library knows how to index, in text order.
pub fn known_extensions() -> (r: Vec<String>)
    ensures
        r.deep_view() == sorted_texts(all_extensions()),
{
    let v: Vec<String> = vec![
        "rs".to_owned(),
        "ts".to_owned(),
        "mts".to_owned(),
        "cts".to_owned(),
        "tsx".to_owned(),
        "js".to_owned(),
        "jsx".to_owned(),
        "mjs".to_owned(),
        "cjs".to_owned(),
        "py".to_owned(),
        "pyi".to_owned(),
        "go".to_owned(),
        "java".to_owned(),
        "cs".to_owned(),
        "cpp".to_owned(),
        "cc".to_owned(),
        "cxx".to_owned(),
        "hpp".to_owned(),
        "hh".to_owned(),
        "hxx".to_owned(),
        "h".to_owned(),
    ];
    assert(v.deep_view() =~= all_extensions());
    sort_texts(v)
}

} // verus!
