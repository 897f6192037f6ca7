//! Which language a file is in.

use vstd::prelude::*;
use vstd::string::*;

use crate::lang::{all_extensions, grammar_for, grammar_of_path, law_one_grammar, Grammar};
use crate::lookup_laws::lemma_after;
use crate::text::{after_last, ascii_lower};

verus! {

broadcast use vstd::string::group_string_axioms;

/// Is a path in a language, which has this name?
pub open spec fn is_in(path: Seq<char>, g: Grammar, name: Seq<char>) -> bool {
    grammar_of_path(path) == Some(g) && g.word() == name
}

proof fn lemma_extension(p: Seq<char>, e: Seq<char>)
    requires
        !e.contains('.'),
    ensures
        after_last(p + "."@ + e, '.') == e,
        after_last(p + "."@ + e, '.') != p + "."@ + e,
{
    reveal_strlit(".");
    let path = p + "."@ + e;
    lemma_after(path, '.', e);
    assert(path =~= p.push('.') + e);
    assert(path.len() > e.len());
}

proof fn lemma_known(p: Seq<char>, e: Seq<char>, g: Grammar, i: int)
    requires
        0 <= i < g.exts().len(),
        g.exts()[i] == e,
        forall|k: int| 0 <= k < e.len() ==> 'a' <= #[trigger] e[k] && e[k] <= 'z',
    ensures
        grammar_of_path(p + "."@ + e) == Some(g),
{
    assert(!e.contains('.'));
    lemma_extension(p, e);
    assert(ascii_lower(e) =~= e);
    assert(g.exts().contains(e));
    law_one_grammar(e, g);
}

/// The endings of TypeScript and JavaScript files.
pub proof fn law_web_files(p: Seq<char>)
    ensures
        is_in(p + ".ts"@, Grammar::TypeScript, "typescript"@),
        is_in(p + ".mts"@, Grammar::TypeScript, "typescript"@),
        is_in(p + ".cts"@, Grammar::TypeScript, "typescript"@),
        is_in(p + ".tsx"@, Grammar::Tsx, "tsx"@),
        is_in(p + ".js"@, Grammar::JavaScript, "javascript"@),
        is_in(p + ".jsx"@, Grammar::JavaScript, "javascript"@),
        is_in(p + ".mjs"@, Grammar::JavaScript, "javascript"@),
        is_in(p + ".cjs"@, Grammar::JavaScript, "javascript"@),
{
    reveal_strlit(".");
    reveal_strlit("ts");
    reveal_strlit(".ts");
    lemma_known(p, "ts"@, Grammar::TypeScript, 0);
    assert(p + "."@ + "ts"@ =~= p + ".ts"@);
    reveal_strlit("mts");
    reveal_strlit(".mts");
    lemma_known(p, "mts"@, Grammar::TypeScript, 1);
    assert(p + "."@ + "mts"@ =~= p + ".mts"@);
    reveal_strlit("cts");
    reveal_strlit(".cts");
    lemma_known(p, "cts"@, Grammar::TypeScript, 2);
    assert(p + "."@ + "cts"@ =~= p + ".cts"@);
    reveal_strlit("tsx");
    reveal_strlit(".tsx");
    lemma_known(p, "tsx"@, Grammar::Tsx, 0);
    assert(p + "."@ + "tsx"@ =~= p + ".tsx"@);
    reveal_strlit("js");
    reveal_strlit(".js");
    lemma_known(p, "js"@, Grammar::JavaScript, 0);
    assert(p + "."@ + "js"@ =~= p + ".js"@);
    reveal_strlit("jsx");
    reveal_strlit(".jsx");
    lemma_known(p, "jsx"@, Grammar::JavaScript, 1);
    assert(p + "."@ + "jsx"@ =~= p + ".jsx"@);
    reveal_strlit("mjs");
    reveal_strlit(".mjs");
    lemma_known(p, "mjs"@, Grammar::JavaScript, 2);
    assert(p + "."@ + "mjs"@ =~= p + ".mjs"@);
    reveal_strlit("cjs");
    reveal_strlit(".cjs");
    lemma_known(p, "cjs"@, Grammar::JavaScript, 3);
    assert(p + "."@ + "cjs"@ =~= p + ".cjs"@);
}

/// The endings of Rust, Python, Go, Java and C# files.
pub proof fn law_other_files(p: Seq<char>)
    ensures
        is_in(p + ".rs"@, Grammar::Rust, "rust"@),
        is_in(p + ".py"@, Grammar::Python, "python"@),
        is_in(p + ".pyi"@, Grammar::Python, "python"@),
        is_in(p + ".go"@, Grammar::Go, "go"@),
        is_in(p + ".java"@, Grammar::Java, "java"@),
        is_in(p + ".cs"@, Grammar::CSharp, "csharp"@),
{
    reveal_strlit(".");
    reveal_strlit("rs");
    reveal_strlit(".rs");
    lemma_known(p, "rs"@, Grammar::Rust, 0);
    assert(p + "."@ + "rs"@ =~= p + ".rs"@);
    reveal_strlit("py");
    reveal_strlit(".py");
    lemma_known(p, "py"@, Grammar::Python, 0);
    assert(p + "."@ + "py"@ =~= p + ".py"@);
    reveal_strlit("pyi");
    reveal_strlit(".pyi");
    lemma_known(p, "pyi"@, Grammar::Python, 1);
    assert(p + "."@ + "pyi"@ =~= p + ".pyi"@);
    reveal_strlit("go");
    reveal_strlit(".go");
    lemma_known(p, "go"@, Grammar::Go, 0);
    assert(p + "."@ + "go"@ =~= p + ".go"@);
    reveal_strlit("java");
    reveal_strlit(".java");
    lemma_known(p, "java"@, Grammar::Java, 0);
    assert(p + "."@ + "java"@ =~= p + ".java"@);
    reveal_strlit("cs");
    reveal_strlit(".cs");
    lemma_known(p, "cs"@, Grammar::CSharp, 0);
    assert(p + "."@ + "cs"@ =~= p + ".cs"@);
}

/// The endings of C++ files, headers among them.
pub proof fn law_cpp_files(p: Seq<char>)
    ensures
        is_in(p + ".cpp"@, Grammar::Cpp, "cpp"@),
        is_in(p + ".cc"@, Grammar::Cpp, "cpp"@),
        is_in(p + ".cxx"@, Grammar::Cpp, "cpp"@),
        is_in(p + ".hpp"@, Grammar::Cpp, "cpp"@),
        is_in(p + ".hh"@, Grammar::Cpp, "cpp"@),
        is_in(p + ".hxx"@, Grammar::Cpp, "cpp"@),
        is_in(p + ".h"@, Grammar::Cpp, "cpp"@),
{
    reveal_strlit(".");
    reveal_strlit("cpp");
    reveal_strlit(".cpp");
    lemma_known(p, "cpp"@, Grammar::Cpp, 0);
    assert(p + "."@ + "cpp"@ =~= p + ".cpp"@);
    reveal_strlit("cc");
    reveal_strlit(".cc");
    lemma_known(p, "cc"@, Grammar::Cpp, 1);
    assert(p + "."@ + "cc"@ =~= p + ".cc"@);
    reveal_strlit("cxx");
    reveal_strlit(".cxx");
    lemma_known(p, "cxx"@, Grammar::Cpp, 2);
    assert(p + "."@ + "cxx"@ =~= p + ".cxx"@);
    reveal_strlit("hpp");
    reveal_strlit(".hpp");
    lemma_known(p, "hpp"@, Grammar::Cpp, 3);
    assert(p + "."@ + "hpp"@ =~= p + ".hpp"@);
    reveal_strlit("hh");
    reveal_strlit(".hh");
    lemma_known(p, "hh"@, Grammar::Cpp, 4);
    assert(p + "."@ + "hh"@ =~= p + ".hh"@);
    reveal_strlit("hxx");
    reveal_strlit(".hxx");
    lemma_known(p, "hxx"@, Grammar::Cpp, 5);
    assert(p + "."@ + "hxx"@ =~= p + ".hxx"@);
    reveal_strlit("h");
    reveal_strlit(".h");
    lemma_known(p, "h"@, Grammar::Cpp, 6);
    assert(p + "."@ + "h"@ =~= p + ".h"@);
}

/// Capitals in the ending do not matter.
pub proof fn law_capitals_do_not_matter(p: Seq<char>, q: Seq<char>, x: Seq<char>, y: Seq<char>)
    requires
        !x.contains('.'),
        !y.contains('.'),
        x.len() == y.len(),
        forall|k: int|
            0 <= k < x.len() ==> #[trigger] x[k] == y[k] || ('A' <= x[k] && x[k] <= 'Z' && y[k] as u32 == x[k] as u32 + 32),
    ensures
        grammar_of_path(p + "."@ + x) == grammar_of_path(q + "."@ + y),
{
    lemma_extension(p, x);
    lemma_extension(q, y);
    assert forall|k: int| 0 <= k < x.len() implies ascii_lower(x)[k] == ascii_lower(y)[k] by {
        assert(x[k] == y[k] || ('A' <= x[k] && x[k] <= 'Z' && y[k] as u32 == x[k] as u32 + 32));
    }
    assert(ascii_lower(x) =~= ascii_lower(y));
}

/// Only the ending counts, and a path without one is in no language.
pub proof fn law_only_the_ending_counts(p: Seq<char>, q: Seq<char>, e: Seq<char>)
    requires
        !e.contains('.'),
    ensures
        grammar_of_path(p + "."@ + e) == grammar_of_path(q + "."@ + e),
        grammar_of_path(e) is None,
{
    lemma_extension(p, e);
    lemma_extension(q, e);
    lemma_after(e, '.', e);
}

/// The listed endings are those of some language.
pub proof fn law_listed_endings(e: Seq<char>)
    ensures
        all_extensions().contains(e) <==> grammar_for(e) is Some,
{
    let all = all_extensions();
    assert(all[0] == "rs"@ && Grammar::Rust.exts()[0] == "rs"@);
    assert(all[1] == "ts"@ && Grammar::TypeScript.exts()[0] == "ts"@);
    assert(all[2] == "mts"@ && Grammar::TypeScript.exts()[1] == "mts"@);
    assert(all[3] == "cts"@ && Grammar::TypeScript.exts()[2] == "cts"@);
    assert(all[4] == "tsx"@ && Grammar::Tsx.exts()[0] == "tsx"@);
    assert(all[5] == "js"@ && Grammar::JavaScript.exts()[0] == "js"@);
    assert(all[6] == "jsx"@ && Grammar::JavaScript.exts()[1] == "jsx"@);
    assert(all[7] == "mjs"@ && Grammar::JavaScript.exts()[2] == "mjs"@);
    assert(all[8] == "cjs"@ && Grammar::JavaScript.exts()[3] == "cjs"@);
    assert(all[9] == "py"@ && Grammar::Python.exts()[0] == "py"@);
    assert(all[10] == "pyi"@ && Grammar::Python.exts()[1] == "pyi"@);
    assert(all[11] == "go"@ && Grammar::Go.exts()[0] == "go"@);
    assert(all[12] == "java"@ && Grammar::Java.exts()[0] == "java"@);
    assert(all[13] == "cs"@ && Grammar::CSharp.exts()[0] == "cs"@);
    assert(all[14] == "cpp"@ && Grammar::Cpp.exts()[0] == "cpp"@);
    assert(all[15] == "cc"@ && Grammar::Cpp.exts()[1] == "cc"@);
    assert(all[16] == "cxx"@ && Grammar::Cpp.exts()[2] == "cxx"@);
    assert(all[17] == "hpp"@ && Grammar::Cpp.exts()[3] == "hpp"@);
    assert(all[18] == "hh"@ && Grammar::Cpp.exts()[4] == "hh"@);
    assert(all[19] == "hxx"@ && Grammar::Cpp.exts()[5] == "hxx"@);
    assert(all[20] == "h"@ && Grammar::Cpp.exts()[6] == "h"@);
    if all.contains(e) {
        let i = choose|i: int| 0 <= i < all.len() && all[i] == e;
        if i == 0 {
            assert(Grammar::Rust.exts().contains(e));
        }
        if 1 <= i < 4 {
            assert(Grammar::TypeScript.exts()[i - 1] == e);
            assert(Grammar::TypeScript.exts().contains(e));
        }
        if i == 4 {
            assert(Grammar::Tsx.exts().contains(e));
        }
        if 5 <= i < 9 {
            assert(Grammar::JavaScript.exts()[i - 5] == e);
            assert(Grammar::JavaScript.exts().contains(e));
        }
        if 9 <= i < 11 {
            assert(Grammar::Python.exts()[i - 9] == e);
            assert(Grammar::Python.exts().contains(e));
        }
        if i == 11 {
            assert(Grammar::Go.exts().contains(e));
        }
        if i == 12 {
            assert(Grammar::Java.exts().contains(e));
        }
        if i == 13 {
            assert(Grammar::CSharp.exts().contains(e));
        }
        if 14 <= i < 21 {
            assert(Grammar::Cpp.exts()[i - 14] == e);
            assert(Grammar::Cpp.exts().contains(e));
        }
    }
    if exists|g: Grammar| #[trigger] g.exts().contains(e) {
        let g = choose|g: Grammar| #[trigger] g.exts().contains(e);
        let i = choose|i: int| 0 <= i < g.exts().len() && g.exts()[i] == e;
        assert(i == 0 || i == 1 || i == 2 || i == 3 || i == 4 || i == 5 || i == 6);
    }
}

} // verus!
