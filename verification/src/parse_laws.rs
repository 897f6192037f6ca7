//! What becomes of the captures of a file: no definition and no reference is lost.

use vstd::prelude::*;
use vstd::string::*;

use crate::ids::short_hash;
use crate::model::{EdgeKind, SymbolKind};
use crate::order::{law_sorted_keeps, law_sorted_ordered, law_text_order_sorts, rank, weak_order};
use crate::parse::{
    built, def_in, def_kind_of, defs_in, doubled, enclosing, known_def, lemma_enclosing, lemma_outermost_len,
    lemma_placed, name_in, outermost_first, placed, ref_in, ref_kind_of, refs_in, same_def, symbol_for,
    target_of, CaptureV, ParsedSymbolV, RawDef, RawDefV, RawRefV,
};
use crate::text::text_lt;

verus! {

broadcast use vstd::string::group_string_axioms;

// ------------------------------------------------------------- captures of a match

/// Is this one of the capture names that refer to something, and the kind of edge that
/// it refers by? Calls and sends call; classes, types, interfaces, implementations and
/// modules are used.
pub open spec fn refers(capture: Seq<char>, kind: EdgeKind) -> bool {
    ||| kind is Calls && (capture == "reference.call"@ || capture == "reference.send"@)
    ||| kind is Uses && (capture == "reference.class"@ || capture == "reference.type"@ || capture
        == "reference.interface"@ || capture == "reference.implementation"@ || capture
        == "reference.module"@)
}

/// Is this one of the capture names that define something, and the kind of symbol that
/// it defines?
pub open spec fn defines(capture: Seq<char>, kind: SymbolKind) -> bool {
    ||| kind is Function && capture == "definition.function"@
    ||| kind is Method && capture == "definition.method"@
    ||| kind is Class && (capture == "definition.class"@ || capture == "definition.struct"@ || capture
        == "definition.enum"@)
    ||| kind is Interface && capture == "definition.interface"@
    ||| kind is Trait && capture == "definition.trait"@
    ||| kind is Module && (capture == "definition.module"@ || capture == "definition.namespace"@)
    ||| kind is Type && capture == "definition.type"@
    ||| kind is Constant && (capture == "definition.constant"@ || capture == "definition.variable"@)
    ||| kind is Macro && capture == "definition.macro"@
}

/// Does a capture say what a match is about?
pub open spec fn marks(c: CaptureV) -> bool {
    "definition."@.is_prefix_of(c.name) || "reference."@.is_prefix_of(c.name)
}

/// Does a capture name the node: is it called `name`, inside the node, and not empty?
pub open spec fn names_it(c: CaptureV, t: CaptureV) -> bool {
    c.name == "name"@ && t.start_byte <= c.start_byte && c.end_byte <= t.end_byte && c.text is Some
        && c.text->0.len() > 0
}

/// Is a match about its `i`-th capture, with the name in its `j`-th?
pub open spec fn about(m: Seq<CaptureV>, i: int, j: int) -> bool {
    &&& 0 <= i < m.len()
    &&& 0 <= j < m.len()
    &&& marks(m[i])
    &&& forall|h: int| 0 <= h < i ==> !marks(#[trigger] m[h])
    &&& names_it(m[j], m[i])
    &&& forall|h: int| 0 <= h < j ==> !names_it(#[trigger] m[h], m[i])
}

proof fn lemma_target(m: Seq<CaptureV>, i: int)
    requires
        0 <= i < m.len(),
        marks(m[i]),
        forall|h: int| 0 <= h < i ==> !marks(#[trigger] m[h]),
    ensures
        target_of(m) == Some(m[i]),
    decreases i,
{
    if i > 0 {
        assert(!marks(m[0]));
        let rest = m.drop_first();
        assert forall|h: int| 0 <= h < i - 1 implies !marks(#[trigger] rest[h]) by {
            assert(rest[h] == m[h + 1]);
        }
        lemma_target(rest, i - 1);
    }
}

proof fn lemma_target_at(m: Seq<CaptureV>) -> (i: int)
    requires
        target_of(m) is Some,
    ensures
        0 <= i < m.len(),
        m[i] == target_of(m)->0,
        marks(m[i]),
        forall|h: int| 0 <= h < i ==> !marks(#[trigger] m[h]),
    decreases m.len(),
{
    if marks(m[0]) {
        0
    } else {
        let rest = m.drop_first();
        let i = lemma_target_at(rest) + 1;
        assert forall|h: int| 0 <= h < i implies !marks(#[trigger] m[h]) by {
            if h > 0 {
                assert(rest[h - 1] == m[h]);
            }
        }
        i
    }
}

proof fn lemma_name(m: Seq<CaptureV>, t: CaptureV, j: int)
    requires
        0 <= j < m.len(),
        names_it(m[j], t),
        forall|h: int| 0 <= h < j ==> !names_it(#[trigger] m[h], t),
    ensures
        name_in(m, t) == m[j].text,
    decreases j,
{
    if j > 0 {
        assert(!names_it(m[0], t));
        let rest = m.drop_first();
        assert forall|h: int| 0 <= h < j - 1 implies !names_it(#[trigger] rest[h], t) by {
            assert(rest[h] == m[h + 1]);
        }
        lemma_name(rest, t, j - 1);
    }
}

proof fn lemma_name_at(m: Seq<CaptureV>, t: CaptureV) -> (j: int)
    requires
        name_in(m, t) is Some,
    ensures
        0 <= j < m.len(),
        name_in(m, t) == m[j].text,
        names_it(m[j], t),
        forall|h: int| 0 <= h < j ==> !names_it(#[trigger] m[h], t),
    decreases m.len(),
{
    if names_it(m[0], t) {
        0
    } else {
        let rest = m.drop_first();
        let j = lemma_name_at(rest, t) + 1;
        assert forall|h: int| 0 <= h < j implies !names_it(#[trigger] m[h], t) by {
            if h > 0 {
                assert(rest[h - 1] == m[h]);
            }
        }
        j
    }
}

proof fn lemma_reference_names(capture: Seq<char>, kind: EdgeKind)
    requires
        refers(capture, kind),
    ensures
        "reference."@.is_prefix_of(capture),
        ref_kind_of(capture) == Some(kind),
        def_kind_of(capture) is None,
{
    reveal_strlit("reference.");
    reveal_strlit("reference.call");
    reveal_strlit("reference.send");
    reveal_strlit("reference.class");
    reveal_strlit("reference.type");
    reveal_strlit("reference.interface");
    reveal_strlit("reference.implementation");
    reveal_strlit("reference.module");
    assert("reference."@ =~= "reference.call"@.take(10));
    assert("reference."@ =~= "reference.send"@.take(10));
    assert("reference."@ =~= "reference.class"@.take(10));
    assert("reference."@ =~= "reference.type"@.take(10));
    assert("reference."@ =~= "reference.interface"@.take(10));
    assert("reference."@ =~= "reference.implementation"@.take(10));
    assert("reference."@ =~= "reference.module"@.take(10));
    assert("reference.call"@.len() == 14 && "reference.call"@[10] == 'c' && "reference.call"@[11] == 'a');
    assert("reference.send"@.len() == 14 && "reference.send"@[10] == 's');
    assert("reference.class"@.len() == 15);
    assert("reference.type"@.len() == 14 && "reference.type"@[10] == 't');
    assert("reference.interface"@.len() == 19);
    assert("reference.implementation"@.len() == 24);
    assert("reference.module"@.len() == 16);
    assert(capture[0] == 'r');
    lemma_definition_names();
}

proof fn lemma_definition_names()
    ensures
        forall|c: Seq<char>| #[trigger] def_kind_of(c) is Some ==> c.len() > 13 && c[0] == 'd',
{
    reveal_strlit("definition.function");
    reveal_strlit("definition.method");
    reveal_strlit("definition.class");
    reveal_strlit("definition.struct");
    reveal_strlit("definition.enum");
    reveal_strlit("definition.interface");
    reveal_strlit("definition.trait");
    reveal_strlit("definition.module");
    reveal_strlit("definition.namespace");
    reveal_strlit("definition.type");
    reveal_strlit("definition.constant");
    reveal_strlit("definition.variable");
    reveal_strlit("definition.macro");
}

proof fn lemma_definition_kinds(capture: Seq<char>, kind: SymbolKind)
    requires
        defines(capture, kind),
    ensures
        "definition."@.is_prefix_of(capture),
        def_kind_of(capture) == Some(kind),
{
    reveal_strlit("definition.");
    reveal_strlit("definition.function");
    reveal_strlit("definition.method");
    reveal_strlit("definition.class");
    reveal_strlit("definition.struct");
    reveal_strlit("definition.enum");
    reveal_strlit("definition.interface");
    reveal_strlit("definition.trait");
    reveal_strlit("definition.module");
    reveal_strlit("definition.namespace");
    reveal_strlit("definition.type");
    reveal_strlit("definition.constant");
    reveal_strlit("definition.variable");
    reveal_strlit("definition.macro");
    assert("definition."@ =~= capture.take(11));
    assert("definition.function"@[11] == 'f');
    assert("definition.method"@[11] == 'm' && "definition.method"@[12] == 'e');
    assert("definition.class"@[11] == 'c' && "definition.class"@[12] == 'l');
    assert("definition.struct"@[11] == 's');
    assert("definition.enum"@[11] == 'e');
    assert("definition.interface"@[11] == 'i');
    assert("definition.trait"@[11] == 't' && "definition.trait"@[12] == 'r');
    assert("definition.module"@[11] == 'm' && "definition.module"@[12] == 'o');
    assert("definition.namespace"@[11] == 'n');
    assert("definition.type"@[11] == 't' && "definition.type"@[12] == 'y');
    assert("definition.constant"@[11] == 'c' && "definition.constant"@[12] == 'o');
    assert("definition.variable"@[11] == 'v');
    assert("definition.macro"@[11] == 'm' && "definition.macro"@[12] == 'a');
}

/// These capture names refer, by these kinds of edge, and no others do.
pub proof fn law_reference_captures(capture: Seq<char>, kind: EdgeKind)
    ensures
        ref_kind_of(capture) == Some(kind) <==> refers(capture, kind),
{
    if refers(capture, kind) {
        lemma_reference_names(capture, kind);
    }
}

/// These capture names define, these kinds of symbol, and no others do.
pub proof fn law_definition_captures(capture: Seq<char>, kind: SymbolKind)
    ensures
        def_kind_of(capture) == Some(kind) <==> defines(capture, kind),
{
    if defines(capture, kind) {
        lemma_definition_kinds(capture, kind);
    }
}

/// Every match that is about a reference gives that reference: by the name that the
/// match holds, with the span of the node, as a call or as a use.
pub proof fn law_matches_become_references(ms: Seq<Seq<CaptureV>>, k: int, i: int, j: int, kind: EdgeKind)
    requires
        0 <= k < ms.len(),
        about(ms[k], i, j),
        refers(ms[k][i].name, kind),
    ensures
        refs_in(ms).contains(
            RawRefV {
                name: ms[k][j].text->0,
                kind,
                start_byte: ms[k][i].start_byte,
                end_byte: ms[k][i].end_byte,
            },
        ),
    decreases ms.len(),
{
    let r = RawRefV {
        name: ms[k][j].text->0,
        kind,
        start_byte: ms[k][i].start_byte,
        end_byte: ms[k][i].end_byte,
    };
    let rest = refs_in(ms.drop_last());
    if k < ms.len() - 1 {
        law_matches_become_references(ms.drop_last(), k, i, j, kind);
        let h = choose|h: int| 0 <= h < rest.len() && rest[h] == r;
        assert(refs_in(ms)[h] == r);
    } else {
        let m = ms[k];
        lemma_target(m, i);
        lemma_name(m, m[i], j);
        lemma_reference_names(m[i].name, kind);
        assert(ref_in(m) == Some(r));
        assert(refs_in(ms)[rest.len() as int] == r);
    }
}

/// Nothing else is a reference: each comes from such a match.
pub proof fn law_references_come_from_matches(ms: Seq<Seq<CaptureV>>, n: int) -> (found: (int, int, int))
    requires
        0 <= n < refs_in(ms).len(),
    ensures
        ({
            let (k, i, j) = found;
            let r = refs_in(ms)[n];
            &&& 0 <= k < ms.len()
            &&& about(ms[k], i, j)
            &&& refers(ms[k][i].name, r.kind)
            &&& ms[k][j].text == Some(r.name)
            &&& r.start_byte == ms[k][i].start_byte
            &&& r.end_byte == ms[k][i].end_byte
        }),
    decreases ms.len(),
{
    let rest = refs_in(ms.drop_last());
    if n < rest.len() {
        law_references_come_from_matches(ms.drop_last(), n)
    } else {
        let m = ms.last();
        let i = lemma_target_at(m);
        let j = lemma_name_at(m, m[i]);
        (ms.len() - 1, i, j)
    }
}

/// Every match that is about a definition gives that definition: by the name that the
/// match holds, with the span of the node and the kind that the capture says.
pub proof fn law_matches_become_definitions(ms: Seq<Seq<CaptureV>>, k: int, i: int, j: int, kind: SymbolKind)
    requires
        0 <= k < ms.len(),
        about(ms[k], i, j),
        defines(ms[k][i].name, kind),
    ensures
        exists|n: int|
            0 <= n < defs_in(ms).len() && {
                let d = #[trigger] defs_in(ms)[n];
                &&& d.kind == kind
                &&& Some(d.name) == ms[k][j].text
                &&& d.start_byte == ms[k][i].start_byte
                &&& d.end_byte == ms[k][i].end_byte
            },
    decreases ms.len(),
{
    let rest = defs_in(ms.drop_last());
    let all = defs_in(ms);
    if k < ms.len() - 1 {
        law_matches_become_definitions(ms.drop_last(), k, i, j, kind);
        let n = choose|n: int|
            0 <= n < rest.len() && {
                let d = #[trigger] rest[n];
                &&& d.kind == kind
                &&& Some(d.name) == ms[k][j].text
                &&& d.start_byte == ms[k][i].start_byte
                &&& d.end_byte == ms[k][i].end_byte
            };
        assert(all[n] == rest[n]);
    } else {
        let m = ms[k];
        lemma_target(m, i);
        lemma_name(m, m[i], j);
        lemma_definition_kinds(m[i].name, kind);
        let d = def_in(m)->0;
        if known_def(rest, d) {
            let n = choose|n: int| 0 <= n < rest.len() && same_def(#[trigger] rest[n], d);
            assert(all[n] == rest[n]);
        } else {
            assert(all[rest.len() as int] == d);
        }
    }
}

/// Nothing else is a definition: each comes from such a match.
pub proof fn law_definitions_come_from_matches(ms: Seq<Seq<CaptureV>>, n: int) -> (found: (int, int, int))
    requires
        0 <= n < defs_in(ms).len(),
    ensures
        ({
            let (k, i, j) = found;
            let d = defs_in(ms)[n];
            &&& 0 <= k < ms.len()
            &&& about(ms[k], i, j)
            &&& defines(ms[k][i].name, d.kind)
            &&& ms[k][j].text == Some(d.name)
            &&& d.start_byte == ms[k][i].start_byte
            &&& d.end_byte == ms[k][i].end_byte
            &&& d.start_line == ms[k][i].start_line
            &&& d.end_line == ms[k][i].end_line
        }),
    decreases ms.len(),
{
    let rest = defs_in(ms.drop_last());
    if n < rest.len() {
        law_definitions_come_from_matches(ms.drop_last(), n)
    } else {
        let m = ms.last();
        let i = lemma_target_at(m);
        let j = lemma_name_at(m, m[i]);
        (ms.len() - 1, i, j)
    }
}

// -------------------------------------------------------------- symbols of a file

/// Every reference of a file is kept, in order, with its name and kind.
pub proof fn law_references_are_kept(
    lang: Seq<char>,
    defs: Seq<RawDefV>,
    refs: Seq<RawRefV>,
    source: Seq<u8>,
    k: int,
)
    requires
        0 <= k < refs.len(),
    ensures
        built(lang, defs, refs, source).refs.len() == refs.len(),
        built(lang, defs, refs, source).refs[k].name == refs[k].name,
        built(lang, defs, refs, source).refs[k].kind == refs[k].kind,
{
}

/// Is this symbol that definition?
pub open spec fn is_of(s: ParsedSymbolV, d: RawDefV) -> bool {
    s.kind == d.kind && s.name == d.name && s.start_byte == d.start_byte && s.end_byte == d.end_byte
        && s.start_line == d.start_line && s.end_line == d.end_line
}

/// Does a symbol of the same name lie around that definition?
pub open spec fn wraps(s: ParsedSymbolV, d: RawDefV) -> bool {
    s.name == d.name && s.start_byte <= d.start_byte && d.end_byte <= s.end_byte
}

proof fn lemma_placed_has(defs: Seq<RawDefV>, source: Seq<u8>, k: int)
    requires
        defs.len() <= usize::MAX,
        0 <= k < defs.len(),
    ensures
        exists|i: int|
            0 <= i < placed(defs, source).0.len() && (is_of(#[trigger] placed(defs, source).0[i], defs[k])
                || wraps(placed(defs, source).0[i], defs[k])),
    decreases defs.len(),
{
    let (symbols, stack) = placed(defs.drop_last(), source);
    let all = placed(defs, source).0;
    let raw = defs.last();
    let open = enclosing(symbols, stack, raw.start_byte);
    if k < defs.len() - 1 {
        lemma_placed_has(defs.drop_last(), source, k);
        let i = choose|i: int|
            0 <= i < symbols.len() && (is_of(#[trigger] symbols[i], defs[k]) || wraps(symbols[i], defs[k]));
        assert(all[i] == symbols[i]);
    } else if doubled(symbols, open, raw) {
        lemma_placed(defs.drop_last(), source);
        lemma_enclosing(symbols, stack, raw.start_byte);
        assert(open.last() == stack[open.len() - 1]);
        assert(wraps(all[open.last() as int], raw));
    } else {
        assert(is_of(all[symbols.len() as int], raw));
    }
}

proof fn lemma_placed_of(defs: Seq<RawDefV>, source: Seq<u8>, i: int) -> (k: int)
    requires
        0 <= i < placed(defs, source).0.len(),
    ensures
        0 <= k < defs.len(),
        is_of(placed(defs, source).0[i], defs[k]),
        placed(defs, source).0[i].body_hash == short_hash(
            crate::parse::body(source, defs[k].start_byte as int, defs[k].end_byte as int),
            16,
        ),
    decreases defs.len(),
{
    let (symbols, stack) = placed(defs.drop_last(), source);
    if i < symbols.len() {
        lemma_placed_of(defs.drop_last(), source, i)
    } else {
        defs.len() - 1
    }
}

/// No definition is lost: it becomes a symbol, or a symbol of the same name lies
/// around it, which describes the same declaration.
pub proof fn law_no_definition_is_lost(
    lang: Seq<char>,
    defs: Seq<RawDefV>,
    refs: Seq<RawRefV>,
    source: Seq<u8>,
    k: int,
)
    requires
        defs.len() <= usize::MAX,
        0 <= k < defs.len(),
    ensures
        exists|i: int|
            0 <= i < built(lang, defs, refs, source).symbols.len() && (is_of(
                #[trigger] built(lang, defs, refs, source).symbols[i],
                defs[k],
            ) || wraps(built(lang, defs, refs, source).symbols[i], defs[k])),
{
    broadcast use vstd::seq_lib::group_to_multiset_ensures;

    let order = outermost_first(defs);
    law_sorted_keeps(defs, rank::<RawDef>());
    assert(defs.to_multiset().count(defs[k]) > 0);
    assert(order.contains(defs[k]));
    let n = choose|n: int| 0 <= n < order.len() && order[n] == defs[k];
    lemma_outermost_len(defs);
    lemma_placed_has(order, source, n);
    let symbols = placed(order, source).0;
    let i = choose|i: int|
        0 <= i < symbols.len() && (is_of(#[trigger] symbols[i], order[n]) || wraps(symbols[i], order[n]));
    let s = built(lang, defs, refs, source).symbols[i];
    assert(is_of(s, defs[k]) == is_of(symbols[i], defs[k]));
    assert(wraps(s, defs[k]) == wraps(symbols[i], defs[k]));
}

/// Every symbol is a definition that was found, and its body hash is that of its text.
pub proof fn law_symbols_are_definitions(
    lang: Seq<char>,
    defs: Seq<RawDefV>,
    refs: Seq<RawRefV>,
    source: Seq<u8>,
    i: int,
)
    requires
        0 <= i < built(lang, defs, refs, source).symbols.len(),
    ensures
        ({
            let s = built(lang, defs, refs, source).symbols[i];
            &&& exists|k: int| 0 <= k < defs.len() && is_of(s, #[trigger] defs[k])
            &&& s.start_byte <= s.end_byte <= source.len() ==> s.body_hash == short_hash(
                source.subrange(s.start_byte as int, s.end_byte as int),
                16,
            )
        }),
{
    broadcast use vstd::seq_lib::group_to_multiset_ensures;

    let order = outermost_first(defs);
    law_sorted_keeps(defs, rank::<RawDef>());
    let n = lemma_placed_of(order, source, i);
    let d = order[n];
    assert(order.to_multiset().count(d) > 0);
    assert(defs.contains(d));
    let k = choose|k: int| 0 <= k < defs.len() && defs[k] == d;
    assert(is_of(built(lang, defs, refs, source).symbols[i], defs[k]));
}

/// The hash of a file is that of all its bytes.
pub proof fn law_file_hash(lang: Seq<char>, defs: Seq<RawDefV>, refs: Seq<RawRefV>, source: Seq<u8>)
    ensures
        built(lang, defs, refs, source).content_hash == short_hash(source, 16),
        built(lang, defs, refs, source).lang == lang,
{
}

proof fn lemma_outermost_order()
    ensures
        weak_order(rank::<RawDef>()),
{
    let f = rank::<RawDef>();
    law_text_order_sorts();
    let g = |a: Seq<char>, b: Seq<char>| text_lt(a, b);
    assert forall|a: RawDefV, b: RawDefV| #[trigger] f(a, b) implies !f(b, a) by {
        assert(g(a.kind.word(), b.kind.word()) ==> !g(b.kind.word(), a.kind.word()));
    }
    assert forall|a: RawDefV, b: RawDefV, c: RawDefV|
        #![trigger f(a, b), f(c, b)]
        f(a, b) && !f(c, b) implies f(a, c) by {
        assert(g(a.kind.word(), b.kind.word()) && !g(c.kind.word(), b.kind.word()) ==> g(
            a.kind.word(),
            c.kind.word(),
        ));
    }
}

/// Who is still open where the last definition starts is on the stack.
proof fn lemma_stack(defs: Seq<RawDefV>, source: Seq<u8>)
    requires
        0 < defs.len() <= usize::MAX,
        forall|a: int, b: int|
            0 <= a < b < defs.len() ==> (#[trigger] defs[a]).start_byte <= (#[trigger] defs[b]).start_byte,
    ensures
        ({
            let (symbols, stack) = placed(defs, source);
            let start = defs.last().start_byte;
            &&& forall|a: int, b: int| 0 <= a < b < stack.len() ==> (#[trigger] stack[a]) < (#[trigger] stack[b])
            &&& forall|i: int|
                0 <= i < symbols.len() && (#[trigger] symbols[i]).end_byte > start ==> stack.contains(
                    i as usize,
                )
            &&& forall|i: int, j: int|
                0 <= i < j < symbols.len() && (#[trigger] symbols[i]).end_byte > (
                #[trigger] symbols[j]).start_byte ==> (symbols[j].parent matches Some(p) && i <= p < j)
        }),
    decreases defs.len(),
{
    let init = defs.drop_last();
    let (symbols, stack) = placed(init, source);
    let raw = defs.last();
    let start = raw.start_byte;
    let open = enclosing(symbols, stack, start);
    lemma_placed(init, source);
    lemma_enclosing(symbols, stack, start);
    if init.len() > 0 {
        assert forall|a: int, b: int| 0 <= a < b < init.len() implies (#[trigger] init[a]).start_byte <= (
        #[trigger] init[b]).start_byte by {
            assert(defs[a].start_byte <= defs[b].start_byte);
        }
        lemma_stack(init, source);
        assert(defs[init.len() - 1].start_byte <= defs[defs.len() - 1].start_byte);
    }
    assert forall|i: int| 0 <= i < symbols.len() && (#[trigger] symbols[i]).end_byte > start implies open.contains(
        i as usize,
    ) by {
        assert(stack.contains(i as usize));
        lemma_still_open(symbols, stack, start, i as usize);
    }
    let (all, now) = placed(defs, source);
    if !doubled(symbols, open, raw) {
        let n = symbols.len() as int;
        assert(now == open.push(n as usize));
        assert forall|a: int, b: int| 0 <= a < b < now.len() implies (#[trigger] now[a]) < (
        #[trigger] now[b]) by {
            assert(open[a] == stack[a]);
            if b < open.len() {
                assert(open[b] == stack[b]);
            }
        }
        assert forall|i: int| 0 <= i < all.len() && (#[trigger] all[i]).end_byte > start implies now.contains(
            i as usize,
        ) by {
            if i < n {
                assert(symbols[i].end_byte > start);
                let k = choose|k: int| 0 <= k < open.len() && open[k] == i as usize;
                assert(now[k] == i as usize);
            } else {
                assert(now[open.len() as int] == n as usize);
            }
        }
        assert forall|i: int, j: int|
            0 <= i < j < all.len() && (#[trigger] all[i]).end_byte > (#[trigger] all[j]).start_byte implies (
        all[j].parent matches Some(p) && i <= p < j) by {
            if j < n {
                assert(symbols[i].end_byte > symbols[j].start_byte);
            } else {
                assert(all[j] == symbol_for(symbols, open, raw, source));
                assert(symbols[i].end_byte > start);
                let k = choose|k: int| 0 <= k < open.len() && open[k] == i as usize;
                let last = open.len() - 1;
                assert(open[last] == stack[last]);
                assert(open[k] == stack[k]);
                if k < last {
                    assert(stack[k] < stack[last]);
                }
            }
        }
    } else {
        assert forall|a: int, b: int| 0 <= a < b < now.len() implies (#[trigger] now[a]) < (
        #[trigger] now[b]) by {
            assert(open[a] == stack[a] && open[b] == stack[b]);
        }
    }
}

proof fn lemma_still_open(symbols: Seq<ParsedSymbolV>, stack: Seq<usize>, start: usize, i: usize)
    requires
        stack.contains(i),
        i < symbols.len(),
        symbols[i as int].end_byte > start,
    ensures
        enclosing(symbols, stack, start).contains(i),
    decreases stack.len(),
{
    let k = choose|k: int| 0 <= k < stack.len() && stack[k] == i;
    if stack.len() > 0 && start >= symbols[stack.last() as int].end_byte {
        assert(k < stack.len() - 1);
        assert(stack.drop_last()[k] == i);
        lemma_still_open(symbols, stack.drop_last(), start, i);
    }
}

/// A symbol's parent is the nearest one before it that has not ended where it starts:
/// whoever is open there stands at the parent or before it.
pub proof fn law_parent_is_the_nearest_open(
    lang: Seq<char>,
    defs: Seq<RawDefV>,
    refs: Seq<RawRefV>,
    source: Seq<u8>,
    i: int,
    j: int,
)
    requires
        defs.len() <= usize::MAX,
        0 <= i < j < built(lang, defs, refs, source).symbols.len(),
        built(lang, defs, refs, source).symbols[i].end_byte > built(
            lang,
            defs,
            refs,
            source,
        ).symbols[j].start_byte,
    ensures
        built(lang, defs, refs, source).symbols[j].parent matches Some(p) && i <= p < j,
{
    let order = outermost_first(defs);
    lemma_outermost_len(defs);
    lemma_outermost_order();
    law_sorted_ordered(defs, rank::<RawDef>());
    assert forall|a: int, b: int| 0 <= a < b < order.len() implies (#[trigger] order[a]).start_byte <= (
    #[trigger] order[b]).start_byte by {
        assert(!rank::<RawDef>()(order[b], order[a]));
    }
    lemma_placed(order, source);
    lemma_stack(order, source);
    let symbols = placed(order, source).0;
    assert(symbols[i].end_byte > symbols[j].start_byte);
}

} // verus!
