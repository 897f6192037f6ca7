//! What planning a goal is for: whatever in the code resembles its words comes up.

use vstd::prelude::*;
use vstd::string::*;

use crate::goal::{
    forms_in, forms_of, forms_of_piece, has_symbol, pieces, stopword, stopwords, suggestion, suggestions, with_new,
    Placed,
};
use crate::graph::{listed_symbol, mentions};
use crate::inference_laws::lemma_moved;
use crate::model::{GoalV, SymbolV, TaskSuggestionV};
use crate::order::{deduped, law_sorted_keeps, sorted_texts};
use crate::rows::law_filter_has;
use crate::scan_laws::lemma_kept;
use crate::store::{first_where, law_first_where, StoreV};
use crate::text::{alphanumeric, ascii_lower, contains_text, find_from, lowercase, occurs_at, split, text_lt};

verus! {

broadcast use vstd::string::group_string_axioms;

/// Is a character part of a word?
pub open spec fn in_word(c: char) -> bool {
    alphanumeric(c) && c != ' '
}

/// Is `text[i..j]` a word: a run of letters and digits with none beside it?
pub open spec fn word_at(text: Seq<char>, i: int, j: int) -> bool {
    &&& 0 <= i <= j <= text.len()
    &&& forall|k: int| i <= k < j ==> in_word(#[trigger] text[k])
    &&& i > 0 ==> !in_word(text[i - 1])
    &&& j < text.len() ==> !in_word(text[j])
}

/// Is a word one that says nothing about code?
pub open spec fn says_nothing(w: Seq<char>) -> bool {
    w == "the"@ || w == "a"@ || w == "an"@ || w == "implement"@ || w == "add"@ || w == "support"@ || w
        == "for"@ || w == "and"@ || w == "to"@ || w == "of"@ || w == "in"@ || w == "on"@ || w
        == "with"@ || w == "build"@ || w == "create"@ || w == "make"@ || w == "new"@
}

/// Is a word looked for in this form: as it is, or without the ending of a plural?
pub open spec fn form_of(token: Seq<char>, form: Seq<char>) -> bool {
    ||| form == token
    ||| token == form + "es"@
    ||| token == form + "s"@ && !"es"@.is_suffix_of(token)
}

/// Is the form somewhere in the text, whatever the case of ASCII letters?
pub open spec fn occurs(text: Seq<char>, form: Seq<char>) -> bool {
    exists|i: int|
        0 <= i && i + form.len() <= text.len() && #[trigger] ascii_lower(text).subrange(i, i + form.len())
            == ascii_lower(form)
}

/// Is the form in a symbol's name, qualified name or path?
pub open spec fn resembles(x: SymbolV, form: Seq<char>) -> bool {
    occurs(x.name, form) || occurs(x.fqn, form) || occurs(x.path, form)
}

/// Is a symbol's handle in one of the suggestions?
pub open spec fn suggested(out: Seq<TaskSuggestionV>, handle: Seq<char>) -> bool {
    exists|k: int| 0 <= k < out.len() && (#[trigger] out[k]).symbols.contains(handle)
}

// ------------------------------------------------------------------------- words

proof fn lemma_last_piece(s: Seq<char>, c: char, i: int)
    requires
        0 <= i <= s.len(),
        i > 0 ==> s[i - 1] == c,
        forall|k: int| i <= k < s.len() ==> s[k] != c,
    ensures
        split(s, c).len() > 0,
        split(s, c).last() == s.skip(i),
    decreases s.len(),
{
    if s.len() == 0 {
        assert(s.skip(i) =~= Seq::empty());
    } else if i == s.len() {
        assert(s[i - 1] == s.last());
        assert(s.skip(i) =~= Seq::empty());
    } else {
        let init = s.drop_last();
        assert forall|k: int| i <= k < init.len() implies init[k] != c by {
            assert(init[k] == s[k]);
        }
        lemma_last_piece(init, c, i);
        assert(s[s.len() - 1] != c);
        assert(init.skip(i).push(s.last()) =~= s.skip(i));
    }
}

proof fn lemma_piece(s: Seq<char>, c: char, i: int, j: int) -> (n: int)
    requires
        0 <= i <= j < s.len(),
        i > 0 ==> s[i - 1] == c,
        forall|k: int| i <= k < j ==> s[k] != c,
        s[j] == c,
    ensures
        0 <= n < split(s, c).len() - 1,
        split(s, c)[n] == s.subrange(i, j),
    decreases s.len(),
{
    let init = s.drop_last();
    let before = split(init, c);
    if j == s.len() - 1 {
        assert forall|k: int| i <= k < init.len() implies init[k] != c by {
            assert(init[k] == s[k]);
        }
        lemma_last_piece(init, c, i);
        assert(init.skip(i) =~= s.subrange(i, j));
        before.len() - 1
    } else {
        let n = lemma_piece(init, c, i, j);
        assert(init.subrange(i, j) =~= s.subrange(i, j));
        n
    }
}

/// A word of a text is one of its pieces.
proof fn lemma_word_is_piece(text: Seq<char>, i: int, j: int)
    requires
        word_at(text, i, j),
    ensures
        pieces(text).contains(text.subrange(i, j)),
{
    let f = |c: char|
        if alphanumeric(c) {
            c
        } else {
            ' '
        };
    let s = text.map_values(f);
    assert forall|k: int| i <= k < j implies s[k] != ' ' by {
        assert(in_word(text[k]));
    }
    assert(s.subrange(i, j) =~= text.subrange(i, j)) by {
        assert forall|k: int| i <= k < j implies s[k] == text[k] by {
            assert(in_word(text[k]));
        }
    }
    if j < text.len() {
        let n = lemma_piece(s, ' ', i, j);
        assert(pieces(text)[n] == text.subrange(i, j));
    } else {
        lemma_last_piece(s, ' ', i);
        assert(s.skip(i) =~= s.subrange(i, j));
        assert(pieces(text)[pieces(text).len() - 1] == text.subrange(i, j));
    }
}

/// A word of the title or of the description is a word of what a goal says.
proof fn lemma_word_of_goal(s: StoreV, g: GoalV, text: Seq<char>, i: int, j: int)
    requires
        text == g.title || g.description == Some(text),
        word_at(text, i, j),
    ensures
        pieces(s.goal_text(g)).contains(text.subrange(i, j)),
{
    let all = s.goal_text(g);
    reveal_strlit(" ");
    if g.description is Some {
        let d = g.description->0;
        let n = g.title.len() as int;
        assert(all[n] == ' ');
        if text == g.title {
            assert(word_at(all, i, j)) by {
                assert forall|k: int| i <= k < j implies in_word(#[trigger] all[k]) by {
                    assert(all[k] == text[k]);
                }
            }
            lemma_word_is_piece(all, i, j);
            assert(all.subrange(i, j) =~= text.subrange(i, j));
        } else {
            let m = n + 1;
            assert(word_at(all, i + m, j + m)) by {
                assert forall|k: int| i + m <= k < j + m implies in_word(#[trigger] all[k]) by {
                    assert(all[k] == d[k - m]);
                    assert(in_word(text[k - m]));
                }
                if i > 0 {
                    assert(all[i + m - 1] == d[i - 1]);
                }
                if j < d.len() {
                    assert(all[j + m] == d[j]);
                }
            }
            lemma_word_is_piece(all, i + m, j + m);
            assert(all.subrange(i + m, j + m) =~= text.subrange(i, j));
        }
    } else {
        lemma_word_is_piece(all, i, j);
    }
}

proof fn lemma_forms_have(ps: Seq<Seq<char>>, k: int, form: Seq<char>)
    requires
        0 <= k < ps.len(),
        forms_of_piece(ps[k]).contains(form),
    ensures
        forms_in(ps).contains(form),
    decreases ps.len(),
{
    let before = forms_in(ps.drop_last());
    let more = forms_of_piece(ps.last());
    if k < ps.len() - 1 {
        lemma_forms_have(ps.drop_last(), k, form);
        let n = choose|n: int| 0 <= n < before.len() && before[n] == form;
        assert(forms_in(ps)[n] == form);
    } else {
        let n = choose|n: int| 0 <= n < more.len() && more[n] == form;
        assert(forms_in(ps)[before.len() + n] == form);
    }
}

proof fn lemma_stopwords(w: Seq<char>)
    ensures
        stopword(w) <==> says_nothing(w),
{
    let all = stopwords();
    if stopword(w) {
        let k = choose|k: int| 0 <= k < all.len() && all[k] == w;
    }
    if says_nothing(w) {
        assert(all[0] == "the"@ && all[1] == "a"@ && all[2] == "an"@ && all[3] == "implement"@ && all[4]
            == "add"@ && all[5] == "support"@ && all[6] == "for"@ && all[7] == "and"@ && all[8] == "to"@
            && all[9] == "of"@ && all[10] == "in"@ && all[11] == "on"@ && all[12] == "with"@ && all[13]
            == "build"@ && all[14] == "create"@ && all[15] == "make"@ && all[16] == "new"@);
    }
}

proof fn lemma_forms(token: Seq<char>, form: Seq<char>)
    ensures
        forms_of(token).contains(form) <==> form_of(token, form),
{
    reveal_strlit("es");
    reveal_strlit("s");
    let n = token.len() as int;
    let all = forms_of(token);
    assert(all[0] == token);
    if "es"@.is_suffix_of(token) {
        let short = token.take(n - 2);
        assert(all[1] == short);
        assert(short + "es"@ =~= token);
        if token == form + "es"@ {
            assert(form =~= short);
        }
        assert forall|k: int| 0 <= k < all.len() && all[k] == form implies form == token || form == short by {}
    } else if "s"@.is_suffix_of(token) {
        let short = token.take(n - 1);
        assert(all[1] == short);
        assert(short + "s"@ =~= token);
        if token == form + "s"@ {
            assert(form =~= short);
        }
        if token == form + "es"@ {
            assert("es"@ =~= token.skip(n - 2));
        }
    } else {
        if token == form + "es"@ {
            assert("es"@ =~= token.skip(n - 2));
        }
        if token == form + "s"@ {
            assert("s"@ =~= token.skip(n - 1));
        }
    }
}

// ----------------------------------------------------------------------- symbols

proof fn lemma_found(s: Seq<char>, p: Seq<char>, from: int, i: int)
    requires
        0 <= from <= i,
        occurs_at(s, p, i),
    ensures
        find_from(s, p, from) is Some,
    decreases i - from,
{
    if !occurs_at(s, p, from) {
        lemma_found(s, p, from + 1, i);
    }
}

proof fn lemma_found_at(s: Seq<char>, p: Seq<char>, from: int)
    requires
        0 <= from,
        find_from(s, p, from) is Some,
    ensures
        occurs_at(s, p, find_from(s, p, from)->0),
    decreases s.len() + 1 - from,
{
    if !occurs_at(s, p, from) {
        lemma_found_at(s, p, from + 1);
    }
}

proof fn lemma_occurs(text: Seq<char>, form: Seq<char>)
    ensures
        occurs(text, form) <==> contains_text(ascii_lower(text), ascii_lower(form)),
{
    let t = ascii_lower(text);
    let f = ascii_lower(form);
    if occurs(text, form) {
        let i = choose|i: int|
            0 <= i && i + form.len() <= text.len() && #[trigger] ascii_lower(text).subrange(
                i,
                i + form.len(),
            ) == ascii_lower(form);
        lemma_found(t, f, 0, i);
    }
    if contains_text(t, f) {
        lemma_found_at(t, f, 0);
        let i = find_from(t, f, 0)->0;
        assert(ascii_lower(text).subrange(i, i + form.len()) == ascii_lower(form));
    }
}

pub(crate) proof fn lemma_resembles(x: SymbolV, form: Seq<char>)
    ensures
        resembles(x, form) <==> mentions(x, form),
{
    lemma_occurs(x.name, form);
    lemma_occurs(x.fqn, form);
    lemma_occurs(x.path, form);
}

proof fn lemma_new_has(found: Seq<SymbolV>, more: Seq<SymbolV>, x: SymbolV)
    requires
        found.contains(x) || more.contains(x),
    ensures
        has_symbol(with_new(found, more), x.id),
        found.contains(x) ==> with_new(found, more).contains(x),
    decreases more.len(),
{
    let all = with_new(found, more);
    if more.len() == 0 {
        let k = choose|k: int| 0 <= k < found.len() && found[k] == x;
        assert(all[k].id == x.id);
    } else {
        let init = more.drop_last();
        let before = with_new(found, init);
        if found.contains(x) || init.contains(x) {
            lemma_new_has(found, init, x);
            let k = choose|k: int| 0 <= k < before.len() && (#[trigger] before[k]).id == x.id;
            assert(all[k].id == x.id);
            if found.contains(x) {
                let j = choose|j: int| 0 <= j < before.len() && before[j] == x;
                assert(all[j] == x);
            }
        } else {
            let k = choose|k: int| 0 <= k < more.len() && more[k] == x;
            if k < init.len() {
                assert(init[k] == x);
            }
            if has_symbol(before, more.last().id) {
                let j = choose|j: int| 0 <= j < before.len() && (#[trigger] before[j]).id == x.id;
                assert(all[j].id == x.id);
            } else {
                assert(all[before.len() as int].id == x.id);
            }
        }
    }
}

proof fn lemma_new_of(found: Seq<SymbolV>, more: Seq<SymbolV>, x: SymbolV)
    requires
        with_new(found, more).contains(x),
    ensures
        found.contains(x) || more.contains(x),
    decreases more.len(),
{
    if more.len() > 0 {
        let all = with_new(found, more);
        let before = with_new(found, more.drop_last());
        let k = choose|k: int| 0 <= k < all.len() && all[k] == x;
        if k < before.len() {
            assert(before[k] == x);
            lemma_new_of(found, more.drop_last(), x);
            if more.drop_last().contains(x) {
                let j = choose|j: int| 0 <= j < more.drop_last().len() && more.drop_last()[j] == x;
                assert(more[j] == x);
            }
        } else {
            assert(more[more.len() - 1] == x);
        }
    }
}

proof fn lemma_search_has(s: StoreV, forms: Seq<Seq<char>>, k: int, x: SymbolV)
    requires
        0 <= k < forms.len(),
        s.search(forms[k]).contains(x),
    ensures
        has_symbol(s.search_all(forms), x.id),
    decreases forms.len(),
{
    let before = s.search_all(forms.drop_last());
    let more = s.search(forms.last());
    if k < forms.len() - 1 {
        lemma_search_has(s, forms.drop_last(), k, x);
        let j = choose|j: int| 0 <= j < before.len() && (#[trigger] before[j]).id == x.id;
        assert(before.contains(before[j]));
        lemma_new_has(before, more, before[j]);
    } else {
        lemma_new_has(before, more, x);
    }
}

proof fn lemma_search_of(s: StoreV, forms: Seq<Seq<char>>, x: SymbolV) -> (k: int)
    requires
        s.search_all(forms).contains(x),
    ensures
        0 <= k < forms.len(),
        s.symbols.contains(x),
        mentions(x, forms[k]),
    decreases forms.len(),
{
    if forms.len() == 0 {
        0
    } else {
        let before = s.search_all(forms.drop_last());
        let more = s.search(forms.last());
        lemma_new_of(before, more, x);
        if before.contains(x) {
            lemma_search_of(s, forms.drop_last(), x)
        } else {
            let p = |y: SymbolV| listed_symbol(y, None, None, Some(forms.last()));
            let j = choose|j: int| 0 <= j < more.len() && more[j] == x;
            assert(s.symbols.filter(p)[j] == x);
            lemma_kept(s.symbols, p, j);
            s.symbols.lemma_filter_pred(p, j);
            forms.len() - 1
        }
    }
}

proof fn lemma_spread_has(s: StoreV, seeds: Seq<SymbolV>, depth: nat, k: int)
    requires
        0 <= k < seeds.len(),
    ensures
        s.spread(seeds, depth).contains(s.placed(seeds[k])),
        forall|j: int|
            0 <= j < s.impact(seeds[k].id, depth).len() ==> s.spread(seeds, depth).contains(
                s.placed((#[trigger] s.impact(seeds[k].id, depth)[j]).symbol),
            ),
    decreases seeds.len(),
{
    let before = s.spread(seeds.drop_last(), depth);
    let all = s.spread(seeds, depth);
    let reached = s.impact(seeds[k].id, depth);
    if k < seeds.len() - 1 {
        lemma_spread_has(s, seeds.drop_last(), depth, k);
        let n = choose|n: int| 0 <= n < before.len() && before[n] == s.placed(seeds[k]);
        assert(all[n] == s.placed(seeds[k]));
        assert forall|j: int| 0 <= j < reached.len() implies all.contains(
            s.placed((#[trigger] reached[j]).symbol),
        ) by {
            let m = choose|m: int| 0 <= m < before.len() && before[m] == s.placed(reached[j].symbol);
            assert(all[m] == s.placed(reached[j].symbol));
        }
    } else {
        assert(all[before.len() as int] == s.placed(seeds[k]));
        assert forall|j: int| 0 <= j < reached.len() implies all.contains(
            s.placed((#[trigger] reached[j]).symbol),
        ) by {
            assert(all[before.len() + 1 + j] == s.placed(reached[j].symbol));
        }
    }
}

proof fn lemma_spread_of(s: StoreV, seeds: Seq<SymbolV>, depth: nat, n: int) -> (k: int)
    requires
        0 <= n < s.spread(seeds, depth).len(),
    ensures
        0 <= k < seeds.len(),
        s.spread(seeds, depth)[n] == s.placed(seeds[k]) || exists|j: int|
            0 <= j < s.impact(seeds[k].id, depth).len() && s.spread(seeds, depth)[n] == s.placed(
                (#[trigger] s.impact(seeds[k].id, depth)[j]).symbol,
            ),
    decreases seeds.len(),
{
    let before = s.spread(seeds.drop_last(), depth);
    if n < before.len() {
        lemma_spread_of(s, seeds.drop_last(), depth, n)
    } else {
        let k = seeds.len() - 1;
        let reached = s.impact(seeds[k].id, depth);
        if n > before.len() {
            assert(s.spread(seeds, depth)[n] == s.placed(reached[n - before.len() - 1].symbol));
        }
        k
    }
}

pub(crate) proof fn lemma_deduped<V>(a: Seq<V>, x: V)
    ensures
        deduped(a).contains(x) <==> a.contains(x),
        a.len() > 0 ==> deduped(a).len() > 0 && deduped(a).last() == a.last(),
    decreases a.len(),
{
    if a.len() >= 2 {
        let init = a.drop_last();
        lemma_deduped(init, x);
        let d = deduped(init);
        let all = deduped(a);
        assert(init.last() == a[a.len() - 2]);
        if a.contains(x) {
            let k = choose|k: int| 0 <= k < a.len() && a[k] == x;
            if k < init.len() {
                assert(init[k] == x);
                let j = choose|j: int| 0 <= j < d.len() && d[j] == x;
                assert(all[j] == x);
            } else if a.last() == a[a.len() - 2] {
                assert(all[all.len() - 1] == x);
            } else {
                assert(all[d.len() as int] == x);
            }
        }
        if all.contains(x) {
            let j = choose|j: int| 0 <= j < all.len() && all[j] == x;
            if j < d.len() {
                assert(d[j] == x);
                let k = choose|k: int| 0 <= k < init.len() && init[k] == x;
                assert(a[k] == x);
            } else {
                assert(a[a.len() - 1] == x);
            }
        }
    }
}

proof fn lemma_sorted_texts(a: Seq<Seq<char>>, x: Seq<char>)
    ensures
        sorted_texts(a).contains(x) <==> a.contains(x),
{
    let f = |p: Seq<char>, q: Seq<char>| text_lt(p, q);
    law_sorted_keeps(a, f);
    if a.contains(x) {
        lemma_moved(a, sorted_texts(a), x);
    }
    if sorted_texts(a).contains(x) {
        lemma_moved(sorted_texts(a), a, x);
    }
}

proof fn lemma_suggested(ps: Seq<Placed>, k: int) -> (n: int)
    requires
        0 <= k < ps.len(),
    ensures
        0 <= n < suggestions(ps).len(),
        suggestions(ps)[n].title == "Update "@ + ps[k].label,
        suggestions(ps)[n].symbols.contains(ps[k].handle),
{
    let labels = ps.map_values(|p: Placed| p.label);
    let label = ps[k].label;
    assert(labels[k] == label);
    lemma_sorted_texts(labels, label);
    lemma_deduped(sorted_texts(labels), label);
    let all = deduped(sorted_texts(labels));
    let n = choose|n: int| 0 <= n < all.len() && all[n] == label;
    assert(suggestions(ps)[n] == suggestion(ps, label));
    let p = |q: Placed| q.label == label;
    law_filter_has(ps, p, ps[k]);
    let some = ps.filter(p);
    let j = choose|j: int| 0 <= j < some.len() && some[j] == ps[k];
    let handles = some.map_values(|q: Placed| q.handle);
    assert(handles[j] == ps[k].handle);
    lemma_sorted_texts(handles, ps[k].handle);
    lemma_deduped(sorted_texts(handles), ps[k].handle);
    n
}

proof fn lemma_suggestion_of(ps: Seq<Placed>, n: int, handle: Seq<char>) -> (k: int)
    requires
        0 <= n < suggestions(ps).len(),
        suggestions(ps)[n].symbols.contains(handle),
    ensures
        0 <= k < ps.len(),
        ps[k].handle == handle,
        suggestions(ps)[n].title == "Update "@ + ps[k].label,
{
    let labels = ps.map_values(|p: Placed| p.label);
    let label = deduped(sorted_texts(labels))[n];
    let p = |q: Placed| q.label == label;
    let some = ps.filter(p);
    let handles = some.map_values(|q: Placed| q.handle);
    lemma_deduped(sorted_texts(handles), handle);
    lemma_sorted_texts(handles, handle);
    let j = choose|j: int| 0 <= j < handles.len() && handles[j] == handle;
    lemma_kept(ps, p, j);
    ps.lemma_filter_pred(p, j);
    choose|k: int| 0 <= k < ps.len() && ps[k] == some[j]
}

// -------------------------------------------------------------------------- laws

/// What a plan is grouped by: the nearest service around a symbol, or its file where
/// there is none.
pub open spec fn grouped_under(s: StoreV, x: SymbolV, label: Seq<char>) -> bool {
    let around = s.ancestors(x.id);
    ||| (forall|i: int| 0 <= i < around.len() ==> !((#[trigger] around[i]).kind is Service)) && label == x.path
    ||| exists|i: int|
        0 <= i < around.len() && (#[trigger] around[i]).kind is Service && around[i].name == label && forall|
            j: int,
        |
            0 <= j < i ==> !((#[trigger] around[j]).kind is Service)
}

proof fn lemma_first_is_first<T>(a: Seq<T>, p: spec_fn(T) -> bool) -> (i: int)
    requires
        first_where(a, p) is Some,
    ensures
        0 <= i < a.len(),
        a[i] == first_where(a, p)->0,
        p(a[i]),
        forall|j: int| 0 <= j < i ==> !p(#[trigger] a[j]),
    decreases a.len(),
{
    if p(a[0]) {
        0
    } else {
        let i = lemma_first_is_first(a.drop_first(), p) + 1;
        assert forall|j: int| 0 <= j < i implies !p(#[trigger] a[j]) by {
            if j > 0 {
                assert(a.drop_first()[j - 1] == a[j]);
            }
        }
        i
    }
}

proof fn lemma_label(s: StoreV, x: SymbolV)
    ensures
        grouped_under(s, x, s.group_label(x)),
{
    let around = s.ancestors(x.id);
    let p = |a: SymbolV| a.kind is Service;
    law_first_where(around, p);
    if first_where(around, p) is Some {
        let i = lemma_first_is_first(around, p);
        assert(around[i].kind is Service);
        assert forall|j: int| 0 <= j < i implies !((#[trigger] around[j]).kind is Service) by {
            assert(!p(around[j]));
        }
    } else {
        assert forall|i: int| 0 <= i < around.len() implies !((#[trigger] around[i]).kind is Service) by {
            assert(!p(around[i]));
        }
    }
}

/// What in the code resembles a word of a goal's title or description comes up in the
/// goal's plan, under the service that it is in, and so does everything that changing
/// it reaches. The word has three bytes or more and says something; it is looked for in
/// small letters, and also without the ending of a plural. No more than fifty symbols
/// come up for one form.
pub proof fn law_plan_covers_the_words(
    s: StoreV,
    g: GoalV,
    depth: nat,
    text: Seq<char>,
    i: int,
    j: int,
    form: Seq<char>,
    x: SymbolV,
)
    requires
        text == g.title || g.description == Some(text),
        word_at(text, i, j),
        vstd::utf8::encode_utf8(lowercase(text.subrange(i, j))).len() >= 3,
        vstd::utf8::encode_utf8(lowercase(text.subrange(i, j))).len() <= usize::MAX,
        !says_nothing(lowercase(text.subrange(i, j))),
        form_of(lowercase(text.subrange(i, j)), form),
        s.symbols.contains(x),
        resembles(x, form),
        s.symbols.filter(|y: SymbolV| resembles(y, form)).len() <= 50,
        forall|a: int, b: int|
            0 <= a < s.symbols.len() && 0 <= b < s.symbols.len() && (#[trigger] s.symbols[a]).id == (
            #[trigger] s.symbols[b]).id ==> a == b,
    ensures
        ({
            let out = s.cluster(s.keyword_match(s.goal_text(g)), depth);
            &&& exists|k: int, label: Seq<char>|
                0 <= k < out.len() && #[trigger] grouped_under(s, x, label) && (#[trigger] out[k]).title
                    == "Update "@ + label && out[k].symbols.contains(x.handle())
            &&& forall|n: int|
                0 <= n < s.impact(x.id, depth).len() ==> suggested(
                    out,
                    (#[trigger] s.impact(x.id, depth)[n]).symbol.handle(),
                )
        }),
{
    let w = text.subrange(i, j);
    let token = lowercase(w);
    let all = pieces(s.goal_text(g));
    lemma_word_of_goal(s, g, text, i, j);
    let k = choose|k: int| 0 <= k < all.len() && all[k] == w;
    lemma_stopwords(token);
    lemma_forms(token, form);
    lemma_forms_have(all, k, form);
    let forms = forms_in(all);
    let n = choose|n: int| 0 <= n < forms.len() && forms[n] == form;
    let p = |y: SymbolV| listed_symbol(y, None, None, Some(form));
    let q = |y: SymbolV| resembles(y, form);
    assert forall|y: SymbolV| #[trigger] p(y) == q(y) by {
        lemma_resembles(y, form);
    }
    assert(p =~= q);
    assert(s.matching(None, None, Some(form)) == s.symbols.filter(p));
    law_filter_has(s.symbols, p, x);
    let found = s.symbols.filter(p);
    let h = choose|h: int| 0 <= h < found.len() && found[h] == x;
    assert(s.search(form) =~= found);
    lemma_search_has(s, forms, n, x);
    let seeds = s.keyword_match(s.goal_text(g));
    let m = choose|m: int| 0 <= m < seeds.len() && (#[trigger] seeds[m]).id == x.id;
    assert(seeds.contains(seeds[m]));
    let u = lemma_search_of(s, forms, seeds[m]);
    let a = choose|a: int| 0 <= a < s.symbols.len() && s.symbols[a] == seeds[m];
    let b = choose|b: int| 0 <= b < s.symbols.len() && s.symbols[b] == x;
    assert(s.symbols[a].id == s.symbols[b].id);
    assert(seeds[m] == x);
    lemma_spread_has(s, seeds, depth, m);
    let ps = s.spread(seeds, depth);
    let out = s.cluster(seeds, depth);
    let c = choose|c: int| 0 <= c < ps.len() && ps[c] == s.placed(x);
    let o = lemma_suggested(ps, c);
    lemma_label(s, x);
    assert(grouped_under(s, x, s.group_label(x)) && out[o].title == "Update "@ + s.group_label(x));
    assert forall|v: int| 0 <= v < s.impact(x.id, depth).len() implies suggested(
        out,
        (#[trigger] s.impact(x.id, depth)[v]).symbol.handle(),
    ) by {
        let y = s.impact(x.id, depth)[v].symbol;
        let d = choose|d: int| 0 <= d < ps.len() && ps[d] == s.placed(y);
        let e = lemma_suggested(ps, d);
        assert(out[e].symbols.contains(y.handle()));
    }
}

/// Planning from a symbol brings up the symbol and everything that changing it reaches,
/// under the services that they are in.
pub proof fn law_suggestions_cover_the_impact(s: StoreV, x: SymbolV, depth: nat)
    ensures
        ({
            let out = s.cluster(seq![x], depth);
            &&& exists|k: int, label: Seq<char>|
                0 <= k < out.len() && #[trigger] grouped_under(s, x, label) && (#[trigger] out[k]).title
                    == "Update "@ + label && out[k].symbols.contains(x.handle())
            &&& forall|n: int|
                0 <= n < s.impact(x.id, depth).len() ==> suggested(
                    out,
                    (#[trigger] s.impact(x.id, depth)[n]).symbol.handle(),
                )
        }),
{
    let seeds = seq![x];
    let ps = s.spread(seeds, depth);
    let out = s.cluster(seeds, depth);
    lemma_spread_has(s, seeds, depth, 0);
    let c = choose|c: int| 0 <= c < ps.len() && ps[c] == s.placed(x);
    let o = lemma_suggested(ps, c);
    lemma_label(s, x);
    assert(grouped_under(s, x, s.group_label(x)) && out[o].title == "Update "@ + s.group_label(x));
    assert forall|v: int| 0 <= v < s.impact(x.id, depth).len() implies suggested(
        out,
        (#[trigger] s.impact(x.id, depth)[v]).symbol.handle(),
    ) by {
        let y = s.impact(x.id, depth)[v].symbol;
        let d = choose|d: int| 0 <= d < ps.len() && ps[d] == s.placed(y);
        let e = lemma_suggested(ps, d);
        assert(out[e].symbols.contains(y.handle()));
    }
}

/// Nothing else is suggested: every handle in a plan is that of a seed, or of something
/// that changing a seed reaches.
pub proof fn law_suggestions_are_related(s: StoreV, seeds: Seq<SymbolV>, depth: nat, n: int, handle: Seq<char>)
    requires
        0 <= n < s.cluster(seeds, depth).len(),
        s.cluster(seeds, depth)[n].symbols.contains(handle),
    ensures
        exists|k: int|
            0 <= k < seeds.len() && ((#[trigger] seeds[k]).handle() == handle || exists|j: int|
                0 <= j < s.impact(seeds[k].id, depth).len() && (#[trigger] s.impact(
                    seeds[k].id,
                    depth,
                )[j]).symbol.handle() == handle),
{
    let ps = s.spread(seeds, depth);
    let c = lemma_suggestion_of(ps, n, handle);
    let k = lemma_spread_of(s, seeds, depth, c);
    assert(ps[c].handle == handle);
    if ps[c] == s.placed(seeds[k]) {
        assert(seeds[k].handle() == handle);
    } else {
        let j = choose|j: int|
            0 <= j < s.impact(seeds[k].id, depth).len() && ps[c] == s.placed(
                (#[trigger] s.impact(seeds[k].id, depth)[j]).symbol,
            );
        assert(s.impact(seeds[k].id, depth)[j].symbol.handle() == handle);
    }
}

} // verus!
