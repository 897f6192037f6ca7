//! Which import specifiers a source has.

use vstd::prelude::*;
use vstd::string::*;

use crate::imports::{import_in, imports_in, last_named, listed, once, unquoted, RawImport, RawImportV};
use crate::order::{law_sorted_keeps, law_sorted_ordered, rank, sorted, weak_order};
use crate::parse::CaptureV;
use crate::text::{trim_end, trim_start, trimmed, trimmed_of, white};

verus! {

broadcast use vstd::string::group_string_axioms;

/// Is it a character that may stand around a specifier: white space, a quote, or an
/// angle bracket?
pub open spec fn surrounds(c: char) -> bool {
    white(c) || c == '"' || c == '\'' || c == '`' || c == '<' || c == '>'
}

/// Is it a specifier with nothing around it?
pub open spec fn is_specifier(q: Seq<char>) -> bool {
    q.len() > 0 && !surrounds(q[0]) && !surrounds(q.last())
}

/// Is a text a specifier as a source writes it: bare, quoted in one of three ways, or in
/// angle brackets?
pub open spec fn writes(t: Seq<char>, q: Seq<char>) -> bool {
    ||| t == q
    ||| t == "\""@ + q + "\""@
    ||| t == "'"@ + q + "'"@
    ||| t == "`"@ + q + "`"@
    ||| t == "<"@ + q + ">"@
}

/// Is it the capture that a match has under a name? The last one counts.
pub open spec fn captures(m: Seq<CaptureV>, name: Seq<char>, k: int) -> bool {
    &&& 0 <= k < m.len()
    &&& m[k].name == name
    &&& forall|j: int| k < j < m.len() ==> (#[trigger] m[j]).name != name
}

/// Is a match an import? One that names what is called is one only where that is
/// `require` or `import`.
pub open spec fn imports_something(m: Seq<CaptureV>) -> bool {
    ||| forall|j: int| 0 <= j < m.len() ==> (#[trigger] m[j]).name != "callee"@
    ||| exists|j: int|
        #[trigger] captures(m, "callee"@, j) && (m[j].text == Some("require"@) || m[j].text == Some("import"@))
}

proof fn lemma_last_named(m: Seq<CaptureV>, name: Seq<char>)
    ensures
        forall|k: int| #[trigger] captures(m, name, k) ==> last_named(m, name) == Some(m[k]),
        last_named(m, name) is Some ==> exists|k: int| #[trigger] captures(m, name, k),
        last_named(m, name) is None <==> forall|j: int| 0 <= j < m.len() ==> (#[trigger] m[j]).name != name,
    decreases m.len(),
{
    if m.len() > 0 {
        let init = m.drop_last();
        let n = m.len() - 1;
        lemma_last_named(init, name);
        assert forall|k: int| 0 <= k < n implies m[k] == #[trigger] init[k] by {}
        if m.last().name == name {
            assert(captures(m, name, n));
            assert(m[n].name == name);
            assert forall|k: int| #[trigger] captures(m, name, k) implies last_named(m, name) == Some(m[k]) by {
                if k < n {
                    assert(m[n].name != name);
                }
            }
        } else {
            assert forall|k: int| #[trigger] captures(m, name, k) implies last_named(m, name) == Some(m[k]) by {
                assert(captures(init, name, k)) by {
                    assert forall|j: int| k < j < init.len() implies (#[trigger] init[j]).name != name by {
                        assert(m[j] == init[j]);
                    }
                }
            }
            if last_named(init, name) is Some {
                let k = choose|k: int| #[trigger] captures(init, name, k);
                assert(captures(m, name, k)) by {
                    assert forall|j: int| k < j < m.len() implies (#[trigger] m[j]).name != name by {
                        if j < n {
                            assert(m[j] == init[j]);
                        }
                    }
                }
            } else {
                assert forall|j: int| 0 <= j < m.len() implies (#[trigger] m[j]).name != name by {
                    if j < n {
                        assert(m[j] == init[j]);
                    }
                }
            }
        }
    }
}

proof fn lemma_quotes()
    ensures
        forall|c: char|
            #[trigger] "\"'`<>"@.contains(c) <==> c == '"' || c == '\'' || c == '`' || c == '<' || c == '>',
{
    reveal_strlit("\"'`<>");
    let s = "\"'`<>"@;
    assert(s[0] == '"' && s[1] == '\'' && s[2] == '`' && s[3] == '<' && s[4] == '>');
    assert(s.len() == 5);
    assert forall|c: char| #[trigger] s.contains(c) implies c == '"' || c == '\'' || c == '`' || c == '<' || c
        == '>' by {
        let k = choose|k: int| 0 <= k < s.len() && s[k] == c;
        assert(k == 0 || k == 1 || k == 2 || k == 3 || k == 4);
    }
}

proof fn lemma_bare(q: Seq<char>)
    requires
        is_specifier(q),
    ensures
        unquoted(q) == q,
{
    lemma_quotes();
    let set = "\"'`<>"@;
    let w = |c: char| white(c);
    let f = |c: char| set.contains(c);
    assert(!set.contains(q[0]) && !set.contains(q.last()));
    assert(trim_start(q, w) == q && trim_end(q, w) == q);
    assert(trim_start(q, f) == q && trim_end(q, f) == q);
    assert(trimmed(q) == q);
    assert(trimmed_of(q, set) == q);
}

proof fn lemma_between(q: Seq<char>, a: char, b: char)
    requires
        is_specifier(q),
        !white(a),
        !white(b),
        "\"'`<>"@.contains(a),
        "\"'`<>"@.contains(b),
    ensures
        unquoted(seq![a] + q + seq![b]) == q,
{
    lemma_quotes();
    let set = "\"'`<>"@;
    let t = seq![a] + q + seq![b];
    let w = |c: char| white(c);
    let f = |c: char| set.contains(c);
    assert(t[0] == a && t.last() == b);
    assert(trim_start(t, w) == t && trim_end(t, w) == t);
    let u = q + seq![b];
    assert(t.drop_first() =~= u);
    assert(u[0] == q[0]);
    assert(!set.contains(q[0]) && !set.contains(q.last()));
    assert(trim_start(u, f) == u);
    assert(trim_start(t, f) == u);
    assert(u.last() == b);
    assert(u.drop_last() =~= q);
    assert(trim_end(q, f) == q);
    assert(trim_end(u, f) == q);
    assert(trimmed_of(t, set) == q);
    assert(trim_start(q, w) == q && trim_end(q, w) == q);
}

proof fn lemma_writes(t: Seq<char>, q: Seq<char>)
    requires
        is_specifier(q),
        writes(t, q),
    ensures
        unquoted(t) == q,
{
    reveal_strlit("\"");
    reveal_strlit("'");
    reveal_strlit("`");
    reveal_strlit("<");
    reveal_strlit(">");
    lemma_quotes();
    assert("\""@ =~= seq!['"']);
    assert("'"@ =~= seq!['\'']);
    assert("`"@ =~= seq!['`']);
    assert("<"@ =~= seq!['<']);
    assert(">"@ =~= seq!['>']);
    lemma_bare(q);
    lemma_between(q, '"', '"');
    lemma_between(q, '\'', '\'');
    lemma_between(q, '`', '`');
    lemma_between(q, '<', '>');
}

/// Does a text hold a piece, with nothing but white space, quotes and angle brackets
/// around it?
pub open spec fn holds(t: Seq<char>, q: Seq<char>) -> bool {
    exists|a: int, b: int|
        0 <= a <= b <= t.len() && q == #[trigger] t.subrange(a, b) && forall|k: int|
            0 <= k < a || b <= k < t.len() ==> surrounds(#[trigger] t[k])
}

proof fn lemma_trim_start_holds(s: Seq<char>, f: spec_fn(char) -> bool)
    requires
        forall|c: char| #[trigger] f(c) ==> surrounds(c),
    ensures
        exists|a: int|
            0 <= a <= s.len() && trim_start(s, f) == #[trigger] s.subrange(a, s.len() as int) && forall|k: int|
                0 <= k < a ==> surrounds(#[trigger] s[k]),
    decreases s.len(),
{
    if s.len() > 0 && f(s[0]) {
        let t = s.drop_first();
        lemma_trim_start_holds(t, f);
        let a = choose|a: int|
            0 <= a <= t.len() && trim_start(t, f) == #[trigger] t.subrange(a, t.len() as int) && forall|k: int|
                0 <= k < a ==> surrounds(#[trigger] t[k]);
        assert(s.subrange(a + 1, s.len() as int) =~= t.subrange(a, t.len() as int));
        assert forall|k: int| 0 <= k < a + 1 implies surrounds(#[trigger] s[k]) by {
            if k > 0 {
                assert(t[k - 1] == s[k]);
            }
        }
    } else {
        assert(s.subrange(0, s.len() as int) =~= s);
    }
}

proof fn lemma_trim_end_holds(s: Seq<char>, f: spec_fn(char) -> bool)
    requires
        forall|c: char| #[trigger] f(c) ==> surrounds(c),
    ensures
        exists|b: int|
            0 <= b <= s.len() && trim_end(s, f) == #[trigger] s.subrange(0, b) && forall|k: int|
                b <= k < s.len() ==> surrounds(#[trigger] s[k]),
    decreases s.len(),
{
    if s.len() > 0 && f(s.last()) {
        let t = s.drop_last();
        lemma_trim_end_holds(t, f);
        let b = choose|b: int|
            0 <= b <= t.len() && trim_end(t, f) == #[trigger] t.subrange(0, b) && forall|k: int|
                b <= k < t.len() ==> surrounds(#[trigger] t[k]);
        assert(s.subrange(0, b) =~= t.subrange(0, b));
        assert forall|k: int| b <= k < s.len() implies surrounds(#[trigger] s[k]) by {
            if k < t.len() {
                assert(t[k] == s[k]);
            }
        }
    } else {
        assert(s.subrange(0, s.len() as int) =~= s);
    }
}

proof fn lemma_holds_both(s: Seq<char>, f: spec_fn(char) -> bool)
    requires
        forall|c: char| #[trigger] f(c) ==> surrounds(c),
    ensures
        holds(s, trim_end(trim_start(s, f), f)),
{
    lemma_trim_start_holds(s, f);
    let n = s.len() as int;
    let a = choose|a: int|
        0 <= a <= s.len() && trim_start(s, f) == #[trigger] s.subrange(a, n) && forall|k: int|
            0 <= k < a ==> surrounds(#[trigger] s[k]);
    let t = s.subrange(a, n);
    lemma_trim_end_holds(t, f);
    let b = choose|b: int|
        0 <= b <= t.len() && trim_end(t, f) == #[trigger] t.subrange(0, b) && forall|k: int|
            b <= k < t.len() ==> surrounds(#[trigger] t[k]);
    assert(s.subrange(a, a + b) =~= t.subrange(0, b));
    assert forall|k: int| 0 <= k < a || a + b <= k < n implies surrounds(#[trigger] s[k]) by {
        if k >= a {
            assert(t[k - a] == s[k]);
        }
    }
}

proof fn lemma_holds_again(t: Seq<char>, p: Seq<char>, q: Seq<char>)
    requires
        holds(t, p),
        holds(p, q),
    ensures
        holds(t, q),
{
    let (a, b) = choose|a: int, b: int|
        0 <= a <= b <= t.len() && p == #[trigger] t.subrange(a, b) && forall|k: int|
            0 <= k < a || b <= k < t.len() ==> surrounds(#[trigger] t[k]);
    let (c, d) = choose|c: int, d: int|
        0 <= c <= d <= p.len() && q == #[trigger] p.subrange(c, d) && forall|k: int|
            0 <= k < c || d <= k < p.len() ==> surrounds(#[trigger] p[k]);
    assert(t.subrange(a + c, a + d) =~= q);
    assert forall|k: int| 0 <= k < a + c || a + d <= k < t.len() implies surrounds(#[trigger] t[k]) by {
        if a <= k < b {
            assert(p[k - a] == t[k]);
        }
    }
}

proof fn lemma_unquoted_holds(t: Seq<char>)
    ensures
        holds(t, unquoted(t)),
{
    lemma_quotes();
    let set = "\"'`<>"@;
    let w = |c: char| white(c);
    let f = |c: char| set.contains(c);
    lemma_holds_both(t, w);
    let p = trimmed(t);
    lemma_holds_both(p, f);
    let r = trimmed_of(p, set);
    lemma_holds_both(r, w);
    lemma_holds_again(t, p, r);
    lemma_holds_again(t, r, trimmed(r));
}

proof fn lemma_imports_in(ms: Seq<Seq<CaptureV>>)
    ensures
        forall|i: int|
            0 <= i < ms.len() && import_in(#[trigger] ms[i]) is Some ==> imports_in(ms).contains(
                import_in(ms[i])->0,
            ),
        forall|n: int|
            0 <= n < imports_in(ms).len() ==> exists|i: int|
                0 <= i < ms.len() && import_in(#[trigger] ms[i]) == Some(#[trigger] imports_in(ms)[n]),
    decreases ms.len(),
{
    if ms.len() > 0 {
        let init = ms.drop_last();
        let last = ms.len() - 1;
        lemma_imports_in(init);
        let before = imports_in(init);
        let all = imports_in(ms);
        assert forall|i: int| 0 <= i < ms.len() && import_in(#[trigger] ms[i]) is Some implies all.contains(
            import_in(ms[i])->0,
        ) by {
            if i < last {
                assert(init[i] == ms[i]);
                let x = import_in(ms[i])->0;
                assert(before.contains(x));
                let n = choose|n: int| 0 <= n < before.len() && before[n] == x;
                assert(all[n] == x);
            } else {
                assert(all[all.len() - 1] == import_in(ms[i])->0);
            }
        }
        assert forall|n: int| 0 <= n < all.len() implies exists|i: int|
            0 <= i < ms.len() && import_in(#[trigger] ms[i]) == Some(#[trigger] all[n]) by {
            if n < before.len() {
                assert(all[n] == before[n]);
                let i = choose|i: int| 0 <= i < init.len() && import_in(#[trigger] init[i]) == Some(before[n]);
                assert(ms[i] == init[i]);
            } else {
                assert(import_in(ms[last]) == Some(all[n]));
            }
        }
    }
}

/// Do the places never go back?
pub open spec fn goes_on(s: Seq<RawImportV>) -> bool {
    forall|i: int, j: int| 0 <= i < j < s.len() ==> (#[trigger] s[i]).byte <= (#[trigger] s[j]).byte
}

proof fn lemma_goes_on(s: Seq<RawImportV>)
    requires
        s.len() > 0,
        goes_on(s),
    ensures
        goes_on(s.drop_last()),
        s.len() >= 2 ==> s[s.len() - 2].byte <= s.last().byte,
{
    let init = s.drop_last();
    assert forall|i: int, j: int| 0 <= i < j < init.len() implies (#[trigger] init[i]).byte <= (
    #[trigger] init[j]).byte by {
        assert(init[i] == s[i] && init[j] == s[j]);
    }
    if s.len() >= 2 {
        assert(s[s.len() - 2].byte <= s[s.len() - 1].byte);
    }
}

proof fn lemma_once(s: Seq<RawImportV>)
    requires
        goes_on(s),
    ensures
        goes_on(once(s)),
        s.len() > 0 ==> once(s).len() > 0 && once(s).last().specifier == s.last().specifier && once(s).last().byte
            <= s.last().byte,
        forall|n: int, h: int| 0 <= n && h == n + 1 && h < once(s).len() ==> (#[trigger] once(s)[n]).specifier
            != (#[trigger] once(s)[h]).specifier,
    decreases s.len(),
{
    if s.len() >= 2 {
        let init = s.drop_last();
        lemma_goes_on(s);
        lemma_once(init);
        let before = once(init);
        let all = once(s);
        assert(init.last() == s[s.len() - 2]);
        if s.last().specifier != s[s.len() - 2].specifier {
            assert forall|i: int, j: int| 0 <= i < j < all.len() implies (#[trigger] all[i]).byte <= (
            #[trigger] all[j]).byte by {
                assert(all[i] == before[i]);
                if j == before.len() {
                    assert(i < before.len() - 1 ==> before[i].byte <= before[before.len() - 1].byte);
                } else {
                    assert(all[j] == before[j]);
                }
            }
        }
    }
}

proof fn lemma_once_from(s: Seq<RawImportV>, n: int)
    requires
        0 <= n < once(s).len(),
    ensures
        s.contains(once(s)[n]),
    decreases s.len(),
{
    if s.len() < 2 {
        assert(s[n] == once(s)[n]);
    } else {
        let init = s.drop_last();
        let before = once(init);
        if n < before.len() {
            lemma_once_from(init, n);
            let i = choose|i: int| 0 <= i < init.len() && init[i] == before[n];
            assert(s[i] == once(s)[n]);
        } else {
            assert(s[s.len() - 1] == once(s)[n]);
        }
    }
}

/// Is the specifier listed here or earlier?
spec fn is_listed(s: Seq<RawImportV>, x: RawImportV, n: int) -> bool {
    0 <= n < s.len() && s[n].specifier == x.specifier && s[n].byte <= x.byte
}

proof fn lemma_once_has(s: Seq<RawImportV>, i: int) -> (n: int)
    requires
        goes_on(s),
        0 <= i < s.len(),
    ensures
        is_listed(once(s), s[i], n),
    decreases s.len(),
{
    if s.len() < 2 {
        i
    } else {
        let init = s.drop_last();
        lemma_goes_on(s);
        if i < s.len() - 1 {
            let n = lemma_once_has(init, i);
            assert(init[i] == s[i]);
            assert(once(s)[n] == once(init)[n]);
            n
        } else {
            lemma_once(s);
            once(s).len() - 1
        }
    }
}

proof fn lemma_order(ms: Seq<Seq<CaptureV>>)
    ensures
        goes_on(sorted(imports_in(ms), rank::<RawImport>())),
        forall|x: RawImportV|
            #[trigger] sorted(imports_in(ms), rank::<RawImport>()).contains(x) <==> imports_in(ms).contains(x),
{
    broadcast use vstd::seq_lib::group_to_multiset_ensures;

    let s = imports_in(ms);
    let r = rank::<RawImport>();
    assert(weak_order(r));
    law_sorted_keeps(s, r);
    law_sorted_ordered(s, r);
    let o = sorted(s, r);
    assert forall|x: RawImportV| #[trigger] o.contains(x) <==> s.contains(x) by {
        assert(o.contains(x) <==> o.to_multiset().count(x) > 0);
        assert(s.contains(x) <==> s.to_multiset().count(x) > 0);
    }
    assert forall|i: int, j: int| 0 <= i < j < o.len() implies (#[trigger] o[i]).byte <= (#[trigger] o[j]).byte by {
        assert(!r(o[j], o[i]));
    }
}

proof fn lemma_imports(m: Seq<CaptureV>)
    ensures
        imports_something(m) ==> match last_named(m, "callee"@) {
            Some(c) => c.text == Some("require"@) || c.text == Some("import"@),
            None => true,
        },
        (match last_named(m, "callee"@) {
            Some(c) => c.text == Some("require"@) || c.text == Some("import"@),
            None => true,
        }) ==> imports_something(m),
{
    lemma_last_named(m, "callee"@);
    if last_named(m, "callee"@) is Some {
        let k = choose|k: int| #[trigger] captures(m, "callee"@, k);
        assert(captures(m, "callee"@, k));
        assert(m[k].name == "callee"@);
        assert(last_named(m, "callee"@) == Some(m[k]));
    }
}

/// Every import of a source is listed, at the place where it stands or at an earlier one
/// with the same specifier.
pub proof fn law_imports_are_listed(ms: Seq<Seq<CaptureV>>, i: int, k: int, q: Seq<char>)
    requires
        0 <= i < ms.len(),
        imports_something(ms[i]),
        captures(ms[i], "module"@, k),
        ms[i][k].text is Some,
        writes(ms[i][k].text->0, q),
        is_specifier(q),
    ensures
        exists|n: int|
            0 <= n < listed(ms).len() && #[trigger] listed(ms)[n].specifier == q && listed(ms)[n].byte
                <= ms[i][k].start_byte,
{
    let m = ms[i];
    lemma_imports(m);
    lemma_last_named(m, "module"@);
    lemma_writes(m[k].text->0, q);
    let x = RawImportV { specifier: q, byte: m[k].start_byte };
    assert(import_in(m) == Some(x));
    lemma_imports_in(ms);
    assert(imports_in(ms).contains(x));
    lemma_order(ms);
    let o = sorted(imports_in(ms), rank::<RawImport>());
    assert(o.contains(x));
    let h = choose|h: int| 0 <= h < o.len() && o[h] == x;
    let n = lemma_once_has(o, h);
    assert(listed(ms)[n].specifier == q);
}

/// What is listed stands in the source: in a match that is an import, at that place, as
/// its text without what stands around it.
pub proof fn law_listed_imports_are_there(ms: Seq<Seq<CaptureV>>, n: int)
    requires
        0 <= n < listed(ms).len(),
    ensures
        listed(ms)[n].specifier.len() > 0,
        exists|i: int, k: int|
            0 <= i < ms.len() && imports_something(ms[i]) && #[trigger] captures(ms[i], "module"@, k)
                && ms[i][k].start_byte == listed(ms)[n].byte && ms[i][k].text is Some && holds(
                ms[i][k].text->0,
                listed(ms)[n].specifier,
            ),
{
    reveal_strlit("require");
    reveal_strlit("import");
    lemma_imports_in(ms);
    lemma_order(ms);
    let o = sorted(imports_in(ms), rank::<RawImport>());
    let x = listed(ms)[n];
    lemma_once_from(o, n);
    assert(o.contains(x));
    assert(imports_in(ms).contains(x));
    let h = choose|h: int| 0 <= h < imports_in(ms).len() && imports_in(ms)[h] == x;
    let i = choose|i: int| 0 <= i < ms.len() && import_in(#[trigger] ms[i]) == Some(imports_in(ms)[h]);
    let m = ms[i];
    lemma_imports(m);
    lemma_last_named(m, "module"@);
    let k = choose|k: int| #[trigger] captures(m, "module"@, k);
    assert(last_named(m, "module"@) == Some(m[k]));
    assert(m[k].text is Some) by {
        if m[k].text is None {
            lemma_unquoted_holds(Seq::<char>::empty());
        }
    }
    lemma_unquoted_holds(m[k].text->0);
    assert(captures(ms[i], "module"@, k));
}

/// Imports are listed in the order of the source, and none twice in a row.
pub proof fn law_listed_in_order(ms: Seq<Seq<CaptureV>>, n: int)
    requires
        0 <= n,
        n + 1 < listed(ms).len(),
    ensures
        listed(ms)[n].byte <= listed(ms)[n + 1].byte,
        listed(ms)[n].specifier != listed(ms)[n + 1].specifier,
{
    lemma_order(ms);
    lemma_once(sorted(imports_in(ms), rank::<RawImport>()));
}

} // verus!
