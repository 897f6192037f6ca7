//! What SQL says of tables.

use vstd::prelude::*;
use vstd::string::*;

use crate::lookup_laws::lemma_after;
use crate::sql::{law_definition_wins, place_of, table_in, table_name, tables_in, FoundV};
use crate::text::{after_last, ascii_lower, trim_end, trim_start, trimmed, trimmed_of, white};

verus! {

broadcast use vstd::string::group_string_axioms;

/// Is it a table's name with nothing around it?
pub open spec fn is_table_name(q: Seq<char>) -> bool {
    &&& q.len() > 0
    &&& !q.contains('.')
    &&& bare(q[0])
    &&& bare(q.last())
}

/// Is it neither white space nor a quote nor a bracket?
pub open spec fn bare(c: char) -> bool {
    !white(c) && c != '"' && c != '`' && c != '[' && c != ']'
}

/// Is a name another in small letters?
pub open spec fn is_small(n: Seq<char>, q: Seq<char>) -> bool {
    &&& n.len() == q.len()
    &&& forall|k: int|
        0 <= k < q.len() ==> if 'A' <= q[k] && q[k] <= 'Z' {
            (#[trigger] n[k]) as u32 == q[k] as u32 + 32
        } else {
            n[k] == q[k]
        }
}

proof fn lemma_around()
    ensures
        forall|c: char| #[trigger] "\"`[]"@.contains(c) <==> c == '"' || c == '`' || c == '[' || c == ']',
{
    reveal_strlit("\"`[]");
    let s = "\"`[]"@;
    assert(s.len() == 4);
    assert(s[0] == '"' && s[1] == '`' && s[2] == '[' && s[3] == ']');
    assert forall|c: char| #[trigger] s.contains(c) implies c == '"' || c == '`' || c == '[' || c == ']' by {
        let k = choose|k: int| 0 <= k < s.len() && s[k] == c;
        assert(k == 0 || k == 1 || k == 2 || k == 3);
    }
}

proof fn lemma_named(raw: Seq<char>, q: Seq<char>)
    requires
        is_table_name(q),
        after_last(raw, '.') == q || (exists|a: char, b: char|
            !white(a) && !white(b) && #[trigger] "\"`[]"@.contains(a) && #[trigger] "\"`[]"@.contains(b) && after_last(
                raw,
                '.',
            ) == seq![a] + q + seq![b]),
    ensures
        is_small(table_name(raw), q),
{
    lemma_around();
    let set = "\"`[]"@;
    let w = |c: char| white(c);
    let f = |c: char| set.contains(c);
    let t = after_last(raw, '.');
    assert(!set.contains(q[0]) && !set.contains(q.last()));
    assert(trim_start(q, f) == q && trim_end(q, f) == q);
    if t == q {
        assert(trim_start(t, w) == t && trim_end(t, w) == t);
        assert(trimmed_of(trimmed(t), set) == q);
    } else {
        let (a, b) = choose|a: char, b: char|
            !white(a) && !white(b) && #[trigger] set.contains(a) && #[trigger] set.contains(b) && t == seq![a] + q
                + seq![b];
        assert(t[0] == a && t.last() == b);
        assert(trim_start(t, w) == t && trim_end(t, w) == t);
        let u = q + seq![b];
        assert(t.drop_first() =~= u);
        assert(u[0] == q[0]);
        assert(trim_start(u, f) == u);
        assert(trim_start(t, f) == u);
        assert(u.last() == b);
        assert(u.drop_last() =~= q);
        assert(trim_end(u, f) == q);
    }
    assert(table_name(raw) == ascii_lower(q));
}

/// A table is known by its own name in small letters, without its schema and without the
/// quotes or brackets that may stand around it.
pub proof fn law_table_names(schema: Seq<char>, q: Seq<char>)
    requires
        is_table_name(q),
    ensures
        is_small(table_name(q), q),
        is_small(table_name(schema + "."@ + q), q),
        is_small(table_name("\""@ + q + "\""@), q),
        is_small(table_name(schema + ".\""@ + q + "\""@), q),
        is_small(table_name("`"@ + q + "`"@), q),
        is_small(table_name("["@ + q + "]"@), q),
{
    reveal_strlit(".");
    reveal_strlit("\"");
    reveal_strlit(".\"");
    reveal_strlit("`");
    reveal_strlit("[");
    reveal_strlit("]");
    lemma_around();
    let set = "\"`[]"@;
    assert(set.contains('"') && set.contains('`') && set.contains('[') && set.contains(']'));
    assert("\""@ =~= seq!['"'] && "`"@ =~= seq!['`'] && "["@ =~= seq!['['] && "]"@ =~= seq![']']);
    lemma_after(q, '.', q);
    lemma_named(q, q);
    let a = schema + "."@ + q;
    assert(a =~= schema.push('.') + q);
    lemma_after(a, '.', q);
    lemma_named(a, q);
    let b = seq!['"'] + q + seq!['"'];
    lemma_no_dot(q, '"', '"');
    lemma_after(b, '.', b);
    lemma_named(b, q);
    let c = schema + ".\""@ + q + "\""@;
    assert(c =~= schema.push('.') + b);
    lemma_after(c, '.', b);
    lemma_named(c, q);
    let d = seq!['`'] + q + seq!['`'];
    lemma_no_dot(q, '`', '`');
    lemma_after(d, '.', d);
    lemma_named(d, q);
    let e = seq!['['] + q + seq![']'];
    lemma_no_dot(q, '[', ']');
    lemma_after(e, '.', e);
    lemma_named(e, q);
}

proof fn lemma_no_dot(q: Seq<char>, a: char, b: char)
    requires
        !q.contains('.'),
        a != '.',
        b != '.',
    ensures
        !(seq![a] + q + seq![b]).contains('.'),
{
    let t = seq![a] + q + seq![b];
    if t.contains('.') {
        let k = choose|k: int| 0 <= k < t.len() && t[k] == '.';
        if 0 < k < t.len() - 1 {
            assert(q[k - 1] == '.');
        }
    }
}

/// Every table that a statement names is listed, under that name.
pub proof fn law_named_tables_are_listed(ms: Seq<FoundV>, source: Seq<u8>, k: int)
    requires
        0 <= k < ms.len(),
        ms[k].first is Some,
        ms[k].second is Some,
        table_name(ms[k].second->0).len() > 0,
    ensures
        exists|i: int|
            0 <= i < tables_in(ms, source).len() && (#[trigger] tables_in(ms, source)[i]).name == table_name(
                ms[k].second->0,
            ),
{
    law_definition_wins(ms, source, k);
    let t = table_in(ms[k], source)->0;
    let i = place_of(tables_in(ms, source), t.name)->0;
    assert(tables_in(ms, source)[i].name == t.name);
}

} // verus!
