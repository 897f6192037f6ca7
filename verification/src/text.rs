//! Text as sequences of characters.
//!
//! Every string operation that the rest of the library relies on is defined
//! here twice: once as a spec function over `Seq<char>`, which is what
//! contracts speak of, and once as an executable function proved against it.

use vstd::prelude::*;
use vstd::string::*;

verus! {

broadcast use vstd::string::group_string_axioms;

/// `String::push` of the standard library: the character goes to the end.
pub assume_specification[ String::push ](s: &mut String, c: char)
    ensures
        final(s)@ == old(s)@.push(c),
;

/// Is `c` white space? The characters that Unicode gives the property `White_Space`.
pub open spec fn white(c: char) -> bool {
    let n = c as u32;
    ||| 0x9 <= n <= 0xD
    ||| n == 0x20
    ||| n == 0x85
    ||| n == 0xA0
    ||| n == 0x1680
    ||| 0x2000 <= n <= 0x200A
    ||| n == 0x2028
    ||| n == 0x2029
    ||| n == 0x202F
    ||| n == 0x205F
    ||| n == 0x3000
}

fn is_white(c: char) -> (r: bool)
    ensures
        r == white(c),
{
    let n = c as u32;
    (0x9 <= n && n <= 0xD) || n == 0x20 || n == 0x85 || n == 0xA0 || n == 0x1680 || (0x2000 <= n && n
        <= 0x200A) || n == 0x2028 || n == 0x2029 || n == 0x202F || n == 0x205F || n == 0x3000
}

/// What `char::is_alphanumeric` of the standard library answers.
pub uninterp spec fn alphanumeric(c: char) -> bool;

/// `char::is_alphanumeric` of the standard library, named `alphanumeric`.
/// Which characters have the property is left unsaid.
#[verifier::external_body]
pub(crate) fn is_alphanumeric(c: char) -> (r: bool)
    ensures
        r == alphanumeric(c),
{
    c.is_alphanumeric()
}

/// What `str::to_lowercase` of the standard library returns.
pub uninterp spec fn lowercase(s: Seq<char>) -> Seq<char>;

/// `str::to_lowercase` of the standard library: the Unicode lower case of a
/// whole string, named `lowercase`.
#[verifier::external_body]
pub(crate) fn to_lowercase(s: &str) -> (r: String)
    ensures
        r@ == lowercase(s@),
{
    s.to_lowercase()
}

// ---------------------------------------------------------------- definitions

/// Does `p` occur in `s` at position `i`?
pub open spec fn occurs_at(s: Seq<char>, p: Seq<char>, i: int) -> bool {
    0 <= i && i + p.len() <= s.len() && s.subrange(i, i + p.len()) == p
}

/// The first position, from `i` on, at which `p` occurs in `s`.
pub open spec fn find_from(s: Seq<char>, p: Seq<char>, i: int) -> Option<int>
    decreases s.len() + 1 - i,
{
    if i + p.len() > s.len() {
        None
    } else if occurs_at(s, p, i) {
        Some(i)
    } else {
        find_from(s, p, i + 1)
    }
}

/// Is `p` somewhere in `s`?
pub open spec fn contains_text(s: Seq<char>, p: Seq<char>) -> bool {
    find_from(s, p, 0) is Some
}

/// The pieces of `s` between occurrences of `c`; always at least one.
pub open spec fn split(s: Seq<char>, c: char) -> Seq<Seq<char>>
    decreases s.len(),
{
    if s.len() == 0 {
        seq![Seq::<char>::empty()]
    } else {
        let before = split(s.drop_last(), c);
        if s.last() == c {
            before.push(Seq::empty())
        } else {
            before.drop_last().push(before.last().push(s.last()))
        }
    }
}

/// The pieces of `s` between occurrences of the non-empty text `p`.
pub open spec fn split_text(s: Seq<char>, p: Seq<char>) -> Seq<Seq<char>>
    decreases s.len(),
{
    match find_from(s, p, 0) {
        Some(i) if p.len() > 0 && 0 <= i && i + p.len() <= s.len() => seq![s.take(i)] + split_text(
            s.skip(i + p.len()),
            p,
        ),
        _ => seq![s],
    }
}

/// `parts` with `sep` between neighbours.
pub open spec fn join(parts: Seq<Seq<char>>, sep: Seq<char>) -> Seq<char>
    decreases parts.len(),
{
    if parts.len() == 0 {
        Seq::empty()
    } else if parts.len() == 1 {
        parts[0]
    } else {
        join(parts.drop_last(), sep) + sep + parts.last()
    }
}

/// What follows the last `c` of `s`; all of `s` if there is none.
pub open spec fn after_last(s: Seq<char>, c: char) -> Seq<char>
    decreases s.len(),
{
    if s.len() == 0 || s.last() == c {
        Seq::empty()
    } else {
        after_last(s.drop_last(), c).push(s.last())
    }
}

/// What precedes the last `c` of `s`, if there is one.
pub open spec fn before_last(s: Seq<char>, c: char) -> Option<Seq<char>>
    decreases s.len(),
{
    if s.len() == 0 {
        None
    } else if s.last() == c {
        Some(s.drop_last())
    } else {
        before_last(s.drop_last(), c)
    }
}

/// What precedes the first `c` of `s`, if there is one.
pub open spec fn before_first(s: Seq<char>, c: char) -> Option<Seq<char>>
    decreases s.len(),
{
    if s.len() == 0 {
        None
    } else {
        match before_first(s.drop_last(), c) {
            Some(p) => Some(p),
            None => if s.last() == c {
                Some(s.drop_last())
            } else {
                None
            },
        }
    }
}

/// `s` without its leading run of characters that satisfy `f`.
pub open spec fn trim_start(s: Seq<char>, f: spec_fn(char) -> bool) -> Seq<char>
    decreases s.len(),
{
    if s.len() > 0 && f(s[0]) {
        trim_start(s.drop_first(), f)
    } else {
        s
    }
}

/// `s` without its trailing run of characters that satisfy `f`.
pub open spec fn trim_end(s: Seq<char>, f: spec_fn(char) -> bool) -> Seq<char>
    decreases s.len(),
{
    if s.len() > 0 && f(s.last()) {
        trim_end(s.drop_last(), f)
    } else {
        s
    }
}

/// `s` without white space at either end.
pub open spec fn trimmed(s: Seq<char>) -> Seq<char> {
    trim_end(trim_start(s, |c: char| white(c)), |c: char| white(c))
}

/// `s` without characters of `set` at either end.
pub open spec fn trimmed_of(s: Seq<char>, set: Seq<char>) -> Seq<char> {
    trim_end(trim_start(s, |c: char| set.contains(c)), |c: char| set.contains(c))
}

/// `c` with an ASCII capital made small.
pub open spec fn ascii_lower_char(c: char) -> char {
    if 'A' <= c && c <= 'Z' {
        ((c as u8) + 32) as char
    } else {
        c
    }
}

/// `s` with every ASCII capital made small.
pub open spec fn ascii_lower(s: Seq<char>) -> Seq<char> {
    s.map_values(|c: char| ascii_lower_char(c))
}

/// `s` with every `a` replaced by `b`.
pub open spec fn replaced(s: Seq<char>, a: char, b: char) -> Seq<char> {
    s.map_values(|c: char| if c == a { b } else { c })
}

/// How many characters of `s` are `c`.
pub open spec fn count_of(s: Seq<char>, c: char) -> nat
    decreases s.len(),
{
    if s.len() == 0 {
        0
    } else if s.last() == c {
        count_of(s.drop_last(), c) + 1
    } else {
        count_of(s.drop_last(), c)
    }
}

/// The pieces of `s` between white space, empty pieces left out.
pub open spec fn words(s: Seq<char>) -> Seq<Seq<char>> {
    open_words(s).0 + if open_words(s).1.len() > 0 {
        seq![open_words(s).1]
    } else {
        Seq::empty()
    }
}

/// The finished pieces of `s`, and the piece still being read at its end.
pub open spec fn open_words(s: Seq<char>) -> (Seq<Seq<char>>, Seq<char>)
    decreases s.len(),
{
    if s.len() == 0 {
        (Seq::empty(), Seq::empty())
    } else {
        let (done, cur) = open_words(s.drop_last());
        if white(s.last()) {
            (
                if cur.len() > 0 {
                    done.push(cur)
                } else {
                    done
                },
                Seq::empty(),
            )
        } else {
            (done, cur.push(s.last()))
        }
    }
}

/// The character for the digit `d`.
pub open spec fn digit(d: nat) -> char {
    (('0' as u8) + d) as char
}

/// `n` in decimal.
pub open spec fn decimal(n: nat) -> Seq<char>
    decreases n,
{
    if n < 10 {
        seq![digit(n)]
    } else {
        decimal(n / 10).push(digit(n % 10))
    }
}

/// `n` in decimal, with a minus sign where it is negative.
pub open spec fn signed_decimal(n: int) -> Seq<char> {
    if n < 0 {
        seq!['-'] + decimal((-n) as nat)
    } else {
        decimal(n as nat)
    }
}

/// Is `a` strictly before `b`, character by character?
pub open spec fn text_lt(a: Seq<char>, b: Seq<char>) -> bool
    decreases a.len(),
{
    if b.len() == 0 {
        false
    } else if a.len() == 0 {
        true
    } else if a[0] == b[0] {
        text_lt(a.drop_first(), b.drop_first())
    } else {
        a[0] < b[0]
    }
}

// ------------------------------------------------------------------ functions

/// The characters of `s`, in order.
pub fn chars_of(s: &str) -> (r: Vec<char>)
    ensures
        r@ == s@,
{
    let mut r: Vec<char> = Vec::new();
    for c in it: s.chars()
        invariant
            it.seq() == s@,
            r@ == s@.take(it.index()),
    {
        assert(s@.take(it.index() + 1) =~= s@.take(it.index()).push(s@[it.index()]));
        r.push(c);
    }
    assert(s@.take(s@.len() as int) =~= s@);
    r
}

/// The string with the characters of `v`.
pub fn string_of(v: &[char]) -> (r: String)
    ensures
        r@ == v@,
{
    let mut r = String::new();
    let mut i: usize = 0;
    while i < v.len()
        invariant
            i <= v@.len(),
            r@ == v@.take(i as int),
        decreases v@.len() - i,
    {
        r.push(v[i]);
        i += 1;
        assert(v@.take(i as int) =~= v@.take(i - 1).push(v@[i - 1]));
    }
    assert(v@.take(i as int) =~= v@);
    r
}

/// The string with the characters `v[from..to]`.
pub(crate) fn piece(v: &Vec<char>, from: usize, to: usize) -> (r: String)
    requires
        from <= to <= v@.len(),
    ensures
        r@ == v@.subrange(from as int, to as int),
{
    let mut r = String::new();
    let mut i: usize = from;
    while i < to
        invariant
            from <= i <= to <= v@.len(),
            r@ == v@.subrange(from as int, i as int),
        decreases to - i,
    {
        r.push(v[i]);
        i += 1;
        assert(v@.subrange(from as int, i as int) =~= v@.subrange(from as int, i - 1).push(
            v@[i - 1],
        ));
    }
    r
}

/// Do the two strings hold the same text?
pub fn same(a: &str, b: &str) -> (r: bool)
    ensures
        r == (a@ == b@),
{
    a.to_owned() == b.to_owned()
}

/// Do the two optional strings hold the same text, or both nothing?
pub fn same_opt(a: &Option<String>, b: &Option<String>) -> (r: bool)
    ensures
        r == (a.deep_view() == b.deep_view()),
{
    match (a, b) {
        (Some(x), Some(y)) => same(x.as_str(), y.as_str()),
        (None, None) => true,
        _ => false,
    }
}

/// `a` followed by `b`.
pub fn cat(a: &str, b: &str) -> (r: String)
    ensures
        r@ == a@ + b@,
{
    let mut r = a.to_owned();
    r.append(b);
    r
}

/// `a`, `b` and `c`, one after the other.
pub fn cat3(a: &str, b: &str, c: &str) -> (r: String)
    ensures
        r@ == a@ + b@ + c@,
{
    let mut r = a.to_owned();
    r.append(b);
    r.append(c);
    r
}

/// Does `s` begin with `p`?
pub fn starts_with(s: &str, p: &str) -> (r: bool)
    ensures
        r == p@.is_prefix_of(s@),
{
    let a = chars_of(s);
    let b = chars_of(p);
    if b.len() > a.len() {
        return false;
    }
    at(&a, &b, 0)
}

/// Does `s` end with `p`?
pub fn ends_with(s: &str, p: &str) -> (r: bool)
    ensures
        r == p@.is_suffix_of(s@),
{
    let a = chars_of(s);
    let b = chars_of(p);
    if b.len() > a.len() {
        return false;
    }
    at(&a, &b, a.len() - b.len())
}

/// Does `p` occur in `s` at `i`?
fn at(s: &Vec<char>, p: &Vec<char>, i: usize) -> (r: bool)
    requires
        i + p@.len() <= s@.len(),
    ensures
        r == occurs_at(s@, p@, i as int),
{
    let n = s.len();
    let mut k: usize = 0;
    while k < p.len()
        invariant
            k <= p@.len(),
            n == s@.len(),
            i + p@.len() <= s@.len(),
            s@.subrange(i as int, i + k) == p@.take(k as int),
        decreases p@.len() - k,
    {
        if s[i + k] != p[k] {
            assert(s@.subrange(i as int, i + p@.len())[k as int] != p@[k as int]);
            return false;
        }
        assert(s@.subrange(i as int, i + k + 1) =~= s@.subrange(i as int, i + k).push(s@[i + k]));
        assert(p@.take(k + 1) =~= p@.take(k as int).push(p@[k as int]));
        k += 1;
    }
    assert(p@.take(k as int) =~= p@);
    true
}

/// The first position of `p` in `s`, in characters.
pub fn find(s: &str, p: &str) -> (r: Option<usize>)
    ensures
        match r {
            Some(i) => find_from(s@, p@, 0) == Some(i as int) && occurs_at(s@, p@, i as int),
            None => find_from(s@, p@, 0) is None,
        },
{
    let a = chars_of(s);
    let b = chars_of(p);
    if b.len() > a.len() {
        return None;
    }
    let last = a.len() - b.len();
    let mut i: usize = 0;
    while i < last
        invariant
            a@ == s@,
            b@ == p@,
            i <= last,
            last + b@.len() == a@.len(),
            find_from(s@, p@, 0) == find_from(s@, p@, i as int),
        decreases last - i,
    {
        if at(&a, &b, i) {
            return Some(i);
        }
        i += 1;
    }
    if at(&a, &b, last) {
        return Some(last);
    }
    reveal_with_fuel(find_from, 2);
    None
}

/// Is `p` somewhere in `s`?
pub fn contains(s: &str, p: &str) -> (r: bool)
    ensures
        r == contains_text(s@, p@),
{
    find(s, p).is_some()
}

/// The pieces of `s` between occurrences of `c`.
pub fn split_on(s: &str, c: char) -> (r: Vec<String>)
    ensures
        r.deep_view() == split(s@, c),
        r@.len() >= 1,
{
    let a = chars_of(s);
    let mut out: Vec<String> = Vec::new();
    let mut cur = String::new();
    let mut i: usize = 0;
    assert(split(s@.take(0), c) =~= seq![Seq::<char>::empty()]);
    assert(out.deep_view().push(cur@) =~= seq![Seq::<char>::empty()]);
    while i < a.len()
        invariant
            a@ == s@,
            i <= a@.len(),
            out.deep_view().push(cur@) == split(s@.take(i as int), c),
        decreases a@.len() - i,
    {
        let ghost before = out.deep_view().push(cur@);
        let x = a[i];
        i += 1;
        proof {
            assert(s@.take(i as int).drop_last() =~= s@.take(i - 1));
            assert(s@.take(i as int).last() == x);
            assert(before.drop_last() =~= out.deep_view());
        }
        if x == c {
            let ghost old_out = out.deep_view();
            let ghost old_cur = cur@;
            out.push(cur);
            assert(out.deep_view() =~= old_out.push(old_cur));
            cur = String::new();
        } else {
            cur.push(x);
        }
    }
    let ghost before = out.deep_view().push(cur@);
    let ghost old_out = out.deep_view();
    let ghost old_cur = cur@;
    out.push(cur);
    assert(out.deep_view() =~= old_out.push(old_cur));
    assert(s@.take(i as int) =~= s@);
    out
}

/// The pieces of `s` between occurrences of the non-empty text `p`.
pub fn split_on_text(s: &str, p: &str) -> (r: Vec<String>)
    requires
        p@.len() > 0,
    ensures
        r.deep_view() == split_text(s@, p@),
        r@.len() >= 1,
{
    let mut out: Vec<String> = Vec::new();
    let mut rest = s.to_owned();
    assert(out.deep_view() + split_text(rest@, p@) =~= split_text(s@, p@));
    loop
        invariant
            p@.len() > 0,
            out.deep_view() + split_text(rest@, p@) == split_text(s@, p@),
        decreases rest@.len(),
    {
        let ghost old_out = out.deep_view();
        match find(rest.as_str(), p) {
            Some(i) => {
                let a = chars_of(rest.as_str());
                let n = chars_of(p).len();
                let head = piece(&a, 0, i);
                let len = a.len();
                let tail = piece(&a, i + n, len);
                let ghost h = head@;
                out.push(head);
                proof {
                    assert(out.deep_view() =~= old_out.push(h));
                    assert(h =~= rest@.take(i as int));
                    assert(tail@ =~= rest@.skip(i + n));
                    assert(out.deep_view() + split_text(tail@, p@) =~= old_out + (seq![h]
                        + split_text(tail@, p@)));
                }
                rest = tail;
            },
            None => {
                let ghost h = rest@;
                out.push(rest);
                assert(out.deep_view() =~= old_out + seq![h]);
                return out;
            },
        }
    }
}

/// `parts` with `sep` between neighbours.
pub fn join_with(parts: &Vec<String>, sep: &str) -> (r: String)
    ensures
        r@ == join(parts.deep_view(), sep@),
{
    let n = parts.len();
    assert(parts.deep_view().subrange(0, n as int) =~= parts.deep_view());
    join_range(parts, 0, n, sep)
}

/// `parts[from..to]` with `sep` between neighbours.
pub fn join_range(parts: &Vec<String>, from: usize, to: usize, sep: &str) -> (r: String)
    requires
        from <= to <= parts@.len(),
    ensures
        r@ == join(parts.deep_view().subrange(from as int, to as int), sep@),
{
    let mut r = String::new();
    let mut i: usize = from;
    let ghost all = parts.deep_view();
    assert(all.subrange(from as int, from as int) =~= Seq::empty());
    while i < to
        invariant
            from <= i <= to <= parts@.len(),
            all == parts.deep_view(),
            r@ == join(all.subrange(from as int, i as int), sep@),
        decreases to - i,
    {
        proof {
            assert(all.subrange(from as int, i + 1).drop_last() =~= all.subrange(
                from as int,
                i as int,
            ));
            assert(all.subrange(from as int, i + 1).last() == parts@[i as int]@);
        }
        if i > from {
            r.append(sep);
        } else {
            assert(all.subrange(from as int, i as int) =~= Seq::empty());
        }
        r.append(parts[i].as_str());
        assert(i == from ==> r@ =~= parts@[i as int]@);
        i += 1;
    }
    r
}

/// What follows the last `c` of `s`; all of `s` if there is none.
pub fn last_piece(s: &str, c: char) -> (r: String)
    ensures
        r@ == after_last(s@, c),
{
    let a = chars_of(s);
    let mut i: usize = a.len();
    assert(s@.take(i as int) =~= s@);
    assert(after_last(s@.take(i as int), c) + s@.skip(i as int) =~= after_last(s@, c));
    while i > 0
        invariant
            a@ == s@,
            i <= a@.len(),
            after_last(s@, c) == after_last(s@.take(i as int), c) + s@.skip(i as int),
        decreases i,
    {
        assert(s@.take(i as int).drop_last() =~= s@.take(i - 1));
        if a[i - 1] == c {
            assert(after_last(s@.take(i as int), c) =~= Seq::empty());
            assert(after_last(s@, c) =~= s@.skip(i as int));
            let r = piece(&a, i, a.len());
            assert(r@ =~= s@.skip(i as int));
            return r;
        }
        assert(after_last(s@.take(i as int), c) + s@.skip(i as int) =~= after_last(
            s@.take(i - 1),
            c,
        ) + s@.skip(i - 1));
        i -= 1;
    }
    assert(s@.skip(0) =~= s@);
    s.to_owned()
}

/// What precedes the last `c` of `s`, if there is one.
pub fn up_to_last(s: &str, c: char) -> (r: Option<String>)
    ensures
        r.deep_view() == before_last(s@, c),
{
    let a = chars_of(s);
    let mut i: usize = a.len();
    assert(s@.take(i as int) =~= s@);
    while i > 0
        invariant
            a@ == s@,
            i <= a@.len(),
            before_last(s@, c) == before_last(s@.take(i as int), c),
        decreases i,
    {
        assert(s@.take(i as int).drop_last() =~= s@.take(i - 1));
        if a[i - 1] == c {
            let r = piece(&a, 0, i - 1);
            assert(r@ =~= s@.take(i - 1));
            return Some(r);
        }
        i -= 1;
    }
    None
}

/// What precedes the first `c` of `s`, if there is one.
pub fn up_to_first(s: &str, c: char) -> (r: Option<String>)
    ensures
        r.deep_view() == before_first(s@, c),
{
    let a = chars_of(s);
    let mut i: usize = 0;
    while i < a.len()
        invariant
            a@ == s@,
            i <= a@.len(),
            before_first(s@.take(i as int), c) is None,
        decreases a@.len() - i,
    {
        assert(s@.take(i + 1).drop_last() =~= s@.take(i as int));
        if a[i] == c {
            let r = piece(&a, 0, i);
            assert(r@ =~= s@.take(i as int));
            proof {
                lemma_before_first_take(s@, c, i + 1);
            }
            return Some(r);
        }
        i += 1;
    }
    assert(s@.take(i as int) =~= s@);
    None
}

/// A first occurrence in a prefix is the first occurrence.
proof fn lemma_before_first_take(s: Seq<char>, c: char, n: int)
    requires
        0 <= n <= s.len(),
        before_first(s.take(n), c) is Some,
    ensures
        before_first(s, c) == before_first(s.take(n), c),
    decreases s.len() - n,
{
    if n < s.len() {
        assert(s.take(n + 1).drop_last() =~= s.take(n));
        lemma_before_first_take(s, c, n + 1);
    } else {
        assert(s.take(n) =~= s);
    }
}

/// `s` without `p` at its end, if it ends so.
pub fn without_suffix(s: &str, p: &str) -> (r: Option<String>)
    ensures
        match r {
            Some(t) => p@.is_suffix_of(s@) && t@ == s@.take(s@.len() - p@.len()),
            None => !p@.is_suffix_of(s@),
        },
{
    if ends_with(s, p) {
        let a = chars_of(s);
        let n = chars_of(p).len();
        let r = piece(&a, 0, a.len() - n);
        assert(r@ =~= s@.take(s@.len() - p@.len()));
        Some(r)
    } else {
        None
    }
}

/// `s` without `p` at its start, if it starts so.
pub fn without_prefix(s: &str, p: &str) -> (r: Option<String>)
    ensures
        match r {
            Some(t) => p@.is_prefix_of(s@) && t@ == s@.skip(p@.len() as int),
            None => !p@.is_prefix_of(s@),
        },
{
    if starts_with(s, p) {
        let a = chars_of(s);
        let n = chars_of(p).len();
        let r = piece(&a, n, a.len());
        assert(r@ =~= s@.skip(p@.len() as int));
        Some(r)
    } else {
        None
    }
}

/// Where the leading run of characters that satisfy `f` ends.
proof fn lemma_trim_start_skip(s: Seq<char>, f: spec_fn(char) -> bool, n: int)
    requires
        0 <= n <= s.len(),
        forall|i: int| 0 <= i < n ==> f(s[i]),
    ensures
        trim_start(s, f) == trim_start(s.skip(n), f),
    decreases n,
{
    if n == 0 {
        assert(s.skip(0) =~= s);
    } else {
        lemma_trim_start_skip(s.drop_first(), f, n - 1);
        assert(s.drop_first().skip(n - 1) =~= s.skip(n));
    }
}

proof fn lemma_trim_end_take(s: Seq<char>, f: spec_fn(char) -> bool, n: int)
    requires
        0 <= n <= s.len(),
        forall|i: int| n <= i < s.len() ==> f(s[i]),
    ensures
        trim_end(s, f) == trim_end(s.take(n), f),
    decreases s.len() - n,
{
    if n == s.len() {
        assert(s.take(n) =~= s);
    } else {
        lemma_trim_end_take(s.drop_last(), f, n);
        assert(s.drop_last().take(n) =~= s.take(n));
    }
}

/// `s` without white space at either end.
pub fn trim(s: &str) -> (r: String)
    ensures
        r@ == trimmed(s@),
{
    let a = chars_of(s);
    let ghost f = |c: char| white(c);
    let mut i: usize = 0;
    while i < a.len() && is_white(a[i])
        invariant
            i <= a@.len(),
            forall|k: int| 0 <= k < i ==> white(a@[k]),
        decreases a@.len() - i,
    {
        i += 1;
    }
    let ghost t = s@.skip(i as int);
    proof {
        lemma_trim_start_skip(s@, f, i as int);
    }
    let mut j: usize = a.len();
    while j > i && is_white(a[j - 1])
        invariant
            i <= j <= a@.len(),
            forall|k: int| j <= k < a@.len() ==> white(a@[k]),
        decreases j,
    {
        j -= 1;
    }
    proof {
        lemma_trim_end_take(t, f, j - i);
        assert(t.take(j - i) =~= a@.subrange(i as int, j as int));
    }
    piece(&a, i, j)
}

/// `s` without characters of `set` at either end.
pub fn trim_of(s: &str, set: &str) -> (r: String)
    ensures
        r@ == trimmed_of(s@, set@),
{
    let a = chars_of(s);
    let b = chars_of(set);
    let ghost f = |c: char| set@.contains(c);
    let mut i: usize = 0;
    while i < a.len() && holds(&b, a[i])
        invariant
            b@ == set@,
            i <= a@.len(),
            forall|k: int| 0 <= k < i ==> set@.contains(a@[k]),
        decreases a@.len() - i,
    {
        i += 1;
    }
    let ghost t = s@.skip(i as int);
    proof {
        lemma_trim_start_skip(s@, f, i as int);
    }
    let mut j: usize = a.len();
    while j > i && holds(&b, a[j - 1])
        invariant
            b@ == set@,
            i <= j <= a@.len(),
            forall|k: int| j <= k < a@.len() ==> set@.contains(a@[k]),
        decreases j,
    {
        j -= 1;
    }
    proof {
        lemma_trim_end_take(t, f, j - i);
        assert(t.take(j - i) =~= a@.subrange(i as int, j as int));
    }
    piece(&a, i, j)
}

/// `s` without the leading run of `c`.
pub fn trim_start_of(s: &str, c: char) -> (r: String)
    ensures
        r@ == trim_start(s@, |x: char| x == c),
{
    let a = chars_of(s);
    let ghost f = |x: char| x == c;
    let mut i: usize = 0;
    while i < a.len() && a[i] == c
        invariant
            i <= a@.len(),
            forall|k: int| 0 <= k < i ==> a@[k] == c,
        decreases a@.len() - i,
    {
        i += 1;
    }
    proof {
        lemma_trim_start_skip(s@, f, i as int);
        assert(s@.skip(i as int) =~= a@.subrange(i as int, a@.len() as int));
    }
    piece(&a, i, a.len())
}

/// `s` without the trailing run of `c`.
pub fn trim_end_of(s: &str, c: char) -> (r: String)
    ensures
        r@ == trim_end(s@, |x: char| x == c),
{
    let a = chars_of(s);
    let ghost f = |x: char| x == c;
    let mut j: usize = a.len();
    while j > 0 && a[j - 1] == c
        invariant
            j <= a@.len(),
            forall|k: int| j <= k < a@.len() ==> a@[k] == c,
        decreases j,
    {
        j -= 1;
    }
    proof {
        lemma_trim_end_take(s@, f, j as int);
        assert(s@.take(j as int) =~= a@.subrange(0, j as int));
    }
    piece(&a, 0, j)
}

/// Is `c` one of the characters of `set`?
fn holds(set: &Vec<char>, c: char) -> (r: bool)
    ensures
        r == set@.contains(c),
{
    let mut i: usize = 0;
    while i < set.len()
        invariant
            i <= set@.len(),
            forall|k: int| 0 <= k < i ==> set@[k] != c,
        decreases set@.len() - i,
    {
        if set[i] == c {
            return true;
        }
        i += 1;
    }
    false
}

/// `s` with every ASCII capital made small.
pub fn to_ascii_lowercase(s: &str) -> (r: String)
    ensures
        r@ == ascii_lower(s@),
{
    let a = chars_of(s);
    let mut r = String::new();
    let mut i: usize = 0;
    while i < a.len()
        invariant
            a@ == s@,
            i <= a@.len(),
            r@ == ascii_lower(s@.take(i as int)),
        decreases a@.len() - i,
    {
        let c = a[i];
        if 'A' <= c && c <= 'Z' {
            r.push((c as u8 + 32) as char);
        } else {
            r.push(c);
        }
        i += 1;
        assert(ascii_lower(s@.take(i as int)) =~= ascii_lower(s@.take(i - 1)).push(
            ascii_lower_char(c),
        ));
    }
    assert(s@.take(i as int) =~= s@);
    r
}

/// `s` with every `x` replaced by `y`.
pub fn replace_char(s: &str, x: char, y: char) -> (r: String)
    ensures
        r@ == replaced(s@, x, y),
{
    let a = chars_of(s);
    let mut r = String::new();
    let mut i: usize = 0;
    while i < a.len()
        invariant
            a@ == s@,
            i <= a@.len(),
            r@ == replaced(s@.take(i as int), x, y),
        decreases a@.len() - i,
    {
        let c = a[i];
        let d = if c == x {
            y
        } else {
            c
        };
        r.push(d);
        i += 1;
        assert(replaced(s@.take(i as int), x, y) =~= replaced(s@.take(i - 1), x, y).push(d));
    }
    assert(s@.take(i as int) =~= s@);
    r
}

/// The pieces of `s` between white space, empty pieces left out.
pub fn words_of(s: &str) -> (r: Vec<String>)
    ensures
        r.deep_view() == words(s@),
{
    let a = chars_of(s);
    let mut out: Vec<String> = Vec::new();
    let mut cur = String::new();
    let mut n: usize = 0;
    let mut i: usize = 0;
    assert(out.deep_view() =~= Seq::empty());
    while i < a.len()
        invariant
            a@ == s@,
            i <= a@.len(),
            n == cur@.len(),
            n <= i,
            (out.deep_view(), cur@) == open_words(s@.take(i as int)),
        decreases a@.len() - i,
    {
        let ghost done = out.deep_view();
        let ghost c0 = cur@;
        let c = a[i];
        i += 1;
        assert(s@.take(i as int).drop_last() =~= s@.take(i - 1));
        if is_white(c) {
            if n > 0 {
                out.push(cur);
                assert(out.deep_view() =~= done.push(c0));
            }
            cur = String::new();
            n = 0;
        } else {
            cur.push(c);
            n += 1;
        }
    }
    assert(s@.take(i as int) =~= s@);
    let ghost done = out.deep_view();
    let ghost c0 = cur@;
    if n > 0 {
        out.push(cur);
        assert(out.deep_view() =~= done + seq![c0]);
    } else {
        assert(out.deep_view() =~= done + Seq::<Seq<char>>::empty());
    }
    out
}

/// `n` in decimal.
pub fn decimal_of(n: u64) -> (r: String)
    ensures
        r@ == decimal(n as nat),
    decreases n,
{
    if n < 10 {
        let mut r = String::new();
        r.push((48u8 + n as u8) as char);
        assert(r@ =~= decimal(n as nat));
        r
    } else {
        let mut r = decimal_of(n / 10);
        r.push((48u8 + (n % 10) as u8) as char);
        r
    }
}

/// `n` in decimal, signed.
pub fn decimal_of_signed(n: i64) -> (r: String)
    ensures
        r@ == signed_decimal(n as int),
{
    if n >= 0 {
        decimal_of(n as u64)
    } else if n == i64::MIN {
        let r = cat("-", decimal_of(9223372036854775808).as_str());
        proof {
            reveal_strlit("-");
            assert("-"@ =~= seq!['-']);
        }
        r
    } else {
        let r = cat("-", decimal_of((-n) as u64).as_str());
        proof {
            reveal_strlit("-");
            assert("-"@ =~= seq!['-']);
        }
        r
    }
}

/// Is `a` strictly before `b`, character by character?
pub fn comes_before(a: &str, b: &str) -> (r: bool)
    ensures
        r == text_lt(a@, b@),
{
    let x = chars_of(a);
    let y = chars_of(b);
    let mut i: usize = 0;
    assert(a@.skip(0) =~= a@);
    assert(b@.skip(0) =~= b@);
    while i < x.len() && i < y.len()
        invariant
            x@ == a@,
            y@ == b@,
            i <= x@.len(),
            i <= y@.len(),
            text_lt(a@, b@) == text_lt(a@.skip(i as int), b@.skip(i as int)),
        decreases x@.len() - i,
    {
        if x[i] != y[i] {
            return x[i] < y[i];
        }
        assert(a@.skip(i as int).drop_first() =~= a@.skip(i + 1));
        assert(b@.skip(i as int).drop_first() =~= b@.skip(i + 1));
        i += 1;
    }
    x.len() < y.len()
}

// ----------------------------------------------------------------------- laws

/// Splitting on a character and joining with it gives the text back.
pub proof fn law_split_join(s: Seq<char>, c: char)
    ensures
        join(split(s, c), seq![c]) == s,
        split(s, c).len() >= 1,
    decreases s.len(),
{
    if s.len() > 0 {
        law_split_join(s.drop_last(), c);
        let b = split(s.drop_last(), c);
        if s.last() == c {
            assert(b.push(Seq::empty()).drop_last() =~= b);
            assert(join(b.push(Seq::empty()), seq![c]) =~= s);
        } else {
            let l = b.last().push(s.last());
            let n = b.drop_last().push(l);
            assert(n.drop_last() =~= b.drop_last());
            if b.len() == 1 {
                assert(b[0].push(s.last()) =~= s);
            } else {
                assert(join(n, seq![c]) =~= join(b, seq![c]).push(s.last()));
            }
            assert(s.drop_last().push(s.last()) =~= s);
        }
    }
}

/// The text order is irreflexive, and of two different texts one is before
/// the other.
pub proof fn law_text_order_total(a: Seq<char>, b: Seq<char>)
    ensures
        !text_lt(a, a),
        text_lt(a, b) || text_lt(b, a) || a == b,
        !(text_lt(a, b) && text_lt(b, a)),
    decreases a.len(),
{
    if a.len() > 0 {
        law_text_order_total(a.drop_first(), a.drop_first());
        if b.len() > 0 {
            law_text_order_total(a.drop_first(), b.drop_first());
            if a[0] == b[0] && a.drop_first() == b.drop_first() {
                assert(a =~= seq![a[0]] + a.drop_first());
                assert(b =~= seq![b[0]] + b.drop_first());
            }
        }
    } else if b.len() == 0 {
        assert(a =~= b);
    }
}

/// The text order is transitive.
pub proof fn law_text_order_transitive(a: Seq<char>, b: Seq<char>, c: Seq<char>)
    requires
        text_lt(a, b),
        text_lt(b, c),
    ensures
        text_lt(a, c),
    decreases a.len(),
{
    if a.len() > 0 && a[0] == b[0] && b[0] == c[0] {
        law_text_order_transitive(a.drop_first(), b.drop_first(), c.drop_first());
    }
}

} // verus!
