//! Which files an import means that is looked up by a directory or by a name.

use vstd::prelude::*;
use vstd::string::*;

use crate::import_laws::{
    is_dir, is_name, lemma_above, lemma_beside, lemma_languages, lemma_normal_under, lemma_parent_under, lemma_slash,
    normal, under,
};
use crate::imports::{
    best_dir, byte_len, dir_matches, go_tail, in_best_dir, joined, lemma_split_join, named, only_named, parent_of,
    plain_segment, resolved,
};
use crate::rows::law_filter_has;
use crate::scan_laws::lemma_kept;
use crate::text::{self, after_last, before_last, trim_end, trim_start, trimmed_of};

verus! {

broadcast use vstd::string::group_string_axioms;

// ------------------------------------------------------------------------------- Go

/// Does a file lie directly in a directory?
pub open spec fn lies_in(f: Seq<char>, d: Seq<char>) -> bool {
    exists|name: Seq<char>| !name.contains('/') && f == #[trigger] under(d, name)
}

/// Does a directory's path end with some segments?
pub open spec fn ends_with(d: Seq<char>, tail: Seq<char>) -> bool {
    d == tail || exists|pre: Seq<char>| d == #[trigger] (pre + "/"@) + tail
}

/// Is it the first of the shortest directories with files whose path ends with some
/// segments?
pub open spec fn nearest(d: Seq<char>, tail: Seq<char>, files: Seq<Seq<char>>, i: int) -> bool {
    &&& 0 <= i < files.len()
    &&& lies_in(files[i], d)
    &&& ends_with(d, tail)
    &&& forall|j: int, e: Seq<char>|
        0 <= j < files.len() && #[trigger] lies_in(files[j], e) && ends_with(e, tail) ==> {
            &&& vstd::utf8::encode_utf8(d).len() <= vstd::utf8::encode_utf8(e).len()
            &&& j < i ==> vstd::utf8::encode_utf8(d).len() < vstd::utf8::encode_utf8(e).len() || e == d
        }
}

/// Is it a Go file of a directory?
pub open spec fn go_file_of(f: Seq<char>, d: Seq<char>) -> bool {
    lies_in(f, d) && ".go"@.is_suffix_of(f)
}

proof fn lemma_last_parts(f: Seq<char>)
    ensures
        !after_last(f, '/').contains('/'),
        before_last(f, '/') is None ==> after_last(f, '/') == f && !f.contains('/'),
        before_last(f, '/') is Some ==> f == before_last(f, '/')->0 + "/"@ + after_last(f, '/'),
    decreases f.len(),
{
    lemma_slash();
    if f.len() > 0 {
        let init = f.drop_last();
        lemma_last_parts(init);
        if f.last() != '/' {
            let t = after_last(init, '/');
            assert(after_last(f, '/') == t.push(f.last()));
            if t.push(f.last()).contains('/') {
                let k = choose|k: int| 0 <= k < t.push(f.last()).len() && t.push(f.last())[k] == '/';
                if k < t.len() {
                    assert(t[k] == '/');
                }
            }
            if before_last(init, '/') is Some {
                assert(f =~= init.push(f.last()));
                assert(f =~= before_last(f, '/')->0 + "/"@ + after_last(f, '/'));
            } else {
                assert(f =~= init.push(f.last()));
            }
        } else {
            assert(f =~= f.drop_last() + "/"@ + Seq::<char>::empty());
        }
    }
}

/// The directory that a file lies in is its parent.
proof fn lemma_lies_in(f: Seq<char>, d: Seq<char>)
    requires
        d.len() > 0,
    ensures
        lies_in(f, d) <==> parent_of(f) == d,
{
    lemma_last_parts(f);
    if lies_in(f, d) {
        let name = choose|name: Seq<char>| !name.contains('/') && f == #[trigger] under(d, name);
        lemma_parent_under(d, name);
    }
    if parent_of(f) == d {
        assert(f == under(d, after_last(f, '/')));
    }
}

proof fn lemma_ends_with(d: Seq<char>, tail: Seq<char>)
    ensures
        ends_with(d, tail) <==> dir_matches(d, tail),
{
    lemma_slash();
    if ends_with(d, tail) && d != tail {
        let pre = choose|pre: Seq<char>| d == #[trigger] (pre + "/"@) + tail;
        assert(("/"@ + tail) =~= d.skip(d.len() - ("/"@ + tail).len()));
    }
    if ("/"@ + tail).is_suffix_of(d) {
        let t = "/"@ + tail;
        let pre = d.take(d.len() - t.len());
        assert(d =~= (pre + "/"@) + tail) by {
            assert(d.skip(d.len() - t.len()) =~= t);
            assert(d =~= pre + d.skip(d.len() - t.len()));
        }
    }
}

proof fn lemma_best_dir(files: Seq<Seq<char>>, tail: Seq<char>)
    ensures
        match best_dir(files, tail) {
            Some(b) => {
                &&& dir_matches(b, tail)
                &&& exists|i: int|
                    0 <= i < files.len() && parent_of(#[trigger] files[i]) == b && (forall|j: int|
                        0 <= j < i && dir_matches(parent_of(#[trigger] files[j]), tail) ==> byte_len(b) < byte_len(
                            parent_of(files[j]),
                        ))
                &&& forall|j: int|
                    0 <= j < files.len() && dir_matches(parent_of(#[trigger] files[j]), tail) ==> byte_len(b)
                        <= byte_len(parent_of(files[j]))
            },
            None => forall|j: int|
                0 <= j < files.len() ==> !dir_matches(parent_of(#[trigger] files[j]), tail),
        },
    decreases files.len(),
{
    if files.len() > 0 {
        let init = files.drop_last();
        lemma_best_dir(init, tail);
        let last = parent_of(files.last());
        let n = files.len() - 1;
        assert forall|j: int| 0 <= j < n implies files[j] == #[trigger] init[j] by {}
        match best_dir(init, tail) {
            Some(b) => {
                let i = choose|i: int|
                    0 <= i < init.len() && parent_of(#[trigger] init[i]) == b && (forall|j: int|
                        0 <= j < i && dir_matches(parent_of(#[trigger] init[j]), tail) ==> byte_len(b) < byte_len(
                            parent_of(init[j]),
                        ));
                if dir_matches(last, tail) && byte_len(last) < byte_len(b) {
                    assert(parent_of(files[n]) == last);
                    assert forall|j: int|
                        0 <= j < n && dir_matches(parent_of(#[trigger] files[j]), tail) implies byte_len(last)
                        < byte_len(parent_of(files[j])) by {
                        assert(files[j] == init[j]);
                    }
                } else {
                    assert(parent_of(files[i]) == b);
                    assert forall|j: int|
                        0 <= j < i && dir_matches(parent_of(#[trigger] files[j]), tail) implies byte_len(b)
                        < byte_len(parent_of(files[j])) by {
                        assert(files[j] == init[j]);
                    }
                    assert forall|j: int|
                        0 <= j < files.len() && dir_matches(parent_of(#[trigger] files[j]), tail) implies byte_len(b)
                        <= byte_len(parent_of(files[j])) by {
                        if j < n {
                            assert(files[j] == init[j]);
                        }
                    }
                }
            },
            None => {
                assert forall|j: int| 0 <= j < n implies !dir_matches(parent_of(#[trigger] files[j]), tail) by {
                    assert(files[j] == init[j]);
                }
                assert(parent_of(files[n]) == last);
            },
        }
    }
}

/// The nearest directory is the best one.
proof fn lemma_nearest(d: Seq<char>, tail: Seq<char>, files: Seq<Seq<char>>, i: int)
    requires
        tail.len() > 0,
        nearest(d, tail, files, i),
    ensures
        best_dir(files, tail) == Some(d),
{
    lemma_slash();
    lemma_best_dir(files, tail);
    lemma_ends_with(d, tail);
    assert(d.len() > 0);
    lemma_lies_in(files[i], d);
    assert(dir_matches(parent_of(files[i]), tail));
    assert(best_dir(files, tail) is Some);
    let b = best_dir(files, tail)->0;
    let k = choose|k: int|
        0 <= k < files.len() && parent_of(#[trigger] files[k]) == b && (forall|j: int|
            0 <= j < k && dir_matches(parent_of(#[trigger] files[j]), tail) ==> byte_len(b) < byte_len(
                parent_of(files[j]),
            ));
    lemma_ends_with(b, tail);
    assert(b.len() > 0);
    lemma_lies_in(files[k], b);
    assert(lies_in(files[k], b));
    if i < k {
        assert(byte_len(b) < byte_len(parent_of(files[i])));
    }
    if k < i {
        assert(byte_len(d) < byte_len(b) || b == d);
    }
}

/// Are these the segments of an import path?
pub open spec fn are_segments(names: Seq<Seq<char>>) -> bool {
    names.len() > 0 && forall|i: int|
        0 <= i < names.len() ==> (#[trigger] names[i]).len() > 0 && !names[i].contains('/') && !names[i].contains('"')
}

proof fn lemma_join_ends(names: Seq<Seq<char>>)
    requires
        are_segments(names),
    ensures
        text::join(names, "/"@).len() > 0,
        text::join(names, "/"@)[0] != '"',
        text::join(names, "/"@).last() != '"',
    decreases names.len(),
{
    lemma_slash();
    let n = names.len();
    assert(names[0].len() > 0 && !names[0].contains('"'));
    assert(names[n - 1].len() > 0 && !names[n - 1].contains('"'));
    if n > 1 {
        let init = names.drop_last();
        assert forall|i: int| 0 <= i < init.len() implies (#[trigger] init[i]).len() > 0 && !init[i].contains('/')
            && !init[i].contains('"') by {
            assert(init[i] == names[i]);
        }
        lemma_join_ends(init);
        assert(text::join(names, "/"@)[0] == text::join(init, "/"@)[0]);
        assert(text::join(names, "/"@).last() == names[n - 1].last());
        assert(names[n - 1][names[n - 1].len() - 1] != '"');
    } else {
        assert(names[0][0] != '"');
        assert(names[0][names[0].len() - 1] != '"');
    }
}

proof fn lemma_trimmed(s: Seq<char>)
    requires
        s.len() > 0,
        s[0] != '"',
        s.last() != '"',
    ensures
        trimmed_of(s, "\""@) == s,
        trimmed_of("\""@ + s + "\""@, "\""@) == s,
{
    reveal_strlit("\"");
    let q = "\""@;
    assert(q =~= seq!['"']);
    assert(q.contains('"')) by {
        assert(q[0] == '"');
    }
    assert(!q.contains(s[0]));
    assert(!q.contains(s.last()));
    let f = |c: char| q.contains(c);
    assert(trim_start(s, f) == s);
    assert(trim_end(s, f) == s);
    let b = q + s + q;
    assert(b[0] == '"');
    assert(b.drop_first() =~= s + q);
    assert((s + q)[0] == s[0]);
    assert(trim_start(s + q, f) == s + q);
    assert(trim_start(b, f) == s + q);
    assert((s + q).last() == '"');
    assert((s + q).drop_last() =~= s);
    assert(trim_end(s + q, f) == s);
}

proof fn lemma_go(from: Seq<char>, names: Seq<Seq<char>>, files: Seq<Seq<char>>)
    requires
        are_segments(names),
    ensures
        resolved("go"@, from, text::join(names, "/"@), files) == go_tail(names, files),
{
    lemma_languages();
    lemma_join_ends(names);
    lemma_trimmed(text::join(names, "/"@));
    assert forall|i: int| 0 <= i < names.len() implies !(#[trigger] names[i]).contains('/') by {
        assert(names[i].len() > 0);
    }
    lemma_split_join(names);
}

pub(crate) proof fn lemma_filtered<A>(s: Seq<A>, p: spec_fn(A) -> bool, x: A)
    ensures
        s.filter(p).contains(x) <==> s.contains(x) && p(x),
{
    if s.contains(x) && p(x) {
        law_filter_has(s, p, x);
    }
    if s.filter(p).contains(x) {
        let i = choose|i: int| 0 <= i < s.filter(p).len() && s.filter(p)[i] == x;
        lemma_kept(s, p, i);
    }
}

/// An import path means the Go files of the nearest directory whose path ends with it.
pub proof fn law_go_directory(
    from: Seq<char>,
    names: Seq<Seq<char>>,
    files: Seq<Seq<char>>,
    d: Seq<char>,
    i: int,
    g: Seq<char>,
    f: Seq<char>,
)
    requires
        are_segments(names),
        nearest(d, text::join(names, "/"@), files, i),
        files.contains(g),
        go_file_of(g, d),
    ensures
        resolved("go"@, from, text::join(names, "/"@), files).contains(f) <==> files.contains(f) && go_file_of(f, d),
{
    let tail = text::join(names, "/"@);
    lemma_slash();
    lemma_go(from, names, files);
    lemma_join_ends(names);
    lemma_nearest(d, tail, files, i);
    assert(d.len() > 0);
    let p = |x: Seq<char>| parent_of(x) == d && ".go"@.is_suffix_of(x);
    let hits = in_best_dir(files, tail, ".go"@);
    assert(hits == files.filter(p));
    lemma_lies_in(g, d);
    lemma_lies_in(f, d);
    lemma_filtered(files, p, g);
    lemma_filtered(files, p, f);
    assert(hits.contains(g));
}

/// Where no directory's path ends with an import path, or the nearest one has no Go
/// files, the path means what it means without its first segment, and nothing where
/// there is no other.
pub proof fn law_go_shorter(from: Seq<char>, names: Seq<Seq<char>>, files: Seq<Seq<char>>)
    requires
        are_segments(names),
        (forall|j: int, e: Seq<char>|
            0 <= j < files.len() && #[trigger] lies_in(files[j], e) ==> !ends_with(e, text::join(names, "/"@))) || (
        exists|d: Seq<char>, i: int|
            #[trigger] nearest(d, text::join(names, "/"@), files, i) && (forall|j: int|
                0 <= j < files.len() ==> !go_file_of(#[trigger] files[j], d))),
    ensures
        names.len() > 1 ==> resolved("go"@, from, text::join(names, "/"@), files) == resolved(
            "go"@,
            from,
            text::join(names.skip(1), "/"@),
            files,
        ),
        names.len() == 1 ==> resolved("go"@, from, text::join(names, "/"@), files).len() == 0,
{
    let tail = text::join(names, "/"@);
    lemma_slash();
    lemma_go(from, names, files);
    lemma_join_ends(names);
    lemma_best_dir(files, tail);
    let hits = in_best_dir(files, tail, ".go"@);
    assert(hits.len() == 0) by {
        if best_dir(files, tail) is Some {
            let b = best_dir(files, tail)->0;
            lemma_ends_with(b, tail);
            assert(b.len() > 0);
            if forall|j: int, e: Seq<char>|
                0 <= j < files.len() && #[trigger] lies_in(files[j], e) ==> !ends_with(e, tail) {
                let k = choose|k: int| 0 <= k < files.len() && parent_of(#[trigger] files[k]) == b;
                lemma_lies_in(files[k], b);
                assert(lies_in(files[k], b));
            } else {
                let (d, i) = choose|d: Seq<char>, i: int|
                    #[trigger] nearest(d, tail, files, i) && (forall|j: int|
                        0 <= j < files.len() ==> !go_file_of(#[trigger] files[j], d));
                lemma_nearest(d, tail, files, i);
                let p = |x: Seq<char>| parent_of(x) == d && ".go"@.is_suffix_of(x);
                if hits.len() > 0 {
                    let f = hits[0];
                    assert(hits == files.filter(p));
                    assert(hits.contains(f));
                    lemma_filtered(files, p, f);
                    let j = choose|j: int| 0 <= j < files.len() && files[j] == f;
                    lemma_lies_in(f, d);
                    assert(go_file_of(files[j], d));
                }
            }
        }
    }
    let rest = names.skip(1);
    assert(names.drop_first() =~= rest);
    if names.len() > 1 {
        assert forall|i: int| 0 <= i < rest.len() implies (#[trigger] rest[i]).len() > 0 && !rest[i].contains('/')
            && !rest[i].contains('"') by {
            assert(rest[i] == names[i + 1]);
        }
        lemma_go(from, rest, files);
    } else {
        assert(rest.len() == 0);
        assert(go_tail(rest, files).len() == 0);
        assert(go_tail(names, files) == go_tail(rest, files));
    }
}

/// Quotes around an import path do not matter, nor does the importing file.
pub proof fn law_go_quotes(from: Seq<char>, other: Seq<char>, s: Seq<char>, files: Seq<Seq<char>>)
    requires
        s.len() > 0,
        s[0] != '"',
        s.last() != '"',
    ensures
        resolved("go"@, from, "\""@ + s + "\""@, files) == resolved("go"@, other, s, files),
{
    lemma_languages();
    lemma_trimmed(s);
}

// -------------------------------------------------------------- names and includes

/// Does a file have this name, in whatever directory?
pub open spec fn is_called(f: Seq<char>, name: Seq<char>) -> bool {
    f == name || exists|d: Seq<char>| f == #[trigger] (d + "/"@) + name
}

/// Is a list the only file with a name, and nothing where there is none or more than
/// one?
pub open spec fn the_only(r: Seq<Seq<char>>, name: Seq<char>, files: Seq<Seq<char>>) -> bool {
    &&& forall|i: int|
        0 <= i < files.len() && is_called(#[trigger] files[i], name) && (forall|j: int|
            0 <= j < files.len() && is_called(#[trigger] files[j], name) ==> j == i) ==> r == seq![files[i]]
    &&& forall|i: int, j: int|
        0 <= i < j < files.len() && is_called(#[trigger] files[i], name) && is_called(#[trigger] files[j], name)
            ==> r.len() == 0
    &&& (forall|i: int| 0 <= i < files.len() ==> !is_called(#[trigger] files[i], name)) ==> r.len() == 0
}

pub(crate) proof fn lemma_after(f: Seq<char>, c: char, name: Seq<char>)
    requires
        !name.contains(c),
    ensures
        f == name ==> after_last(f, c) == name,
        forall|d: Seq<char>| f == #[trigger] d.push(c) + name ==> after_last(f, c) == name,
    decreases name.len(),
{
    if name.len() == 0 {
        assert forall|d: Seq<char>| f == #[trigger] d.push(c) + name implies after_last(f, c) == name by {
            assert(f.last() == c);
            assert(name =~= Seq::empty());
        }
        assert(name =~= Seq::empty());
    } else {
        let init = name.drop_last();
        assert(name[name.len() - 1] != c);
        assert(!init.contains(c)) by {
            if init.contains(c) {
                let k = choose|k: int| 0 <= k < init.len() && init[k] == c;
                assert(name[k] == c);
            }
        }
        lemma_after(f.drop_last(), c, init);
        assert(init.push(name.last()) =~= name);
        assert forall|d: Seq<char>| f == #[trigger] d.push(c) + name implies after_last(f, c) == name by {
            assert(f.drop_last() =~= d.push(c) + init);
            assert(f.last() == name.last());
        }
    }
}

proof fn lemma_called(f: Seq<char>, name: Seq<char>)
    requires
        !name.contains('/'),
    ensures
        is_called(f, name) <==> after_last(f, '/') == name,
{
    lemma_slash();
    lemma_last_parts(f);
    lemma_after(f, '/', name);
    if is_called(f, name) && f != name {
        let d = choose|d: Seq<char>| f == #[trigger] (d + "/"@) + name;
        assert(f =~= d.push('/') + name);
    }
    if after_last(f, '/') == name && before_last(f, '/') is Some {
        let d = before_last(f, '/')->0;
        assert(f == (d + "/"@) + name);
    }
}

pub(crate) proof fn lemma_filter_count<A>(s: Seq<A>, p: spec_fn(A) -> bool)
    ensures
        forall|i: int|
            0 <= i < s.len() && p(#[trigger] s[i]) && (forall|j: int|
                0 <= j < s.len() && p(#[trigger] s[j]) ==> j == i) ==> s.filter(p) == seq![s[i]],
        forall|i: int| 0 <= i < s.len() && p(#[trigger] s[i]) ==> s.filter(p).len() >= 1,
        forall|i: int, j: int|
            0 <= i < j < s.len() && p(#[trigger] s[i]) && p(#[trigger] s[j]) ==> s.filter(p).len() >= 2,
        (forall|i: int| 0 <= i < s.len() ==> !p(#[trigger] s[i])) ==> s.filter(p).len() == 0,
    decreases s.len(),
{
    reveal(Seq::filter);
    if s.len() > 0 {
        let init = s.drop_last();
        let n = s.len() - 1;
        lemma_filter_count(init, p);
        assert forall|i: int| 0 <= i < n implies s[i] == #[trigger] init[i] by {}
        assert forall|i: int|
            0 <= i < s.len() && p(#[trigger] s[i]) && (forall|j: int|
                0 <= j < s.len() && p(#[trigger] s[j]) ==> j == i) implies s.filter(p) == seq![s[i]] by {
            if i == n {
                assert forall|j: int| 0 <= j < n implies !p(#[trigger] init[j]) by {
                    assert(s[j] == init[j]);
                }
                assert(s.filter(p) =~= seq![s[i]]);
            } else {
                assert(!p(s[n]));
                assert(init[i] == s[i]);
                assert forall|j: int| 0 <= j < n && p(#[trigger] init[j]) implies j == i by {
                    assert(s[j] == init[j]);
                }
            }
        }
        assert forall|i: int| 0 <= i < s.len() && p(#[trigger] s[i]) implies s.filter(p).len() >= 1 by {
            if i < n {
                assert(p(init[i]));
            }
        }
        assert forall|i: int, j: int|
            0 <= i < j < s.len() && p(#[trigger] s[i]) && p(#[trigger] s[j]) implies s.filter(p).len() >= 2 by {
            assert(p(init[i]));
            if j < n {
                assert(p(init[j]));
            }
        }
        if forall|i: int| 0 <= i < s.len() ==> !p(#[trigger] s[i]) {
            assert(!p(s[n]));
            assert forall|i: int| 0 <= i < n implies !p(#[trigger] init[i]) by {
                assert(s[i] == init[i]);
            }
        }
    }
}

proof fn lemma_the_only(name: Seq<char>, files: Seq<Seq<char>>)
    requires
        !name.contains('/'),
    ensures
        the_only(only_named(files, name), name, files),
{
    let p = |f: Seq<char>| after_last(f, '/') == name;
    lemma_filter_count(files, p);
    assert(named(files, name) == files.filter(p));
    assert forall|i: int| 0 <= i < files.len() implies is_called(#[trigger] files[i], name) == p(files[i]) by {
        lemma_called(files[i], name);
    }
    let r = only_named(files, name);
    assert forall|i: int|
        0 <= i < files.len() && is_called(#[trigger] files[i], name) && (forall|j: int|
            0 <= j < files.len() && is_called(#[trigger] files[j], name) ==> j == i) implies r == seq![files[i]] by {
        assert(p(files[i]));
        assert forall|j: int| 0 <= j < files.len() && p(#[trigger] files[j]) implies j == i by {
            assert(is_called(files[j], name));
        }
    }
    assert forall|i: int, j: int|
        0 <= i < j < files.len() && is_called(#[trigger] files[i], name) && is_called(
            #[trigger] files[j],
            name,
        ) implies r.len() == 0 by {
        assert(p(files[i]) && p(files[j]));
    }
    if forall|i: int| 0 <= i < files.len() ==> !is_called(#[trigger] files[i], name) {
        assert forall|i: int| 0 <= i < files.len() implies !p(#[trigger] files[i]) by {
            assert(!is_called(files[i], name));
        }
    }
}

/// A dotted type name means the only file that bears its last part: `com.acme.Ledger`
/// is `Ledger.java` in Java and `Ledger.cs` in C#. A wildcard means nothing.
pub proof fn law_type_names(from: Seq<char>, qualifier: Seq<char>, name: Seq<char>, files: Seq<Seq<char>>)
    requires
        is_name(name),
        !name.contains('.'),
    ensures
        name != "*"@ ==> {
            &&& the_only(resolved("java"@, from, name, files), name + ".java"@, files)
            &&& the_only(resolved("java"@, from, qualifier + "."@ + name, files), name + ".java"@, files)
            &&& the_only(resolved("csharp"@, from, name, files), name + ".cs"@, files)
            &&& the_only(resolved("csharp"@, from, qualifier + "."@ + name, files), name + ".cs"@, files)
        },
        resolved("java"@, from, qualifier + ".*"@, files).len() == 0,
        resolved("csharp"@, from, qualifier + ".*"@, files).len() == 0,
{
    reveal_strlit(".");
    reveal_strlit("*");
    reveal_strlit(".*");
    reveal_strlit("java");
    reveal_strlit(".java");
    reveal_strlit("cs");
    reveal_strlit(".cs");
    lemma_languages();
    lemma_after(name, '.', name);
    let long = qualifier + "."@ + name;
    lemma_after(long, '.', name);
    assert(long =~= qualifier.push('.') + name);
    let star = qualifier + ".*"@;
    lemma_after(star, '.', "*"@);
    assert(star =~= qualifier.push('.') + "*"@);
    assert(name + "."@ + "java"@ =~= name + ".java"@);
    assert(name + "."@ + "cs"@ =~= name + ".cs"@);
    assert forall|t: Seq<char>| t == ".java"@ || t == ".cs"@ implies !(#[trigger] (name + t)).contains('/') by {
        if (name + t).contains('/') {
            let k = choose|k: int| 0 <= k < (name + t).len() && (name + t)[k] == '/';
            if k < name.len() {
                assert(name[k] == '/');
            } else {
                assert(t[k - name.len()] == '/');
            }
        }
    }
    assert(!(name + ".java"@).contains('/'));
    assert(!(name + ".cs"@).contains('/'));
    lemma_the_only(name + ".java"@, files);
    lemma_the_only(name + ".cs"@, files);
}

/// An include means the file beside the including one, or else the one at that path from
/// the root, or else the only file with that name.
pub proof fn law_includes(d: Seq<char>, file: Seq<char>, q: Seq<char>, files: Seq<Seq<char>>)
    requires
        is_dir(d),
        is_name(file),
        normal(q),
    ensures
        ({
            let r = resolved("cpp"@, under(d, file), q, files);
            &&& files.contains(under(d, q)) ==> r == seq![under(d, q)]
            &&& !files.contains(under(d, q)) && files.contains(q) ==> r == seq![q]
            &&& !files.contains(under(d, q)) && !files.contains(q) ==> forall|name: Seq<char>|
                is_name(name) && #[trigger] is_called(q, name) ==> the_only(r, name, files)
        }),
{
    lemma_languages();
    lemma_parent_under(d, file);
    lemma_normal_under(d, q);
    assert(joined(d, q) == under(d, q));
    assert forall|name: Seq<char>| is_name(name) && #[trigger] is_called(q, name) implies the_only(
        only_named(files, after_last(q, '/')),
        name,
        files,
    ) by {
        lemma_called(q, name);
        lemma_the_only(name, files);
    }
}

/// In an include path `./` stays in the including file's directory, and `../` goes to the
/// one around it.
pub proof fn law_include_dots(d: Seq<char>, c: Seq<char>, file: Seq<char>, q: Seq<char>, files: Seq<Seq<char>>)
    requires
        is_dir(d),
        plain_segment(c),
        is_name(file),
        normal(q),
        files.contains(under(d, q)),
    ensures
        resolved("cpp"@, under(d, file), "./"@ + q, files) == seq![under(d, q)],
        resolved("cpp"@, under(under(d, c), file), "../"@ + q, files) == seq![under(d, q)],
{
    lemma_languages();
    lemma_parent_under(d, file);
    lemma_parent_under(under(d, c), file);
    lemma_beside(d, q);
    lemma_above(d, c, q);
}

/// A language that is none of these has no imports that can be looked up.
pub proof fn law_other_languages(lang: Seq<char>, from: Seq<char>, spec: Seq<char>, files: Seq<Seq<char>>)
    requires
        lang != "typescript"@ && lang != "tsx"@ && lang != "javascript"@,
        lang != "python"@ && lang != "rust"@ && lang != "go"@,
        lang != "java"@ && lang != "csharp"@ && lang != "cpp"@,
    ensures
        resolved(lang, from, spec, files).len() == 0,
{
}

} // verus!
