//! Which file a Rust path means.

use vstd::prelude::*;
use vstd::string::*;

use crate::import_laws::{
    is_dir, is_name, lemma_ending, lemma_first_add, lemma_first_none, lemma_first_of, lemma_index, lemma_join_add,
    lemma_languages, lemma_name_normal, lemma_normal_under, lemma_parent_under, lemma_parts_normal, lemma_slash,
    normal, picks, under,
};
use crate::imports::{
    crate_root_of, first_of, joined, normalized, plain_segment, resolved, rs_downwards, rs_pair, stem_of,
};
use crate::text::{self, contains_text, find_from, occurs_at, split_text};

verus! {

broadcast use vstd::string::group_string_axioms;

/// Is it a name of a module?
pub open spec fn is_module(n: Seq<char>) -> bool {
    plain_segment(n) && !n.contains(':')
}

/// The file and the directory module at a path.
pub open spec fn module_at(at: Seq<char>) -> Seq<Seq<char>> {
    seq![at + ".rs"@, at + "/mod.rs"@]
}

/// The path of the first `n` names below a directory.
pub open spec fn below(root: Seq<char>, names: Seq<Seq<char>>, n: int) -> Seq<char> {
    under(root, text::join(names.take(n), "/"@))
}

/// Is there a module at a path?
pub open spec fn is_there(at: Seq<char>, files: Seq<Seq<char>>) -> bool {
    files.contains(at + ".rs"@) || files.contains(at + "/mod.rs"@)
}

/// Is a list the module that the most of the names lead to, and nothing where not
/// even the first one does?
pub open spec fn leads_furthest(r: Seq<Seq<char>>, root: Seq<char>, names: Seq<Seq<char>>, files: Seq<Seq<char>>) -> bool {
    &&& forall|n: int|
        1 <= n <= names.len() && is_there(#[trigger] below(root, names, n), files) && (forall|m: int|
            n < m <= names.len() ==> !is_there(#[trigger] below(root, names, m), files)) ==> picks(
            r,
            module_at(below(root, names, n)),
            files,
        )
    &&& (forall|n: int| 1 <= n <= names.len() ==> !is_there(#[trigger] below(root, names, n), files)) ==> r.len()
        == 0
}

proof fn lemma_module_at(root: Seq<char>, sub: Seq<char>)
    requires
        is_dir(root),
        normal(sub),
    ensures
        rs_pair(root, sub) == module_at(under(root, sub)),
        normalized(under(root, sub) + ".rs"@) == under(root, sub) + ".rs"@,
        normalized(under(root, sub) + "/mod.rs"@) == under(root, sub) + "/mod.rs"@,
{
    reveal_strlit(".rs");
    reveal_strlit("/mod.rs");
    lemma_slash();
    lemma_normal_under(root, sub);
    let at = under(root, sub);
    lemma_ending(at, ".rs"@);
    lemma_index(at, "/mod.rs"@);
    assert(joined(root, sub + ".rs"@) =~= at + ".rs"@);
    assert(joined(root, sub + "/mod.rs"@) =~= at + "/mod.rs"@);
    assert(rs_pair(root, sub) =~= module_at(at));
}

proof fn lemma_names_normal(names: Seq<Seq<char>>, n: int)
    requires
        1 <= n <= names.len(),
        forall|i: int| 0 <= i < names.len() ==> plain_segment(#[trigger] names[i]),
    ensures
        normal(text::join(names.take(n), "/"@)),
{
    let t = names.take(n);
    assert forall|i: int| 0 <= i < t.len() implies plain_segment(#[trigger] t[i]) by {
        assert(t[i] == names[i]);
    }
    lemma_parts_normal(t);
}

proof fn lemma_pair_first(pair: Seq<Seq<char>>, rest: Seq<Seq<char>>, files: Seq<Seq<char>>)
    requires
        pair.len() == 2,
        normalized(pair[0]) == pair[0],
        normalized(pair[1]) == pair[1],
    ensures
        files.contains(pair[0]) || files.contains(pair[1]) ==> picks(first_of(pair + rest, files), pair, files),
        !files.contains(pair[0]) && !files.contains(pair[1]) ==> first_of(pair + rest, files) == first_of(rest, files),
{
    lemma_first_of(pair, files);
    lemma_first_add(pair, rest, files);
    if !files.contains(pair[0]) && !files.contains(pair[1]) {
        lemma_first_none(pair, files);
    } else if files.contains(pair[0]) {
        assert(first_of(pair, files) == seq![pair[0]]);
    } else {
        assert(first_of(pair, files) == seq![pair[1]]);
    }
}

/// The pairs for the first `k` names and fewer.
proof fn lemma_downwards(root: Seq<char>, names: Seq<Seq<char>>, k: int, files: Seq<Seq<char>>)
    requires
        is_dir(root),
        0 <= k <= names.len(),
        forall|i: int| 0 <= i < names.len() ==> plain_segment(#[trigger] names[i]),
    ensures
        forall|n: int|
            1 <= n <= k && is_there(#[trigger] below(root, names, n), files) && (forall|m: int|
                n < m <= k ==> !is_there(#[trigger] below(root, names, m), files)) ==> picks(
                first_of(rs_downwards(root, names, k), files),
                module_at(below(root, names, n)),
                files,
            ),
        (forall|n: int| 1 <= n <= k ==> !is_there(#[trigger] below(root, names, n), files)) ==> first_of(
            rs_downwards(root, names, k),
            files,
        ).len() == 0,
    decreases k,
{
    if k > 0 {
        let sub = text::join(names.take(k), "/"@);
        lemma_names_normal(names, k);
        lemma_module_at(root, sub);
        let at = below(root, names, k);
        let pair = module_at(at);
        let rest = rs_downwards(root, names, k - 1);
        lemma_downwards(root, names, k - 1, files);
        lemma_pair_first(pair, rest, files);
        assert(rs_downwards(root, names, k) == pair + rest);
        assert(is_there(at, files) <==> files.contains(pair[0]) || files.contains(pair[1]));
    }
}

proof fn lemma_no_colon(s: Seq<char>, t: Seq<char>, i: int)
    requires
        !s.contains(':'),
        0 <= i <= s.len(),
        t.len() == 0 || (t.len() >= 2 && t[0] == ':' && t[1] == ':'),
    ensures
        find_from(s + t, "::"@, i) == if t.len() == 0 {
            None
        } else {
            Some(s.len() as int)
        },
    decreases s.len() - i,
{
    reveal_strlit("::");
    let all = s + t;
    if i < s.len() {
        assert(all[i] == s[i]);
        assert(s[i] != ':');
        assert(!occurs_at(all, "::"@, i)) by {
            if occurs_at(all, "::"@, i) {
                assert(all.subrange(i, i + 2)[0] == all[i]);
            }
        }
        if i + 2 > all.len() {
            assert(t.len() == 0);
        } else {
            lemma_no_colon(s, t, i + 1);
        }
    } else if t.len() > 0 {
        assert(all.subrange(i, i + 2) =~= "::"@);
        assert(occurs_at(all, "::"@, i));
    }
}

proof fn lemma_path_split(names: Seq<Seq<char>>)
    requires
        names.len() > 0,
        forall|i: int| 0 <= i < names.len() ==> !(#[trigger] names[i]).contains(':'),
    ensures
        split_text(text::join(names, "::"@), "::"@) == names,
        contains_text(text::join(names, "::"@), "::"@) <==> names.len() > 1,
    decreases names.len(),
{
    reveal_strlit("::");
    let s = text::join(names, "::"@);
    let head = names[0];
    assert(!names[0].contains(':'));
    if names.len() == 1 {
        let none = Seq::<char>::empty();
        lemma_no_colon(head, none, 0);
        assert(head + none =~= head);
        assert(names =~= seq![head]);
    } else {
        let rest = names.skip(1);
        assert forall|i: int| 0 <= i < rest.len() implies !(#[trigger] rest[i]).contains(':') by {
            assert(rest[i] == names[i + 1]);
        }
        lemma_path_split(rest);
        lemma_join_add(seq![head], rest, "::"@);
        assert(seq![head] + rest =~= names);
        let tail = "::"@ + text::join(rest, "::"@);
        assert(s =~= head + tail);
        lemma_no_colon(head, tail, 0);
        assert(s.take(head.len() as int) =~= head);
        assert(s.skip(head.len() as int + 2) =~= text::join(rest, "::"@));
    }
}

/// `mod q;`: the file or the directory module beside the declaring file, or else in
/// the directory that the declaring file's own name gives.
pub proof fn law_rust_module(d: Seq<char>, stem: Seq<char>, q: Seq<char>, files: Seq<Seq<char>>)
    requires
        is_dir(d),
        plain_segment(stem),
        d.len() == 0 || stem != "mod"@,
        is_module(q),
    ensures
        picks(
            resolved("rust"@, under(d, stem + ".rs"@), q, files),
            module_at(under(d, q)) + module_at(under(under(d, stem), q)),
            files,
        ),
{
    reveal_strlit(".rs");
    reveal_strlit("/mod");
    reveal_strlit("mod");
    lemma_slash();
    lemma_languages();
    let file = stem + ".rs"@;
    let from = under(d, file);
    let own = under(d, stem);
    assert(!file.contains('/')) by {
        if file.contains('/') {
            let k = choose|k: int| 0 <= k < file.len() && file[k] == '/';
            if k < stem.len() {
                assert(stem[k] == '/');
            } else {
                assert(".rs"@[k - stem.len()] == '/');
            }
        }
    }
    lemma_parent_under(d, file);
    assert(from =~= own + ".rs"@);
    assert(from.take(from.len() - 3) =~= own);
    assert(".rs"@ =~= from.skip(from.len() - 3));
    assert(!"/mod"@.is_suffix_of(own)) by {
        if "/mod"@.is_suffix_of(own) {
            let t = own.skip(own.len() - 4);
            assert(t =~= "/mod"@);
            let n = stem.len() as int;
            if n >= 4 {
                assert(stem[n - 4] == t[0]);
            } else if d.len() > 0 {
                assert(own[own.len() - n - 1] == '/');
                assert(t[4 - n - 1] == '/');
                assert(n == 3);
                assert(stem[0] == t[1] && stem[1] == t[2] && stem[2] == t[3]);
                assert(stem =~= "mod"@);
            }
        }
    }
    assert(stem_of(from) == own);
    lemma_rust_pairs(d, own, q, files);
    assert(!contains_text(q, "::"@)) by {
        lemma_path_split(seq![q]);
    }
}

proof fn lemma_rust_pairs(d: Seq<char>, own: Seq<char>, q: Seq<char>, files: Seq<Seq<char>>)
    requires
        is_dir(d),
        is_dir(own) || exists|s: Seq<char>| plain_segment(s) && own == #[trigger] under(d, s),
        is_module(q),
    ensures
        picks(
            first_of(rs_pair(d, q) + rs_pair(own, q), files),
            module_at(under(d, q)) + module_at(under(own, q)),
            files,
        ),
{
    if !is_dir(own) {
        let s = choose|s: Seq<char>| plain_segment(s) && own == #[trigger] under(d, s);
        lemma_name_normal(s);
        lemma_normal_under(d, s);
    }
    lemma_name_normal(q);
    lemma_module_at(d, q);
    lemma_module_at(own, q);
    let all = module_at(under(d, q)) + module_at(under(own, q));
    assert forall|k: int| 0 <= k < all.len() implies normalized(#[trigger] all[k]) == all[k] by {
        if k == 0 {
            assert(all[k] == under(d, q) + ".rs"@);
        } else if k == 1 {
            assert(all[k] == under(d, q) + "/mod.rs"@);
        } else if k == 2 {
            assert(all[k] == under(own, q) + ".rs"@);
        } else {
            assert(all[k] == under(own, q) + "/mod.rs"@);
        }
    }
    lemma_first_of(all, files);
}

/// `mod q;` in a directory's own module file: the file or the directory module in that
/// directory.
pub proof fn law_rust_directory_module(d: Seq<char>, q: Seq<char>, files: Seq<Seq<char>>)
    requires
        normal(d),
        is_module(q),
    ensures
        picks(resolved("rust"@, d + "/mod.rs"@, q, files), module_at(under(d, q)), files),
{
    reveal_strlit("mod.rs");
    reveal_strlit("/mod.rs");
    reveal_strlit("/mod");
    reveal_strlit(".rs");
    lemma_slash();
    lemma_languages();
    let from = d + "/mod.rs"@;
    assert(from =~= under(d, "mod.rs"@));
    lemma_parent_under(d, "mod.rs"@);
    let own = from.take(from.len() - 3);
    assert(own =~= d + "/mod"@);
    assert("/mod"@ =~= own.skip(own.len() - 4));
    assert(stem_of(from) == d);
    assert(!contains_text(q, "::"@)) by {
        lemma_path_split(seq![q]);
    }
    lemma_name_normal(q);
    lemma_module_at(d, q);
    let pair = rs_pair(d, q);
    lemma_first_of(pair, files);
    lemma_first_add(pair, pair, files);
    lemma_first_none(pair, files);
}

/// The path that the names make.
pub open spec fn rust_path(names: Seq<Seq<char>>) -> Seq<char> {
    text::join(names, "::"@)
}

proof fn lemma_heads()
    ensures
        "crate"@ != "self"@,
        "crate"@ != "super"@,
        "self"@ != "super"@,
        !"crate"@.contains(':'),
        !"self"@.contains(':'),
        !"super"@.contains(':'),
{
    reveal_strlit("crate");
    reveal_strlit("self");
    reveal_strlit("super");
    assert("crate"@.len() == 5 && "crate"@[0] == 'c');
    assert("self"@.len() == 4);
    assert("super"@.len() == 5 && "super"@[0] == 's');
}

proof fn lemma_headed(head: Seq<char>, names: Seq<Seq<char>>)
    requires
        !head.contains(':'),
        names.len() > 0,
        forall|i: int| 0 <= i < names.len() ==> is_module(#[trigger] names[i]),
    ensures
        split_text(rust_path(seq![head] + names), "::"@) == seq![head] + names,
        contains_text(rust_path(seq![head] + names), "::"@),
        (seq![head] + names).skip(1) == names,
        forall|i: int| 0 <= i < names.len() ==> plain_segment(#[trigger] names[i]),
{
    let all = seq![head] + names;
    assert forall|i: int| 0 <= i < all.len() implies !(#[trigger] all[i]).contains(':') by {
        if i > 0 {
            assert(is_module(names[i - 1]));
        }
    }
    lemma_path_split(all);
    assert(all.skip(1) =~= names);
    assert forall|i: int| 0 <= i < names.len() implies plain_segment(#[trigger] names[i]) by {
        assert(is_module(names[i]));
    }
}

/// A path that starts with `self` leads down from the importing file's directory.
pub proof fn law_rust_self(d: Seq<char>, file: Seq<char>, names: Seq<Seq<char>>, files: Seq<Seq<char>>)
    requires
        is_dir(d),
        is_name(file),
        names.len() > 0,
        forall|i: int| 0 <= i < names.len() ==> is_module(#[trigger] names[i]),
    ensures
        leads_furthest(
            resolved("rust"@, under(d, file), rust_path(seq!["self"@] + names), files),
            d,
            names,
            files,
        ),
{
    lemma_languages();
    lemma_heads();
    lemma_headed("self"@, names);
    lemma_parent_under(d, file);
    lemma_downwards(d, names, names.len() as int, files);
}

/// A path that starts with `super` leads down from the directory around the importing
/// file's.
pub proof fn law_rust_super(d: Seq<char>, c: Seq<char>, file: Seq<char>, names: Seq<Seq<char>>, files: Seq<Seq<char>>)
    requires
        is_dir(d),
        is_name(c),
        is_name(file),
        names.len() > 0,
        forall|i: int| 0 <= i < names.len() ==> is_module(#[trigger] names[i]),
    ensures
        leads_furthest(
            resolved("rust"@, under(under(d, c), file), rust_path(seq!["super"@] + names), files),
            d,
            names,
            files,
        ),
{
    lemma_languages();
    lemma_heads();
    lemma_headed("super"@, names);
    lemma_parent_under(under(d, c), file);
    lemma_parent_under(d, c);
    lemma_downwards(d, names, names.len() as int, files);
}

/// Is it the source directory of the crate that holds a file: the first one on the way
/// down whose name ends in `src`, or the file's own where there is none?
pub open spec fn source_dir(root: Seq<char>, from: Seq<char>) -> bool {
    ||| {
        &&& "src"@.is_suffix_of(root)
        &&& (root + "/"@).is_prefix_of(from)
        &&& forall|i: int| !#[trigger] occurs_at(root, "src/"@, i)
    }
    ||| {
        &&& forall|i: int| !#[trigger] occurs_at(from, "src/"@, i)
        &&& exists|name: Seq<char>| is_name(name) && from == #[trigger] under(root, name)
    }
}

proof fn lemma_find_src(root: Seq<char>, from: Seq<char>, i: int)
    requires
        "src"@.is_suffix_of(root),
        (root + "/"@).is_prefix_of(from),
        forall|k: int| !#[trigger] occurs_at(root, "src/"@, k),
        0 <= i <= root.len() - 3,
    ensures
        find_from(from, "src/"@, i) == Some(root.len() - 3),
    decreases root.len() - i,
{
    reveal_strlit("src");
    reveal_strlit("src/");
    lemma_slash();
    let n = root.len() as int;
    assert(from.take(n + 1) =~= root + "/"@);
    assert forall|k: int| 0 <= k <= n implies from[k] == #[trigger] (root + "/"@)[k] by {
        assert(from.take(n + 1)[k] == from[k]);
    }
    if i == n - 3 {
        let t = root.skip(n - 3);
        assert(t =~= "src"@);
        let w = from.subrange(i, i + 4);
        assert(w[0] == (root + "/"@)[i] && (root + "/"@)[i] == t[0]);
        assert(w[1] == (root + "/"@)[i + 1] && (root + "/"@)[i + 1] == t[1]);
        assert(w[2] == (root + "/"@)[i + 2] && (root + "/"@)[i + 2] == t[2]);
        assert(w[3] == (root + "/"@)[i + 3]);
        assert(w =~= "src/"@);
        assert(occurs_at(from, "src/"@, i));
    } else {
        assert(!occurs_at(from, "src/"@, i)) by {
            if occurs_at(from, "src/"@, i) {
                assert forall|k: int| 0 <= k < 4 implies root.subrange(i, i + 4)[k] == "src/"@[k] by {
                    assert(from.subrange(i, i + 4)[k] == "src/"@[k]);
                    assert(from[i + k] == (root + "/"@)[i + k]);
                }
                assert(root.subrange(i, i + 4) =~= "src/"@);
                assert(occurs_at(root, "src/"@, i));
            }
        }
        lemma_find_src(root, from, i + 1);
    }
}

proof fn lemma_find_none(s: Seq<char>, p: Seq<char>, i: int)
    requires
        forall|k: int| !#[trigger] occurs_at(s, p, k),
        0 <= i,
    ensures
        find_from(s, p, i) is None,
    decreases s.len() + 1 - i,
{
    if i + p.len() <= s.len() {
        assert(!occurs_at(s, p, i));
        lemma_find_none(s, p, i + 1);
    }
}

proof fn lemma_source_dir(root: Seq<char>, from: Seq<char>)
    requires
        source_dir(root, from),
    ensures
        crate_root_of(from) == root,
{
    reveal_strlit("src");
    reveal_strlit("src/");
    if forall|i: int| !#[trigger] occurs_at(from, "src/"@, i) {
        lemma_find_none(from, "src/"@, 0);
        if exists|name: Seq<char>| is_name(name) && from == #[trigger] under(root, name) {
            let name = choose|name: Seq<char>| is_name(name) && from == #[trigger] under(root, name);
            lemma_parent_under(root, name);
        } else {
            lemma_find_src(root, from, 0);
        }
    } else {
        lemma_find_src(root, from, 0);
        lemma_slash();
        let n = root.len() as int;
        assert(from.take(n + 1) =~= root + "/"@);
        assert(from.take(n) =~= from.take(n + 1).take(n));
        assert((root + "/"@).take(n) =~= root);
    }
}

/// A path that starts with `crate` leads down from the crate's source directory.
pub proof fn law_rust_crate(root: Seq<char>, from: Seq<char>, names: Seq<Seq<char>>, files: Seq<Seq<char>>)
    requires
        is_dir(root),
        source_dir(root, from),
        names.len() > 0,
        forall|i: int| 0 <= i < names.len() ==> is_module(#[trigger] names[i]),
    ensures
        leads_furthest(
            resolved("rust"@, from, rust_path(seq!["crate"@] + names), files),
            root,
            names,
            files,
        ),
{
    lemma_languages();
    lemma_heads();
    lemma_headed("crate"@, names);
    lemma_source_dir(root, from);
    lemma_downwards(root, names, names.len() as int, files);
}

/// A path of several names whose first is none of `crate`, `self` and `super` means what
/// it means with `crate` in front.
pub proof fn law_rust_bare_path(from: Seq<char>, names: Seq<Seq<char>>, files: Seq<Seq<char>>)
    requires
        names.len() > 1,
        names[0] != "crate"@,
        names[0] != "self"@,
        names[0] != "super"@,
        forall|i: int| 0 <= i < names.len() ==> is_module(#[trigger] names[i]),
    ensures
        resolved("rust"@, from, rust_path(names), files) == resolved(
            "rust"@,
            from,
            rust_path(seq!["crate"@] + names),
            files,
        ),
{
    lemma_languages();
    lemma_heads();
    lemma_headed("crate"@, names);
    assert forall|i: int| 0 <= i < names.len() implies !(#[trigger] names[i]).contains(':') by {
        assert(is_module(names[i]));
    }
    lemma_path_split(names);
}

} // verus!
