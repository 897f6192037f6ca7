//! Which file an import means, language by language.

use vstd::prelude::*;
use vstd::string::*;

use crate::imports::{
    collapsed, first_of, joined, js_candidates, js_exts, js_resolved, law_parent_shorter, lemma_collapsed_fixed,
    lemma_collapsed_plain, lemma_split_join, lemma_split_segments, lemma_split_tail, normalized, parent_of,
    plain_segment, py_pair, py_upwards, resolved, up,
};
use crate::text::{self, replaced, split, trim_start};

verus! {

broadcast use vstd::string::group_string_axioms;

// ---------------------------------------------------------------------------- paths

/// A name inside a directory; the empty directory is the root of the repository.
pub open spec fn under(d: Seq<char>, name: Seq<char>) -> Seq<char> {
    if d.len() == 0 {
        name
    } else {
        d + "/"@ + name
    }
}

/// Is it a path without empty segments, `.` and `..`?
pub open spec fn normal(q: Seq<char>) -> bool {
    q.len() > 0 && normalized(q) == q
}

/// Is it a directory of the repository, or its root?
pub open spec fn is_dir(d: Seq<char>) -> bool {
    d.len() == 0 || normal(d)
}

/// Is it the name of something in a directory?
pub open spec fn is_name(n: Seq<char>) -> bool {
    n.len() > 0 && !n.contains('/')
}

/// Is a list the first of some options that is a file, and nothing where none is?
pub open spec fn picks(r: Seq<Seq<char>>, options: Seq<Seq<char>>, files: Seq<Seq<char>>) -> bool {
    &&& forall|k: int|
        0 <= k < options.len() && files.contains(#[trigger] options[k]) && (forall|h: int|
            0 <= h < k ==> !files.contains(#[trigger] options[h])) ==> r == seq![options[k]]
    &&& (forall|k: int| 0 <= k < options.len() ==> !files.contains(#[trigger] options[k])) ==> r.len() == 0
}

pub(crate) proof fn lemma_slash()
    ensures
        "/"@ == seq!['/'],
{
    reveal_strlit("/");
    assert("/"@ =~= seq!['/']);
}

/// Splitting where a slash joins two texts.
pub(crate) proof fn lemma_split_slash(a: Seq<char>, b: Seq<char>)
    ensures
        split(a + "/"@ + b, '/') == split(a, '/') + split(b, '/'),
    decreases b.len(),
{
    lemma_slash();
    let s = a + "/"@ + b;
    lemma_split_segments(a);
    if b.len() == 0 {
        assert(s.drop_last() =~= a);
        assert(s.last() == '/');
        assert(split(b, '/') =~= seq![Seq::<char>::empty()]);
        assert(split(s, '/') =~= split(a, '/') + split(b, '/'));
    } else {
        lemma_split_slash(a, b.drop_last());
        lemma_split_segments(b.drop_last());
        assert(s.drop_last() =~= a + "/"@ + b.drop_last());
        assert(s.last() == b.last());
        assert(split(s, '/') =~= split(a, '/') + split(b, '/'));
    }
}

pub(crate) proof fn lemma_join_add(a: Seq<Seq<char>>, b: Seq<Seq<char>>, sep: Seq<char>)
    requires
        a.len() > 0,
        b.len() > 0,
    ensures
        text::join(a + b, sep) == text::join(a, sep) + sep + text::join(b, sep),
    decreases b.len(),
{
    let all = a + b;
    assert(all.drop_last() =~= a + b.drop_last());
    assert(all.last() == b.last());
    if b.len() == 1 {
        assert(a + b.drop_last() =~= a);
    } else {
        lemma_join_add(a, b.drop_last(), sep);
        assert(text::join(all, sep) =~= text::join(a, sep) + sep + text::join(b, sep));
    }
}

/// The segments of a normal path are plain, and the path is made of them.
pub(crate) proof fn lemma_normal_parts(q: Seq<char>)
    requires
        normal(q),
    ensures
        split(q, '/').len() > 0,
        forall|i: int| 0 <= i < split(q, '/').len() ==> plain_segment(#[trigger] split(q, '/')[i]),
        text::join(split(q, '/'), "/"@) == q,
{
    let parts = split(q, '/');
    lemma_split_segments(q);
    lemma_collapsed_plain(parts);
    let c = collapsed(parts);
    if c.len() > 0 {
        assert forall|i: int| 0 <= i < c.len() implies !(#[trigger] c[i]).contains('/') by {
            assert(plain_segment(c[i]));
        }
        lemma_split_join(c);
    }
}

proof fn lemma_join_long(parts: Seq<Seq<char>>)
    requires
        parts.len() > 0,
        parts[0].len() > 0,
    ensures
        text::join(parts, "/"@).len() > 0,
    decreases parts.len(),
{
    lemma_slash();
    if parts.len() > 1 {
        assert(parts.drop_last()[0] == parts[0]);
        lemma_join_long(parts.drop_last());
    }
}

/// Plain segments make a normal path.
pub(crate) proof fn lemma_parts_normal(parts: Seq<Seq<char>>)
    requires
        parts.len() > 0,
        forall|i: int| 0 <= i < parts.len() ==> plain_segment(#[trigger] parts[i]),
    ensures
        normal(text::join(parts, "/"@)),
        split(text::join(parts, "/"@), '/') == parts,
{
    assert forall|i: int| 0 <= i < parts.len() implies !(#[trigger] parts[i]).contains('/') by {
        assert(plain_segment(parts[i]));
    }
    lemma_split_join(parts);
    lemma_collapsed_fixed(parts);
    reveal_strlit("");
    assert(plain_segment(parts[0]));
    assert(parts[0].len() > 0) by {
        if parts[0].len() == 0 {
            assert(parts[0] =~= ""@);
        }
    }
    lemma_join_long(parts);
}

pub(crate) proof fn lemma_normal_under(d: Seq<char>, q: Seq<char>)
    requires
        is_dir(d),
        normal(q),
    ensures
        normal(under(d, q)),
        d.len() > 0 ==> split(under(d, q), '/') == split(d, '/') + split(q, '/'),
{
    if d.len() > 0 {
        lemma_normal_parts(d);
        lemma_normal_parts(q);
        let a = split(d, '/');
        let b = split(q, '/');
        lemma_join_add(a, b, "/"@);
        assert forall|i: int| 0 <= i < (a + b).len() implies plain_segment(#[trigger] (a + b)[i]) by {
            if i < a.len() {
                assert(plain_segment(a[i]));
            } else {
                assert(plain_segment(b[i - a.len()]));
            }
        }
        lemma_parts_normal(a + b);
    }
}

/// A normal path with an ending is normal.
pub(crate) proof fn lemma_normal_ext(q: Seq<char>, t: Seq<char>)
    requires
        normal(q),
        !t.contains('/'),
        t.len() >= 3,
    ensures
        normal(q + t),
{
    lemma_normal_parts(q);
    let a = split(q, '/');
    let l = a.last() + t;
    reveal_strlit("");
    reveal_strlit(".");
    reveal_strlit("..");
    assert(plain_segment(a[a.len() - 1]));
    assert(!l.contains('/')) by {
        if l.contains('/') {
            let k = choose|k: int| 0 <= k < l.len() && l[k] == '/';
            if k < a.last().len() {
                assert(a.last()[k] == '/');
                assert(a[a.len() - 1].contains('/'));
            } else {
                assert(t[k - a.last().len()] == '/');
            }
        }
    }
    assert(""@.len() == 0 && "."@.len() == 1 && ".."@.len() == 2);
    assert(plain_segment(l));
    let b = a.drop_last().push(l);
    assert forall|i: int| 0 <= i < b.len() implies plain_segment(#[trigger] b[i]) by {
        if i < a.len() - 1 {
            assert(plain_segment(a[i]));
        }
    }
    lemma_parts_normal(b);
    assert(b.drop_last() =~= a.drop_last());
    assert(text::join(b, "/"@) =~= q + t);
}

pub(crate) proof fn lemma_name_normal(n: Seq<char>)
    requires
        plain_segment(n),
    ensures
        normal(n),
{
    lemma_parts_normal(seq![n]);
    assert(text::join(seq![n], "/"@) == n);
}

/// What lies directly in a directory has that directory as its parent.
pub(crate) proof fn lemma_parent_under(d: Seq<char>, name: Seq<char>)
    requires
        !name.contains('/'),
    ensures
        parent_of(under(d, name)) == d,
    decreases name.len(),
{
    lemma_slash();
    let p = under(d, name);
    if name.len() == 0 {
        if d.len() == 0 {
            assert(d =~= Seq::empty());
        } else {
            assert(p.last() == '/');
            assert(p.drop_last() =~= d);
        }
    } else {
        let init = name.drop_last();
        assert(!init.contains('/')) by {
            if init.contains('/') {
                let k = choose|k: int| 0 <= k < init.len() && init[k] == '/';
                assert(name[k] == '/');
            }
        }
        lemma_parent_under(d, init);
        assert(p.drop_last() =~= under(d, init));
        assert(name[name.len() - 1] != '/');
        assert(p.last() == name.last());
    }
}

pub(crate) proof fn lemma_first_of(cands: Seq<Seq<char>>, files: Seq<Seq<char>>)
    requires
        forall|k: int| 0 <= k < cands.len() ==> normalized(#[trigger] cands[k]) == cands[k],
    ensures
        picks(first_of(cands, files), cands, files),
    decreases cands.len(),
{
    if cands.len() > 0 {
        let rest = cands.drop_first();
        assert forall|k: int| 0 <= k < rest.len() implies normalized(#[trigger] rest[k]) == rest[k] by {
            assert(rest[k] == cands[k + 1]);
        }
        lemma_first_of(rest, files);
        assert(normalized(cands[0]) == cands[0]);
        let r = first_of(cands, files);
        assert forall|k: int|
            0 <= k < cands.len() && files.contains(#[trigger] cands[k]) && (forall|h: int|
                0 <= h < k ==> !files.contains(#[trigger] cands[h])) implies r == seq![cands[k]] by {
            if k > 0 {
                assert(!files.contains(cands[0]));
                assert(rest[k - 1] == cands[k]);
                assert forall|h: int| 0 <= h < k - 1 implies !files.contains(#[trigger] rest[h]) by {
                    assert(rest[h] == cands[h + 1]);
                }
            }
        }
        if forall|k: int| 0 <= k < cands.len() ==> !files.contains(#[trigger] cands[k]) {
            assert(!files.contains(cands[0]));
            assert forall|k: int| 0 <= k < rest.len() implies !files.contains(#[trigger] rest[k]) by {
                assert(rest[k] == cands[k + 1]);
            }
        }
    }
}

pub(crate) proof fn lemma_languages()
    ensures
        "python"@ != "typescript"@ && "python"@ != "tsx"@ && "python"@ != "javascript"@,
        "rust"@ != "typescript"@ && "rust"@ != "tsx"@ && "rust"@ != "javascript"@ && "rust"@ != "python"@,
        "go"@ != "typescript"@ && "go"@ != "tsx"@ && "go"@ != "javascript"@ && "go"@ != "python"@ && "go"@
            != "rust"@,
        "java"@ != "typescript"@ && "java"@ != "tsx"@ && "java"@ != "javascript"@ && "java"@ != "python"@
            && "java"@ != "rust"@ && "java"@ != "go"@,
        "csharp"@ != "typescript"@ && "csharp"@ != "tsx"@ && "csharp"@ != "javascript"@ && "csharp"@
            != "python"@ && "csharp"@ != "rust"@ && "csharp"@ != "go"@ && "csharp"@ != "java"@,
        "cpp"@ != "typescript"@ && "cpp"@ != "tsx"@ && "cpp"@ != "javascript"@ && "cpp"@ != "python"@
            && "cpp"@ != "rust"@ && "cpp"@ != "go"@ && "cpp"@ != "java"@ && "cpp"@ != "csharp"@,
{
    reveal_strlit("typescript");
    reveal_strlit("tsx");
    reveal_strlit("javascript");
    reveal_strlit("python");
    reveal_strlit("rust");
    reveal_strlit("go");
    reveal_strlit("java");
    reveal_strlit("csharp");
    reveal_strlit("cpp");
    assert("typescript"@.len() == 10 && "typescript"@[0] == 't');
    assert("tsx"@.len() == 3 && "tsx"@[0] == 't');
    assert("javascript"@.len() == 10 && "javascript"@[0] == 'j');
    assert("python"@.len() == 6 && "python"@[0] == 'p');
    assert("rust"@.len() == 4 && "rust"@[0] == 'r');
    assert("go"@.len() == 2 && "go"@[0] == 'g');
    assert("java"@.len() == 4 && "java"@[0] == 'j');
    assert("csharp"@.len() == 6 && "csharp"@[0] == 'c');
    assert("cpp"@.len() == 3 && "cpp"@[0] == 'c');
}

// --------------------------------------------------------------------------- Python

proof fn lemma_dots(n: nat, m: Seq<char>)
    requires
        m.len() > 0,
        m[0] != '.',
    ensures
        trim_start(Seq::new(n, |i: int| '.') + m, |c: char| c == '.') == m,
    decreases n,
{
    let s = Seq::new(n, |i: int| '.') + m;
    if n > 0 {
        lemma_dots((n - 1) as nat, m);
        assert(s.drop_first() =~= Seq::new((n - 1) as nat, |i: int| '.') + m);
        assert(s[0] == '.');
    } else {
        assert(s =~= m);
    }
}

/// A dotted name as a path: slashes in place of the dots.
pub open spec fn dotted(m: Seq<char>, rel: Seq<char>) -> bool {
    &&& rel.len() == m.len()
    &&& forall|k: int| 0 <= k < m.len() ==> #[trigger] rel[k] == if m[k] == '.' {
        '/'
    } else {
        m[k]
    }
}

/// The module and the package of that name in a directory.
pub open spec fn module_in(d: Seq<char>, rel: Seq<char>) -> Seq<Seq<char>> {
    seq![under(d, rel) + ".py"@, under(d, rel) + "/__init__.py"@]
}

proof fn lemma_module_normal(d: Seq<char>, rel: Seq<char>)
    requires
        is_dir(d),
        normal(rel),
    ensures
        module_in(d, rel) == py_pair(d, rel),
        forall|k: int|
            0 <= k < module_in(d, rel).len() ==> normalized(#[trigger] module_in(d, rel)[k]) == module_in(
                d,
                rel,
            )[k],
{
    reveal_strlit(".py");
    reveal_strlit("__init__.py");
    reveal_strlit("/__init__.py");
    reveal_strlit("");
    reveal_strlit(".");
    reveal_strlit("..");
    lemma_slash();
    lemma_normal_under(d, rel);
    let at = under(d, rel);
    lemma_normal_ext(at, ".py"@);
    assert(""@.len() == 0 && "."@.len() == 1 && ".."@.len() == 2);
    assert(!"__init__.py"@.contains('/')) by {
        if "__init__.py"@.contains('/') {
            let k = choose|k: int| 0 <= k < "__init__.py"@.len() && "__init__.py"@[k] == '/';
            assert(k == 0 || k == 1 || k == 2 || k == 3 || k == 4 || k == 5 || k == 6 || k == 7 || k == 8 || k == 9
                || k == 10);
        }
    }
    lemma_name_normal("__init__.py"@);
    lemma_normal_under(at, "__init__.py"@);
    assert(at + "/__init__.py"@ =~= under(at, "__init__.py"@));
    assert(module_in(d, rel) =~= py_pair(d, rel));
}

/// `from .m import x`: the module beside the importing file, or else the package; a
/// dotted name goes down into directories.
pub proof fn law_python_relative(d: Seq<char>, file: Seq<char>, m: Seq<char>, rel: Seq<char>, files: Seq<Seq<char>>)
    requires
        is_dir(d),
        is_name(file),
        m.len() > 0,
        m[0] != '.',
        dotted(m, rel),
        normal(rel),
    ensures
        picks(
            resolved("python"@, under(d, file), "."@ + m, files),
            seq![under(d, rel) + ".py"@, under(d, rel) + "/__init__.py"@],
            files,
        ),
{
    lemma_languages();
    reveal_strlit(".");
    lemma_parent_under(d, file);
    lemma_dots(1, m);
    assert("."@ + m =~= Seq::new(1, |i: int| '.') + m);
    assert(replaced(m, '.', '/') =~= rel);
    lemma_module_normal(d, rel);
    lemma_first_of(module_in(d, rel), files);
}

proof fn lemma_trim_again(s: Seq<char>, f: spec_fn(char) -> bool, c: char)
    requires
        f(c),
    ensures
        trim_start(seq![c] + s, f) == trim_start(s, f),
{
    assert((seq![c] + s).drop_first() =~= s);
    assert((seq![c] + s)[0] == c);
}

proof fn lemma_trim_len(s: Seq<char>, f: spec_fn(char) -> bool)
    ensures
        trim_start(s, f).len() <= s.len(),
        s.len() > 0 && f(s[0]) ==> trim_start(s, f).len() < s.len(),
    decreases s.len(),
{
    if s.len() > 0 && f(s[0]) {
        lemma_trim_len(s.drop_first(), f);
    }
}

/// One more leading dot is one directory up: it means what one dot less means from
/// there.
pub proof fn law_python_dots_climb(
    d: Seq<char>,
    c: Seq<char>,
    file: Seq<char>,
    other: Seq<char>,
    spec: Seq<char>,
    files: Seq<Seq<char>>,
)
    requires
        is_name(c),
        is_name(file),
        is_name(other),
        spec.len() > 0,
        spec[0] == '.',
    ensures
        resolved("python"@, under(under(d, c), file), "."@ + spec, files) == resolved(
            "python"@,
            under(d, other),
            spec,
            files,
        ),
{
    lemma_languages();
    reveal_strlit(".");
    assert("."@ =~= seq!['.']);
    let f = |x: char| x == '.';
    lemma_trim_again(spec, f, '.');
    lemma_trim_len(spec, f);
    lemma_parent_under(under(d, c), file);
    lemma_parent_under(d, c);
    lemma_parent_under(d, other);
    let dots = ("."@ + spec).len() - trim_start(spec, f).len();
    assert(dots >= 2);
    assert(up(under(d, c), (dots - 1) as nat) == up(d, (dots - 2) as nat));
}

/// What an absolute import is looked for as: at the root, then upwards.
proof fn lemma_python_upwards(d: Seq<char>, file: Seq<char>, m: Seq<char>, rel: Seq<char>, files: Seq<Seq<char>>)
    requires
        is_name(file),
        m.len() > 0,
        m[0] != '.',
        dotted(m, rel),
    ensures
        resolved("python"@, under(d, file), m, files) == first_of(
            py_pair(Seq::empty(), rel) + py_upwards(d, rel),
            files,
        ),
{
    lemma_languages();
    assert(trim_start(m, |x: char| x == '.') == m);
    assert(replaced(m, '.', '/') =~= rel);
    lemma_parent_under(d, file);
}

proof fn lemma_upwards_above(d: Seq<char>, c: Seq<char>, rel: Seq<char>)
    requires
        is_name(c),
    ensures
        py_upwards(under(d, c), rel) == py_pair(under(d, c), rel) + py_upwards(d, rel),
{
    lemma_slash();
    lemma_parent_under(d, c);
    law_parent_shorter(under(d, c));
}

proof fn lemma_pick_first(root: Seq<Seq<char>>, mine: Seq<Seq<char>>, above: Seq<Seq<char>>, files: Seq<Seq<char>>)
    requires
        root.len() == 2,
        mine.len() == 2,
        forall|k: int| 0 <= k < root.len() ==> normalized(#[trigger] root[k]) == root[k],
        forall|k: int| 0 <= k < mine.len() ==> normalized(#[trigger] mine[k]) == mine[k],
    ensures
        ({
            let r = first_of(root + (mine + above), files);
            let at_root = files.contains(root[0]) || files.contains(root[1]);
            let beside = files.contains(mine[0]) || files.contains(mine[1]);
            &&& at_root ==> picks(r, root, files)
            &&& !at_root && beside ==> picks(r, mine, files)
            &&& !at_root && !beside ==> r == first_of(root + above, files)
        }),
{
    lemma_first_of(root, files);
    lemma_first_of(mine, files);
    lemma_first_add(root, mine + above, files);
    lemma_first_add(mine, above, files);
    lemma_first_add(root, above, files);
    lemma_first_none(root, files);
    lemma_first_none(mine, files);
}

/// `import m`, nothing relative: the module at the root of the repository, or its
/// package; else the one beside the importing file, or its package; and where that
/// directory has neither, whatever the directory above it gives.
pub proof fn law_python_absolute(
    d: Seq<char>,
    c: Seq<char>,
    file: Seq<char>,
    other: Seq<char>,
    m: Seq<char>,
    rel: Seq<char>,
    files: Seq<Seq<char>>,
)
    requires
        is_dir(d),
        plain_segment(c),
        is_name(file),
        is_name(other),
        m.len() > 0,
        m[0] != '.',
        dotted(m, rel),
        normal(rel),
    ensures
        ({
            let r = resolved("python"@, under(under(d, c), file), m, files);
            let here = under(under(d, c), rel);
            let at_root = files.contains(rel + ".py"@) || files.contains(rel + "/__init__.py"@);
            let beside = files.contains(here + ".py"@) || files.contains(here + "/__init__.py"@);
            &&& at_root ==> picks(r, seq![rel + ".py"@, rel + "/__init__.py"@], files)
            &&& !at_root && beside ==> picks(r, seq![here + ".py"@, here + "/__init__.py"@], files)
            &&& !at_root && !beside ==> r == resolved("python"@, under(d, other), m, files)
        }),
{
    let none = Seq::<char>::empty();
    let e = under(d, c);
    reveal_strlit("");
    assert(c.len() > 0) by {
        if c.len() == 0 {
            assert(c =~= ""@);
        }
    }
    lemma_name_normal(c);
    lemma_normal_under(d, c);
    lemma_python_upwards(e, file, m, rel, files);
    lemma_python_upwards(d, other, m, rel, files);
    lemma_upwards_above(d, c, rel);
    lemma_module_normal(none, rel);
    lemma_module_normal(e, rel);
    lemma_pick_first(py_pair(none, rel), py_pair(e, rel), py_upwards(d, rel), files);
    assert(module_in(none, rel) =~= seq![rel + ".py"@, rel + "/__init__.py"@]);
}

pub(crate) proof fn lemma_first_none(cands: Seq<Seq<char>>, files: Seq<Seq<char>>)
    requires
        forall|k: int| 0 <= k < cands.len() ==> normalized(#[trigger] cands[k]) == cands[k],
    ensures
        first_of(cands, files).len() == 0 <==> forall|k: int|
            0 <= k < cands.len() ==> !files.contains(#[trigger] cands[k]),
    decreases cands.len(),
{
    if cands.len() > 0 {
        let rest = cands.drop_first();
        assert forall|k: int| 0 <= k < rest.len() implies normalized(#[trigger] rest[k]) == rest[k] by {
            assert(rest[k] == cands[k + 1]);
        }
        lemma_first_none(rest, files);
        assert(normalized(cands[0]) == cands[0]);
        if forall|k: int| 0 <= k < cands.len() ==> !files.contains(#[trigger] cands[k]) {
            assert(!files.contains(cands[0]));
            assert forall|k: int| 0 <= k < rest.len() implies !files.contains(#[trigger] rest[k]) by {
                assert(rest[k] == cands[k + 1]);
            }
        }
        if first_of(cands, files).len() == 0 {
            assert forall|k: int| 0 <= k < cands.len() implies !files.contains(#[trigger] cands[k]) by {
                if k > 0 {
                    assert(rest[k - 1] == cands[k]);
                }
            }
        }
    }
}

pub(crate) proof fn lemma_first_add(a: Seq<Seq<char>>, b: Seq<Seq<char>>, files: Seq<Seq<char>>)
    ensures
        first_of(a + b, files) == if first_of(a, files).len() > 0 {
            first_of(a, files)
        } else {
            first_of(b, files)
        },
    decreases a.len(),
{
    if a.len() == 0 {
        assert(a + b =~= b);
    } else {
        lemma_first_add(a.drop_first(), b, files);
        assert((a + b).drop_first() =~= a.drop_first() + b);
        assert((a + b)[0] == a[0]);
    }
}

/// From a file at the root, an absolute import means a module or a package there.
pub proof fn law_python_at_the_root(file: Seq<char>, m: Seq<char>, rel: Seq<char>, files: Seq<Seq<char>>)
    requires
        is_name(file),
        m.len() > 0,
        m[0] != '.',
        dotted(m, rel),
        normal(rel),
    ensures
        picks(
            resolved("python"@, file, m, files),
            seq![rel + ".py"@, rel + "/__init__.py"@],
            files,
        ),
{
    let none = Seq::<char>::empty();
    lemma_python_upwards(none, file, m, rel, files);
    lemma_module_normal(none, rel);
    let pair = py_pair(none, rel);
    assert(module_in(none, rel) =~= seq![rel + ".py"@, rel + "/__init__.py"@]);
    lemma_first_of(pair, files);
    lemma_first_add(pair, pair, files);
    lemma_first_none(pair, files);
}

// -------------------------------------------------------- JavaScript and TypeScript

proof fn lemma_collapsed_plain_tail(a: Seq<Seq<char>>, b: Seq<Seq<char>>)
    requires
        forall|i: int| 0 <= i < b.len() ==> plain_segment(#[trigger] b[i]),
    ensures
        collapsed(a + b) == collapsed(a) + b,
    decreases b.len(),
{
    if b.len() == 0 {
        assert(a + b =~= a);
        assert(collapsed(a) + b =~= collapsed(a));
    } else {
        let init = b.drop_last();
        assert forall|i: int| 0 <= i < init.len() implies plain_segment(#[trigger] init[i]) by {
            assert(init[i] == b[i]);
        }
        lemma_collapsed_plain_tail(a, init);
        assert((a + b).drop_last() =~= a + init);
        assert((a + b).last() == b.last());
        assert(plain_segment(b[b.len() - 1]));
        assert((collapsed(a) + init).push(b.last()) =~= collapsed(a) + b);
    }
}

proof fn lemma_collapsed_same(a: Seq<Seq<char>>, b: Seq<Seq<char>>, rest: Seq<Seq<char>>)
    requires
        collapsed(a) == collapsed(b),
    ensures
        collapsed(a + rest) == collapsed(b + rest),
    decreases rest.len(),
{
    if rest.len() == 0 {
        assert(a + rest =~= a);
        assert(b + rest =~= b);
    } else {
        lemma_collapsed_same(a, b, rest.drop_last());
        assert((a + rest).drop_last() =~= a + rest.drop_last());
        assert((b + rest).drop_last() =~= b + rest.drop_last());
        assert((a + rest).last() == rest.last());
        assert((b + rest).last() == rest.last());
    }
}

/// The segments that a directory adds in front: none for the root.
pub open spec fn front(d: Seq<char>) -> Seq<Seq<char>> {
    if d.len() == 0 {
        Seq::empty()
    } else {
        split(d, '/')
    }
}

proof fn lemma_split_joined(d: Seq<char>, rel: Seq<char>)
    ensures
        split(joined(d, rel), '/') == front(d) + split(rel, '/'),
{
    if d.len() > 0 {
        lemma_split_slash(d, rel);
    } else {
        assert(front(d) + split(rel, '/') =~= split(rel, '/'));
    }
}

proof fn lemma_here(rest: Seq<char>)
    ensures
        split("./"@ + rest, '/') == seq!["."@] + split(rest, '/'),
        split("../"@ + rest, '/') == seq![".."@] + split(rest, '/'),
{
    lemma_slash();
    reveal_strlit(".");
    reveal_strlit("..");
    reveal_strlit("./");
    reveal_strlit("../");
    lemma_split_slash("."@, rest);
    lemma_split_slash(".."@, rest);
    assert("./"@ + rest =~= "."@ + "/"@ + rest);
    assert("../"@ + rest =~= ".."@ + "/"@ + rest);
    let e = Seq::<char>::empty();
    assert(!"."@.contains('/'));
    assert(!".."@.contains('/'));
    lemma_split_tail(e, "."@);
    lemma_split_tail(e, ".."@);
    assert(e + "."@ =~= "."@);
    assert(e + ".."@ =~= ".."@);
    assert(split(e, '/') =~= seq![e]);
    assert(split("."@, '/') =~= seq!["."@]);
    assert(split(".."@, '/') =~= seq![".."@]);
}

proof fn lemma_dot_kept(a: Seq<Seq<char>>)
    ensures
        collapsed(a + seq!["."@]) == collapsed(a),
{
    assert((a + seq!["."@]).drop_last() =~= a);
    assert((a + seq!["."@]).last() == "."@);
}

proof fn lemma_back(a: Seq<Seq<char>>, c: Seq<char>)
    requires
        plain_segment(c),
    ensures
        collapsed(a + seq![c] + seq![".."@]) == collapsed(a),
{
    reveal_strlit("..");
    reveal_strlit(".");
    reveal_strlit("");
    assert("."@.len() == 1 && ".."@.len() == 2 && ""@.len() == 0);
    let down = a + seq![c];
    let back = down + seq![".."@];
    assert(down.drop_last() =~= a);
    assert(down.last() == c);
    assert(collapsed(down) == collapsed(a).push(c));
    assert(back.drop_last() =~= down);
    assert(back.last() == ".."@);
    assert(".."@ != "."@ && ".."@ != ""@);
    assert(collapsed(back) == collapsed(down).drop_last());
    assert(collapsed(a).push(c).drop_last() =~= collapsed(a));
}

/// What `./q` means in a directory.
pub(crate) proof fn lemma_beside(d: Seq<char>, q: Seq<char>)
    requires
        is_dir(d),
        normal(q),
    ensures
        normalized(joined(d, "./"@ + q)) == under(d, q),
{
    lemma_here(q);
    lemma_split_joined(d, "./"@ + q);
    lemma_normal_parts(q);
    let a = front(d);
    let b = split(q, '/');
    assert(a + (seq!["."@] + b) =~= a + seq!["."@] + b);
    lemma_collapsed_plain_tail(a + seq!["."@], b);
    lemma_dot_kept(a);
    if d.len() > 0 {
        lemma_normal_parts(d);
        lemma_collapsed_fixed(a);
        lemma_join_add(a, b, "/"@);
    } else {
        assert(collapsed(a) =~= Seq::empty());
        assert(collapsed(a) + b =~= b);
    }
}

/// The files that a JavaScript or TypeScript import of a path may mean, in the order in
/// which they are tried: the path itself, and with each extension as a file and as the
/// index of a directory.
pub open spec fn js_options(at: Seq<char>) -> Seq<Seq<char>> {
    seq![
        at,
        at + ".ts"@,
        at + "/index.ts"@,
        at + ".tsx"@,
        at + "/index.tsx"@,
        at + ".js"@,
        at + "/index.js"@,
        at + ".jsx"@,
        at + "/index.jsx"@,
        at + ".mjs"@,
        at + "/index.mjs"@,
        at + ".cjs"@,
        at + "/index.cjs"@,
    ]
}

proof fn lemma_js_ext(at: Seq<char>, n: int, dotted: Seq<char>, index: Seq<char>)
    requires
        0 < n <= 6,
        "."@ + js_exts()[n - 1] == dotted,
        "/index."@ + js_exts()[n - 1] == index,
    ensures
        js_candidates(at, n) == js_candidates(at, n - 1).push(at + dotted).push(at + index),
{
    assert(at + "."@ + js_exts()[n - 1] =~= at + dotted);
    assert(at + "/index."@ + js_exts()[n - 1] =~= at + index);
}

proof fn lemma_js_words()
    ensures
        "."@ + "ts"@ == ".ts"@,
        "."@ + "tsx"@ == ".tsx"@,
        "."@ + "js"@ == ".js"@,
        "."@ + "jsx"@ == ".jsx"@,
        "."@ + "mjs"@ == ".mjs"@,
        "."@ + "cjs"@ == ".cjs"@,
        "/index."@ + "ts"@ == "/index.ts"@,
        "/index."@ + "tsx"@ == "/index.tsx"@,
        "/index."@ + "js"@ == "/index.js"@,
        "/index."@ + "jsx"@ == "/index.jsx"@,
        "/index."@ + "mjs"@ == "/index.mjs"@,
        "/index."@ + "cjs"@ == "/index.cjs"@,
{
    reveal_strlit(".");
    reveal_strlit("/index.");
    reveal_strlit("ts");
    reveal_strlit("tsx");
    reveal_strlit("js");
    reveal_strlit("jsx");
    reveal_strlit("mjs");
    reveal_strlit("cjs");
    reveal_strlit(".ts");
    reveal_strlit(".tsx");
    reveal_strlit(".js");
    reveal_strlit(".jsx");
    reveal_strlit(".mjs");
    reveal_strlit(".cjs");
    reveal_strlit("/index.ts");
    reveal_strlit("/index.tsx");
    reveal_strlit("/index.js");
    reveal_strlit("/index.jsx");
    reveal_strlit("/index.mjs");
    reveal_strlit("/index.cjs");
    assert("."@ + "ts"@ =~= ".ts"@);
    assert("."@ + "tsx"@ =~= ".tsx"@);
    assert("."@ + "js"@ =~= ".js"@);
    assert("."@ + "jsx"@ =~= ".jsx"@);
    assert("."@ + "mjs"@ =~= ".mjs"@);
    assert("."@ + "cjs"@ =~= ".cjs"@);
    assert("/index."@ + "ts"@ =~= "/index.ts"@);
    assert("/index."@ + "tsx"@ =~= "/index.tsx"@);
    assert("/index."@ + "js"@ =~= "/index.js"@);
    assert("/index."@ + "jsx"@ =~= "/index.jsx"@);
    assert("/index."@ + "mjs"@ =~= "/index.mjs"@);
    assert("/index."@ + "cjs"@ =~= "/index.cjs"@);
}

proof fn lemma_js_options(at: Seq<char>)
    ensures
        js_candidates(at, 6) == js_options(at),
{
    lemma_js_words();
    lemma_js_ext(at, 1, ".ts"@, "/index.ts"@);
    lemma_js_ext(at, 2, ".tsx"@, "/index.tsx"@);
    lemma_js_ext(at, 3, ".js"@, "/index.js"@);
    lemma_js_ext(at, 4, ".jsx"@, "/index.jsx"@);
    lemma_js_ext(at, 5, ".mjs"@, "/index.mjs"@);
    lemma_js_ext(at, 6, ".cjs"@, "/index.cjs"@);
    assert(js_candidates(at, 0) =~= seq![at]);
    assert(js_candidates(at, 6) =~= js_options(at));
}

pub(crate) proof fn lemma_ending(at: Seq<char>, t: Seq<char>)
    requires
        normal(at),
        t.len() >= 3,
        forall|k: int| 0 <= k < t.len() ==> t[k] != '/',
    ensures
        normalized(at + t) == at + t,
{
    lemma_normal_ext(at, t);
}

pub(crate) proof fn lemma_index(at: Seq<char>, t: Seq<char>)
    requires
        normal(at),
        t.len() >= 4,
        t[0] == '/',
        forall|k: int| 1 <= k < t.len() ==> t[k] != '/',
    ensures
        normalized(at + t) == at + t,
{
    lemma_slash();
    let n = t.skip(1);
    reveal_strlit("");
    reveal_strlit(".");
    reveal_strlit("..");
    assert(""@.len() == 0 && "."@.len() == 1 && ".."@.len() == 2);
    lemma_name_normal(n);
    lemma_normal_under(at, n);
    assert(under(at, n) =~= at + t);
}

proof fn lemma_js_normal(at: Seq<char>)
    requires
        normal(at),
    ensures
        forall|k: int| 0 <= k < 13 ==> normalized(#[trigger] js_options(at)[k]) == js_options(at)[k],
{
    reveal_strlit(".ts");
    reveal_strlit(".tsx");
    reveal_strlit(".js");
    reveal_strlit(".jsx");
    reveal_strlit(".mjs");
    reveal_strlit(".cjs");
    reveal_strlit("/index.ts");
    reveal_strlit("/index.tsx");
    reveal_strlit("/index.js");
    reveal_strlit("/index.jsx");
    reveal_strlit("/index.mjs");
    reveal_strlit("/index.cjs");
    lemma_ending(at, ".ts"@);
    lemma_ending(at, ".tsx"@);
    lemma_ending(at, ".js"@);
    lemma_ending(at, ".jsx"@);
    lemma_ending(at, ".mjs"@);
    lemma_ending(at, ".cjs"@);
    lemma_index(at, "/index.ts"@);
    lemma_index(at, "/index.tsx"@);
    lemma_index(at, "/index.js"@);
    lemma_index(at, "/index.jsx"@);
    lemma_index(at, "/index.mjs"@);
    lemma_index(at, "/index.cjs"@);
}

/// Is it one of the languages that import paths?
pub open spec fn imports_paths(lang: Seq<char>) -> bool {
    lang == "typescript"@ || lang == "tsx"@ || lang == "javascript"@
}

proof fn lemma_trim_not(s: Seq<char>, c: char)
    requires
        s.len() == 0 || s[0] != c,
    ensures
        trim_start(s, |x: char| x == c) == s,
{
}

/// `import './q'`: the file or the index that the path means from the importing file's
/// directory. A path that ends in `.js` may also mean the TypeScript file of that name.
pub proof fn law_js_relative(lang: Seq<char>, d: Seq<char>, file: Seq<char>, q: Seq<char>, files: Seq<Seq<char>>)
    requires
        imports_paths(lang),
        is_dir(d),
        is_name(file),
        normal(q),
    ensures
        !".js"@.is_suffix_of(q) ==> picks(
            resolved(lang, under(d, file), "./"@ + q, files),
            js_options(under(d, q)),
            files,
        ),
        picks(
            resolved(lang, under(d, file), "./"@ + (q + ".js"@), files),
            js_options(under(d, q) + ".js"@) + seq![under(d, q) + ".ts"@, under(d, q) + ".tsx"@],
            files,
        ),
{
    lemma_parent_under(d, file);
    if !".js"@.is_suffix_of(q) {
        lemma_js_plain(d, q, files);
    }
    lemma_js_long(d, q, files);
}

proof fn lemma_js_all(at: Seq<char>)
    requires
        normal(at),
    ensures
        ({
            let all = js_options(at + ".js"@) + seq![at + ".ts"@, at + ".tsx"@];
            forall|k: int| 0 <= k < all.len() ==> normalized(#[trigger] all[k]) == all[k]
        }),
{
    reveal_strlit(".js");
    reveal_strlit(".ts");
    reveal_strlit(".tsx");
    let base = at + ".js"@;
    lemma_normal_ext(at, ".js"@);
    lemma_js_normal(base);
    lemma_ending(at, ".ts"@);
    lemma_ending(at, ".tsx"@);
    let all = js_options(base) + seq![at + ".ts"@, at + ".tsx"@];
    assert forall|k: int| 0 <= k < all.len() implies normalized(#[trigger] all[k]) == all[k] by {
        if k < 13 {
            assert(all[k] == js_options(base)[k]);
        } else if k == 13 {
            assert(all[k] == at + ".ts"@);
        } else {
            assert(all[k] == at + ".tsx"@);
        }
    }
}

proof fn lemma_js_long(d: Seq<char>, q: Seq<char>, files: Seq<Seq<char>>)
    requires
        is_dir(d),
        normal(q),
    ensures
        picks(
            js_resolved(d, "./"@ + (q + ".js"@), files),
            js_options(under(d, q) + ".js"@) + seq![under(d, q) + ".ts"@, under(d, q) + ".tsx"@],
            files,
        ),
{
    reveal_strlit("./");
    reveal_strlit(".js");
    let at = under(d, q);
    let base = at + ".js"@;
    let all = js_options(base) + seq![at + ".ts"@, at + ".tsx"@];
    let long = q + ".js"@;
    lemma_normal_under(d, q);
    lemma_js_all(at);
    lemma_trim_not("./"@ + long, '~');
    lemma_trim_not("./"@ + long, '/');
    assert(normalized(joined(d, "./"@ + long)) == base) by {
        lemma_normal_ext(q, ".js"@);
        lemma_beside(d, long);
        assert(under(d, long) =~= base);
    }
    assert(".js"@ =~= base.skip(base.len() - 3));
    assert(js_candidates(base, 6) == js_options(base)) by {
        lemma_js_options(base);
    }
    assert(base.take(base.len() - 3) =~= at);
    assert(at + "."@ + "ts"@ == at + ".ts"@ && at + "."@ + "tsx"@ == at + ".tsx"@) by {
        lemma_js_words();
        assert(at + "."@ + "ts"@ =~= at + ("."@ + "ts"@));
        assert(at + "."@ + "tsx"@ =~= at + ("."@ + "tsx"@));
    }
    assert(js_options(base).push(at + ".ts"@).push(at + ".tsx"@) =~= all);
    lemma_first_of(all, files);
}

proof fn lemma_js_plain(d: Seq<char>, q: Seq<char>, files: Seq<Seq<char>>)
    requires
        is_dir(d),
        normal(q),
        !".js"@.is_suffix_of(q),
    ensures
        picks(
            js_resolved(d, "./"@ + q, files),
            js_options(under(d, q)),
            files,
        ),
{
    reveal_strlit(".js");
    reveal_strlit("./");
    lemma_slash();
    let at = under(d, q);
    lemma_normal_under(d, q);
    lemma_trim_not("./"@ + q, '~');
    lemma_trim_not("./"@ + q, '/');
    lemma_beside(d, q);
    assert(!".js"@.is_suffix_of(at)) by {
        if ".js"@.is_suffix_of(at) {
            let t = at.skip(at.len() - 3);
            assert(t =~= ".js"@);
            if q.len() >= 3 {
                assert(q.skip(q.len() - 3) =~= t);
            } else if d.len() > 0 {
                assert(at[at.len() - q.len() - 1] == '/');
                assert(t[3 - q.len() - 1] == '/');
            }
        }
    }
    lemma_js_options(at);
    lemma_js_normal(at);
    lemma_first_of(js_options(at), files);
}

/// `import '../rest'` means from a directory what `./rest` means from the one around it.
pub proof fn law_js_dots_climb(
    lang: Seq<char>,
    d: Seq<char>,
    c: Seq<char>,
    file: Seq<char>,
    other: Seq<char>,
    rest: Seq<char>,
    files: Seq<Seq<char>>,
)
    requires
        imports_paths(lang),
        is_dir(d),
        plain_segment(c),
        is_name(file),
        is_name(other),
    ensures
        resolved(lang, under(under(d, c), file), "../"@ + rest, files) == resolved(
            lang,
            under(d, other),
            "./"@ + rest,
            files,
        ),
{
    reveal_strlit("./");
    reveal_strlit("../");
    lemma_parent_under(under(d, c), file);
    lemma_parent_under(d, other);
    lemma_trim_not("./"@ + rest, '~');
    lemma_trim_not("./"@ + rest, '/');
    lemma_trim_not("../"@ + rest, '~');
    lemma_trim_not("../"@ + rest, '/');
    lemma_above(d, c, rest);
}

/// `../rest` means from a directory what `./rest` means from the one around it.
pub(crate) proof fn lemma_above(d: Seq<char>, c: Seq<char>, rest: Seq<char>)
    requires
        is_dir(d),
        plain_segment(c),
    ensures
        normalized(joined(under(d, c), "../"@ + rest)) == normalized(joined(d, "./"@ + rest)),
{
    lemma_here(rest);
    let e = under(d, c);
    lemma_split_joined(e, "../"@ + rest);
    lemma_split_joined(d, "./"@ + rest);
    lemma_name_normal(c);
    lemma_normal_under(d, c);
    lemma_normal_parts(c);
    lemma_one_segment(c);
    let a = front(d);
    let r = split(rest, '/');
    assert(front(e) =~= a + seq![c]);
    assert(front(e) + (seq![".."@] + r) =~= a + seq![c] + seq![".."@] + r);
    assert(a + (seq!["."@] + r) =~= a + seq!["."@] + r);
    lemma_back(a, c);
    lemma_dot_kept(a);
    lemma_collapsed_same(a + seq![c] + seq![".."@], a + seq!["."@], r);
}

pub(crate) proof fn lemma_one_segment(c: Seq<char>)
    requires
        !c.contains('/'),
    ensures
        split(c, '/') == seq![c],
{
    let e = Seq::<char>::empty();
    lemma_split_tail(e, c);
    assert(e + c =~= c);
    assert(split(e, '/') =~= seq![e]);
    assert(split(c, '/') =~= seq![c]);
}

/// A bare specifier is a package, and no file of the repository. One with a leading
/// slash, or with a tilde and a slash, means what it means with `./` in front.
pub proof fn law_js_packages(lang: Seq<char>, from: Seq<char>, rest: Seq<char>, files: Seq<Seq<char>>)
    requires
        imports_paths(lang),
    ensures
        rest.len() > 0 && rest[0] != '.' && rest[0] != '/' && rest[0] != '~' ==> resolved(
            lang,
            from,
            rest,
            files,
        ).len() == 0,
        rest.len() > 0 && rest[0] != '/' ==> resolved(lang, from, "/"@ + rest, files) == resolved(
            lang,
            from,
            "./"@ + rest,
            files,
        ) && resolved(lang, from, "~/"@ + rest, files) == resolved(lang, from, "./"@ + rest, files),
{
    reveal_strlit("./");
    reveal_strlit("~/");
    lemma_slash();
    if rest.len() > 0 && rest[0] != '/' {
        let d = parent_of(from);
        lemma_trim_not("./"@ + rest, '~');
        lemma_trim_not("./"@ + rest, '/');
        lemma_trim_not("/"@ + rest, '~');
        lemma_trim_not(rest, '/');
        lemma_trim_again(rest, |x: char| x == '/', '/');
        assert("/"@ + rest =~= seq!['/'] + rest);
        assert("~/"@ + rest =~= seq!['~'] + ("/"@ + rest));
        lemma_trim_again("/"@ + rest, |x: char| x == '~', '~');
        lemma_here(rest);
        lemma_split_joined(d, "./"@ + rest);
        lemma_split_joined(d, rest);
        let a = front(d);
        let r = split(rest, '/');
        assert(a + (seq!["."@] + r) =~= a + seq!["."@] + r);
        lemma_dot_kept(a);
        lemma_collapsed_same(a + seq!["."@], a, r);
        assert(normalized(joined(d, "./"@ + rest)) == normalized(joined(d, rest)));
    }
}

} // verus!
