//! Where a workspace keeps its state.

use vstd::prelude::*;
use vstd::string::*;

use crate::sql::holds_text;
use crate::store::{append, first_where, no_rows};
use crate::text::{before_last, cat, cat3, ends_with, trim_end, trim_end_of, up_to_last};

verus! {

broadcast use vstd::string::group_string_axioms;

/// The directory at the root of a workspace that holds its state.
pub const RUNTIME_DIR: &'static str = ".golab";

/// The database in that directory.
pub const DB_FILE: &'static str = "runtime.db";

/// A name inside a directory.
pub open spec fn in_dir(dir: Seq<char>, name: Seq<char>) -> Seq<char> {
    if dir.len() == 0 || "/"@.is_suffix_of(dir) {
        dir + name
    } else {
        dir + "/"@ + name
    }
}

/// A name inside a directory.
pub fn inside(dir: &str, name: &str) -> (r: String)
    ensures
        r@ == in_dir(dir@, name@),
{
    if dir.is_empty() || ends_with(dir, "/") {
        cat(dir, name)
    } else {
        cat3(dir, "/", name)
    }
}

/// The database of a workspace.
pub open spec fn db_path_of(root: Seq<char>) -> Seq<char> {
    in_dir(in_dir(root, RUNTIME_DIR@), DB_FILE@)
}

/// The database of a workspace.
pub fn db_path(root: &str) -> (r: String)
    ensures
        r@ == db_path_of(root@),
{
    inside(inside(root, RUNTIME_DIR).as_str(), DB_FILE)
}

/// The directory around a path; the root and nothing have none.
pub open spec fn dir_around(path: Seq<char>) -> Option<Seq<char>> {
    let p = trim_end(path, |c: char| c == '/');
    if p.len() == 0 {
        None
    } else {
        match before_last(p, '/') {
            Some(d) => {
                let q = trim_end(d, |c: char| c == '/');
                if q.len() == 0 {
                    Some("/"@)
                } else {
                    Some(q)
                }
            },
            None => Some(Seq::empty()),
        }
    }
}

/// The directory around a path.
pub fn parent_path(path: &str) -> (r: Option<String>)
    ensures
        r.deep_view() == dir_around(path@),
{
    let p = trim_end_of(path, '/');
    if p.as_str().is_empty() {
        return None;
    }
    match up_to_last(p.as_str(), '/') {
        Some(d) => {
            let q = trim_end_of(d.as_str(), '/');
            if q.as_str().is_empty() {
                Some("/".to_owned())
            } else {
                Some(q)
            }
        },
        None => {
            let none = String::new();
            assert(none@ =~= Seq::empty());
            Some(none)
        },
    }
}

/// A directory and the directories around it, inside out.
pub open spec fn upwards(start: Seq<char>) -> Seq<Seq<char>>
    decreases start.len(),
{
    match dir_around(start) {
        Some(d) => if d.len() < start.len() {
            seq![start] + upwards(d)
        } else {
            seq![start]
        },
        None => seq![start],
    }
}

/// A directory and the directories around it, inside out: where a workspace may be.
pub fn directories(start: &str) -> (r: Vec<String>)
    ensures
        r.deep_view() == upwards(start@),
{
    let mut out: Vec<String> = no_rows();
    let mut cur = start.to_owned();
    let mut more = true;
    assert(Seq::<Seq<char>>::empty() + upwards(start@) =~= upwards(start@));
    while more
        invariant
            more ==> out.deep_view() + upwards(cur@) == upwards(start@),
            !more ==> out.deep_view() == upwards(start@),
        decreases
                if more {
                    1 + cur@.len()
                } else {
                    0
                },
    {
        let ghost before = out.deep_view();
        let ghost c = cur@;
        append(&mut out, cur.clone());
        match parent_path(cur.as_str()) {
            Some(d) => {
                if crate::text::chars_of(d.as_str()).len() < crate::text::chars_of(cur.as_str()).len() {
                    assert(before + (seq![c] + upwards(d@)) =~= before.push(c) + upwards(d@));
                    cur = d;
                } else {
                    assert(before + seq![c] =~= before.push(c));
                    more = false;
                }
            },
            None => {
                assert(before + seq![c] =~= before.push(c));
                more = false;
            },
        }
    }
    out
}

/// The nearest directory, from one upwards, that holds a workspace.
pub open spec fn nearest(start: Seq<char>, workspaces: Seq<Seq<char>>) -> Option<Seq<char>> {
    first_where(upwards(start), |d: Seq<char>| workspaces.contains(d))
}

/// The workspace that a directory is in: the nearest directory, from it upwards,
/// among those that hold a database.
pub fn find_workspace(start: &str, workspaces: &Vec<String>) -> (r: Option<String>)
    ensures
        r.deep_view() == nearest(start@, workspaces.deep_view()),
{
    let dirs = directories(start);
    let test = |d: &String| -> (b: bool)
        ensures b == workspaces.deep_view().contains(d.deep_view())
    {
        holds_text(workspaces, d.as_str())
    };
    match crate::rows::find_row(
        &dirs,
        test,
        Ghost(|d: Seq<char>| workspaces.deep_view().contains(d)),
    ) {
        Some(i) => Some(dirs[i].clone()),
        None => None,
    }
}

/// The prefix of a verbatim path.
pub const VERBATIM: &'static str = "\\\\?\\";

/// A path without the prefix that makes it verbatim.
pub fn strip_verbatim(path: &str) -> (r: String)
    ensures
        r@ == (if VERBATIM@.is_prefix_of(path@) {
            path@.skip(VERBATIM@.len() as int)
        } else {
            path@
        }),
{
    match crate::text::without_prefix(path, VERBATIM) {
        Some(s) => s,
        None => path.to_owned(),
    }
}

/// A workspace found is at the start or around it, and no nearer directory holds one.
pub proof fn law_nearest_workspace_wins(start: Seq<char>, workspaces: Seq<Seq<char>>, k: int)
    requires
        0 <= k < upwards(start).len(),
        workspaces.contains(upwards(start)[k]),
        forall|i: int| 0 <= i < k ==> !workspaces.contains(#[trigger] upwards(start)[i]),
    ensures
        nearest(start, workspaces) == Some(upwards(start)[k]),
{
    lemma_first_at(upwards(start), |d: Seq<char>| workspaces.contains(d), k);
}

proof fn lemma_first_at<T>(s: Seq<T>, p: spec_fn(T) -> bool, k: int)
    requires
        0 <= k < s.len(),
        p(s[k]),
        forall|i: int| 0 <= i < k ==> !p(#[trigger] s[i]),
    ensures
        first_where(s, p) == Some(s[k]),
    decreases k,
{
    if k > 0 {
        assert(!p(s[0]));
        let t = s.drop_first();
        assert forall|i: int| 0 <= i < k - 1 implies !p(#[trigger] t[i]) by {
            assert(t[i] == s[i + 1]);
        }
        lemma_first_at(t, p, k - 1);
    }
}

} // verus!
