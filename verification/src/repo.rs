//! Repositories: what a workspace contains.
//!
//! A workspace always has at least `R1`, at its own root. Everything above the
//! graph only ever speaks of symbol ids, which already encode the repository, so
//! all this module answers is which repositories there are and which of them owns
//! a path.

use vstd::prelude::*;
use vstd::string::*;

use crate::ids::DEFAULT_REPO_ID;
use crate::json::{Json, JsonV};
use crate::model::{Repo, RepoV, Symbol, SymbolV};
use crate::order::{rank, sorted, stable_sort, Ranked};
use crate::rows::{find_row, keep};
use crate::store::{
    append, fail_about, failure, first_where, seen, ErrorKind, Store, StoreError, StoreErrorV, StoreV,
};
use crate::text::{
    cat, cat3, comes_before, decimal, decimal_of, same, split, split_on, starts_with, text_lt, trim_end,
    trim_end_of,
};

verus! {

broadcast use vstd::string::group_string_axioms;

impl Ranked for Repo {
    /// By id.
    open spec fn before(a: RepoV, b: RepoV) -> bool {
        text_lt(a.id, b.id)
    }

    fn is_before(&self, other: &Self) -> (r: bool) {
        comes_before(self.id.as_str(), other.id.as_str())
    }
}

/// How many bytes a text takes.
pub open spec fn byte_len(s: Seq<char>) -> usize {
    vstd::utf8::encode_utf8(s).len() as usize
}

/// Does a repository with this root own the path? The workspace root owns all.
pub open spec fn repo_contains(root: Seq<char>, target: Seq<char>) -> bool {
    root == "."@ || target == root || (root + "/"@).is_prefix_of(target)
}

/// The components of a path that say something.
pub open spec fn components(path: Seq<char>) -> Seq<Seq<char>> {
    split(path, '/').filter(|c: Seq<char>| c.len() > 0 && c != "."@)
}

/// The name that a repository gets when none is given: the last component of its
/// root, or the root itself where that is no name.
pub open spec fn default_repo_name(root: Seq<char>) -> Seq<char> {
    let parts = components(root);
    if parts.len() == 0 || parts.last() == ".."@ {
        root
    } else {
        parts.last()
    }
}

/// The root as it is kept: without slashes at its end, and never empty.
pub open spec fn kept_root(root: Seq<char>) -> Seq<char> {
    let r = trim_end(root, |c: char| c == '/');
    if r.len() == 0 {
        "."@
    } else {
        r
    }
}

/// Is one root at least as specific as another? The workspace root is less specific
/// than any other; among the others the longer one is the more specific.
pub open spec fn as_specific(a: Seq<char>, b: Seq<char>) -> bool {
    b == "."@ || a != "."@ && byte_len(a) >= byte_len(b)
}

/// The last of the rows with the longest root, the workspace root being shorter than
/// any other.
pub open spec fn longest_root(rows: Seq<RepoV>) -> Option<RepoV>
    decreases rows.len(),
{
    if rows.len() == 0 {
        None
    } else {
        match longest_root(rows.drop_last()) {
            Some(r) => if as_specific(rows.last().root_path, r.root_path) {
                Some(rows.last())
            } else {
                Some(r)
            },
            None => Some(rows.last()),
        }
    }
}

impl StoreV {
    /// The repositories, by id.
    pub open spec fn repos_listed(self) -> Seq<RepoV> {
        sorted(self.repos, rank::<Repo>())
    }

    /// The repository with this id.
    pub open spec fn repo(self, id: Seq<char>) -> Option<RepoV> {
        first_where(self.repos, |r: RepoV| r.id == id)
    }

    /// The id of the repository with this id or name.
    pub open spec fn repo_id_of(self, name: Seq<char>) -> Option<Seq<char>> {
        match first_where(self.repos, |r: RepoV| r.id == name || r.name == name) {
            Some(r) => Some(r.id),
            None => None,
        }
    }

    /// The repository that owns a path: the one with the longest root among those
    /// that contain it, and one at the workspace root only where no other does.
    pub open spec fn repo_for_path(self, path: Seq<char>) -> Option<RepoV> {
        longest_root(self.repos_listed().filter(|r: RepoV| repo_contains(r.root_path, path)))
    }

    /// Registering a repository.
    pub open spec fn add_repo(self, root: Seq<char>, name: Option<Seq<char>>, now: i64) -> (
        StoreV,
        Result<RepoV, StoreErrorV>,
    ) {
        let id = "R"@ + decimal((self.repos.len() + 1) as nat);
        if "/"@.is_prefix_of(root) {
            (
                self,
                Err(
                    failure(
                        ErrorKind::AbsoluteRoot,
                        "repo root_path must be relative to the workspace root, not absolute: "@ + root,
                    ),
                ),
            )
        } else if self.repo(id) is Some {
            (self, Err(failure(ErrorKind::Duplicate, "id is taken: "@ + id)))
        } else {
            let kept = kept_root(root);
            let repo = RepoV {
                id,
                name: match name {
                    Some(n) => n,
                    None => default_repo_name(kept),
                },
                root_path: kept,
                added_at: now,
            };
            (
                StoreV { repos: self.repos.push(repo), ..self }.emit(
                    now,
                    "repo.added"@,
                    None,
                    None,
                    None,
                    JsonV::Obj(
                        seq![
                            ("repo"@, JsonV::Str(id)),
                            ("name"@, JsonV::Str(repo.name)),
                            ("root_path"@, JsonV::Str(kept)),
                        ],
                    ),
                ),
                Ok(repo),
            )
        }
    }

    /// A symbol's handle, with the name of its repository in front where there is
    /// more than one.
    pub open spec fn qualified_handle(self, sym: SymbolV) -> Seq<char> {
        if self.repos.len() <= 1 {
            sym.handle()
        } else {
            let prefix = match self.repo(sym.repo_id) {
                Some(r) => r.name,
                None => sym.repo_id,
            };
            prefix + "/"@ + sym.handle()
        }
    }
}

fn is_in_repo(root: &str, target: &str) -> (r: bool)
    ensures
        r == repo_contains(root@, target@),
{
    same(root, ".") || same(target, root) || starts_with(target, cat(root, "/").as_str())
}

fn is_as_specific(a: &str, b: &str) -> (r: bool)
    ensures
        r == as_specific(a@, b@),
{
    same(b, ".") || !same(a, ".") && a.len() >= b.len()
}

fn name_of_root(root: &str) -> (r: String)
    ensures
        r@ == default_repo_name(root@),
{
    let all = split_on(root, '/');
    let test = |c: &String| -> (b: bool)
        ensures b == (c@.len() > 0 && c@ != "."@)
    {
        !c.as_str().is_empty() && !same(c.as_str(), ".")
    };
    let parts = keep(&all, test, Ghost(|c: Seq<char>| c.len() > 0 && c != "."@));
    let n = parts.len();
    assert(parts.deep_view().len() == n);
    if n == 0 {
        return root.to_owned();
    }
    assert(parts.deep_view().last() == parts@[n - 1]@);
    if same(parts[n - 1].as_str(), "..") {
        root.to_owned()
    } else {
        parts[n - 1].clone()
    }
}

/// A symbol's handle, qualified with its repository's name once more than one is
/// registered. A workspace with one repository gets the plain handle.
pub fn qualified_handle(store: &Store, sym: &Symbol) -> (r: String)
    ensures
        r@ == store@.qualified_handle(sym.deep_view()),
{
    let plain = sym.handle();
    if store.repos.len() <= 1 {
        return plain;
    }
    let prefix = match store.repo(sym.repo_id.as_str()) {
        Some(r) => r.name,
        None => sym.repo_id.clone(),
    };
    cat3(prefix.as_str(), "/", plain.as_str())
}

impl Store {
    /// Register a repository. Its root must be relative to the workspace: an
    /// absolute one would break for anyone who has the workspace elsewhere.
    pub fn add_repo(&mut self, root_path: &str, name: &Option<String>, now: i64) -> (r: Result<
        Repo,
        StoreError,
    >)
        requires
            old(self).repos@.len() < u64::MAX,
        ensures
            (final(self)@, seen(r)) == old(self)@.add_repo(root_path@, name.deep_view(), now),
    {
        if starts_with(root_path, "/") {
            return Err(
                fail_about(
                    ErrorKind::AbsoluteRoot,
                    "repo root_path must be relative to the workspace root, not absolute: ",
                    root_path,
                ),
            );
        }
        let n = self.repos.len() as u64;
        let id = cat("R", decimal_of(n + 1).as_str());
        if self.repo(id.as_str()).is_some() {
            return Err(fail_about(ErrorKind::Duplicate, "id is taken: ", id.as_str()));
        }
        let trimmed = trim_end_of(root_path, '/');
        let root = if trimmed.as_str().is_empty() {
            ".".to_owned()
        } else {
            trimmed
        };
        let name = match name {
            Some(x) => x.clone(),
            None => name_of_root(root.as_str()),
        };
        let repo = Repo { id, name, root_path: root, added_at: now };
        append(&mut self.repos, repo.clone());
        let detail = Json::object().with("repo", Json::str(repo.id.as_str())).with(
            "name",
            Json::str(repo.name.as_str()),
        ).with("root_path", Json::str(repo.root_path.as_str()));
        assert(detail.deep_view()->Obj_0 =~= seq![
            ("repo"@, JsonV::Str(repo.id@)),
            ("name"@, JsonV::Str(repo.name@)),
            ("root_path"@, JsonV::Str(repo.root_path@)),
        ]);
        self.emit(now, "repo.added", None, None, None, detail);
        Ok(repo)
    }

    /// Makes sure that `R1` exists, at the workspace root.
    pub fn ensure_default_repo(&mut self, now: i64)
        ensures
            final(self)@ == (if old(self)@.repos.len() > 0 {
                old(self)@
            } else {
                StoreV {
                    repos: seq![
                        RepoV { id: DEFAULT_REPO_ID@, name: "root"@, root_path: "."@, added_at: now },
                    ],
                    ..old(self)@
                }
            }),
    {
        assert(self.repos@.len() == self@.repos.len());
        if self.repos.len() > 0 {
            return ;
        }
        let repo = Repo {
            id: DEFAULT_REPO_ID.to_owned(),
            name: "root".to_owned(),
            root_path: ".".to_owned(),
            added_at: now,
        };
        let ghost rv = repo.deep_view();
        append(&mut self.repos, repo);
        assert(self@.repos =~= seq![rv]);
    }

    /// Every repository, by id.
    pub fn repos(&self) -> (r: Vec<Repo>)
        ensures
            r.deep_view() == self@.repos_listed(),
    {
        let all = |x: &Repo| -> (b: bool)
            ensures b
        {
            true
        };
        let rows = keep(&self.repos, all, Ghost(|x: RepoV| true));
        proof {
            lemma_keep_all(self@.repos);
        }
        stable_sort(rows)
    }

    /// The repository with this id.
    pub fn repo(&self, id: &str) -> (r: Option<Repo>)
        ensures
            r.deep_view() == self@.repo(id@),
    {
        let test = |x: &Repo| -> (b: bool)
            ensures b == (x.deep_view().id == id@)
        {
            same(x.id.as_str(), id)
        };
        match find_row(&self.repos, test, Ghost(|x: RepoV| x.id == id@)) {
            Some(i) => Some(self.repos[i].clone()),
            None => None,
        }
    }

    /// The id of the repository with this id or name. That nothing matches is no
    /// error.
    pub fn resolve_repo_id(&self, id_or_name: &str) -> (r: Option<String>)
        ensures
            r.deep_view() == self@.repo_id_of(id_or_name@),
    {
        let test = |x: &Repo| -> (b: bool)
            ensures b == (x.deep_view().id == id_or_name@ || x.deep_view().name == id_or_name@)
        {
            same(x.id.as_str(), id_or_name) || same(x.name.as_str(), id_or_name)
        };
        match find_row(
            &self.repos,
            test,
            Ghost(|x: RepoV| x.id == id_or_name@ || x.name == id_or_name@),
        ) {
            Some(i) => Some(self.repos[i].id.clone()),
            None => None,
        }
    }

    /// Which repository owns a path, by the longest root that contains it. One at the
    /// workspace root contains every path, so it is the fallback.
    pub fn repo_for_path(&self, workspace_relative: &str) -> (r: Option<Repo>)
        ensures
            r.deep_view() == self@.repo_for_path(workspace_relative@),
    {
        let all = self.repos();
        let test = |x: &Repo| -> (b: bool)
            ensures b == repo_contains(x.deep_view().root_path, workspace_relative@)
        {
            is_in_repo(x.root_path.as_str(), workspace_relative)
        };
        let rows = keep(
            &all,
            test,
            Ghost(|x: RepoV| repo_contains(x.root_path, workspace_relative@)),
        );
        let ghost rv = rows.deep_view();
        let mut best: Option<usize> = None;
        let mut i: usize = 0;
        while i < rows.len()
            invariant
                i <= rows@.len(),
                rv == rows.deep_view(),
                match best {
                    Some(k) => k < i && longest_root(rv.take(i as int)) == Some(
                        rows@[k as int].deep_view(),
                    ),
                    None => longest_root(rv.take(i as int)) is None,
                },
            decreases rows@.len() - i,
        {
            proof {
                assert(rv.take(i + 1).drop_last() =~= rv.take(i as int));
                assert(rv.take(i + 1).last() == rows@[i as int].deep_view());
            }
            match best {
                Some(k) => {
                    if is_as_specific(rows[i].root_path.as_str(), rows[k].root_path.as_str()) {
                        best = Some(i);
                    }
                },
                None => {
                    best = Some(i);
                },
            }
            i += 1;
        }
        assert(rv.take(i as int) =~= rv);
        match best {
            Some(k) => Some(rows[k].clone()),
            None => None,
        }
    }
}

proof fn lemma_keep_all(s: Seq<RepoV>)
    ensures
        s.filter(|x: RepoV| true) == s,
    decreases s.len(),
{
    reveal(Seq::filter);
    if s.len() > 0 {
        lemma_keep_all(s.drop_last());
        assert(s.drop_last().push(s.last()) =~= s);
    }
}

// ----------------------------------------------------------------------- laws

/// Where a repository sits at the workspace root, every path has an owner.
pub proof fn law_every_path_has_an_owner(s: StoreV, path: Seq<char>, k: int)
    requires
        0 <= k < s.repos.len(),
        s.repos[k].root_path == "."@,
    ensures
        s.repo_for_path(path) is Some,
{
    let p = |r: RepoV| repo_contains(r.root_path, path);
    crate::order::law_sorted_keeps(s.repos, rank::<Repo>());
    lemma_kept(s.repos, s.repos_listed(), s.repos[k]);
    crate::rows::law_filter_has(s.repos_listed(), p, s.repos[k]);
}

proof fn lemma_kept(a: Seq<RepoV>, b: Seq<RepoV>, x: RepoV)
    requires
        a.to_multiset() == b.to_multiset(),
        a.contains(x),
    ensures
        b.contains(x),
{
    broadcast use vstd::seq_lib::group_to_multiset_ensures;

    assert(a.to_multiset().count(x) > 0);
}

proof fn lemma_longest(rows: Seq<RepoV>, k: int)
    requires
        0 <= k < rows.len(),
    ensures
        longest_root(rows) matches Some(r) && rows.contains(r) && as_specific(
            r.root_path,
            rows[k].root_path,
        ),
    decreases rows.len(),
{
    let init = rows.drop_last();
    if init.len() > 0 {
        lemma_longest(
            init,
            if k < init.len() {
                k
            } else {
                0
            },
        );
        let r = longest_root(init)->0;
        let n = choose|n: int| 0 <= n < init.len() && init[n] == r;
        assert(rows[n] == r);
    }
    assert(rows[rows.len() - 1] == rows.last());
}

/// The more specific repository wins: the owner of a path contains it, and no
/// other repository that contains it has a longer root. One at the workspace root
/// owns only what nobody else contains.
pub proof fn law_owner_is_most_specific(s: StoreV, path: Seq<char>, k: int)
    requires
        0 <= k < s.repos.len(),
        repo_contains(s.repos[k].root_path, path),
    ensures
        s.repo_for_path(path) matches Some(r) && s.repos.contains(r) && repo_contains(r.root_path, path)
            && as_specific(r.root_path, s.repos[k].root_path) && (r.root_path == "."@
            ==> s.repos[k].root_path == "."@),
{
    let p = |r: RepoV| repo_contains(r.root_path, path);
    crate::order::law_sorted_keeps(s.repos, rank::<Repo>());
    lemma_kept(s.repos, s.repos_listed(), s.repos[k]);
    crate::rows::law_filter_has(s.repos_listed(), p, s.repos[k]);
    let f = s.repos_listed().filter(p);
    let n = choose|n: int| 0 <= n < f.len() && f[n] == s.repos[k];
    lemma_longest(f, n);
    let r = longest_root(f)->0;
    s.repos_listed().lemma_filter_contains_rev(p, r);
    lemma_kept(s.repos_listed(), s.repos, r);
}

/// Registering twice gives two repositories, never a second one of the same id.
pub proof fn law_added_repo_is_new(s: StoreV, root: Seq<char>, name: Option<Seq<char>>, now: i64)
    ensures
        match s.add_repo(root, name, now) {
            (r, Ok(repo)) => s.repo(repo.id) is None && r.repo(repo.id) == Some(repo),
            (r, Err(e)) => r == s,
        },
{
    let (r, out) = s.add_repo(root, name, now);
    if let Ok(repo) = out {
        crate::store::law_first_where(s.repos, |x: RepoV| x.id == repo.id);
        lemma_first_pushed(s.repos, repo);
    }
}

proof fn lemma_first_pushed(rows: Seq<RepoV>, x: RepoV)
    requires
        first_where(rows, |r: RepoV| r.id == x.id) is None,
    ensures
        first_where(rows.push(x), |r: RepoV| r.id == x.id) == Some(x),
    decreases rows.len(),
{
    if rows.len() > 0 {
        lemma_first_pushed(rows.drop_first(), x);
        assert(rows.push(x).drop_first() =~= rows.drop_first().push(x));
    }
}

} // verus!
