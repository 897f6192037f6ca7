//! Going through the rows of a table.

use vstd::prelude::*;
use vstd::string::*;

use crate::model::{Agent, Conflict, Edge, Event, Goal, Lease, Repo, Request, Symbol, Task, TaskSuggestion};
use crate::store::{
    append, first_where, law_filter_step, no_rows, LeaseRow, Link, ProgressRow, QueueRow, RequestRow, TaskRow,
};

verus! {

broadcast use vstd::string::group_string_axioms;

/// Something that a table holds and that can be copied out of it.
pub trait Row: DeepView + Sized {
    fn copy(&self) -> (r: Self)
        ensures
            r.deep_view() == self.deep_view(),
    ;
}

impl Row for String {
    fn copy(&self) -> (r: Self) {
        self.clone()
    }
}

impl Row for Agent {
    fn copy(&self) -> (r: Self) {
        self.clone()
    }
}

impl Row for Conflict {
    fn copy(&self) -> (r: Self) {
        self.clone()
    }
}

impl Row for Edge {
    fn copy(&self) -> (r: Self) {
        self.clone()
    }
}

impl Row for Event {
    fn copy(&self) -> (r: Self) {
        self.clone()
    }
}

impl Row for Goal {
    fn copy(&self) -> (r: Self) {
        self.clone()
    }
}

impl Row for Lease {
    fn copy(&self) -> (r: Self) {
        self.clone()
    }
}

impl Row for Repo {
    fn copy(&self) -> (r: Self) {
        self.clone()
    }
}

impl Row for Request {
    fn copy(&self) -> (r: Self) {
        self.clone()
    }
}

impl Row for Symbol {
    fn copy(&self) -> (r: Self) {
        self.clone()
    }
}

impl Row for Task {
    fn copy(&self) -> (r: Self) {
        self.clone()
    }
}

impl Row for TaskSuggestion {
    fn copy(&self) -> (r: Self) {
        self.clone()
    }
}

impl Row for LeaseRow {
    fn copy(&self) -> (r: Self) {
        self.clone()
    }
}

impl Row for Link {
    fn copy(&self) -> (r: Self) {
        self.clone()
    }
}

impl Row for ProgressRow {
    fn copy(&self) -> (r: Self) {
        self.clone()
    }
}

impl Row for QueueRow {
    fn copy(&self) -> (r: Self) {
        self.clone()
    }
}

impl Row for RequestRow {
    fn copy(&self) -> (r: Self) {
        self.clone()
    }
}

impl Row for TaskRow {
    fn copy(&self) -> (r: Self) {
        self.clone()
    }
}

/// The rows that pass a test.
pub(crate) fn keep<T: Row, F: Fn(&T) -> bool>(
    rows: &Vec<T>,
    f: F,
    Ghost(p): Ghost<spec_fn(T::V) -> bool>,
) -> (r: Vec<T>)
    requires
        forall|x: &T| #[trigger] call_requires(f, (x,)),
        forall|x: &T, b: bool| #[trigger] call_ensures(f, (x,), b) ==> b == p(x.deep_view()),
    ensures
        r.deep_view() == rows.deep_view().filter(p),
{
    let ghost all = rows.deep_view();
    let mut out: Vec<T> = no_rows();
    let mut i: usize = 0;
    assert(all.take(0).filter(p) =~= Seq::empty());
    while i < rows.len()
        invariant
            all == rows.deep_view(),
            i <= rows@.len(),
            forall|x: &T| #[trigger] call_requires(f, (x,)),
            forall|x: &T, b: bool| #[trigger] call_ensures(f, (x,), b) ==> b == p(x.deep_view()),
            out.deep_view() == all.take(i as int).filter(p),
        decreases rows@.len() - i,
    {
        let x = &rows[i];
        proof {
            assert(all[i as int] == x.deep_view());
            law_filter_step(all, p, i as int);
        }
        if f(x) {
            append(&mut out, x.copy());
        }
        i += 1;
    }
    assert(all.take(i as int) =~= all);
    out
}

/// What a function makes of every row.
pub(crate) fn each<T: DeepView, U: DeepView, F: Fn(&T) -> U>(
    rows: &Vec<T>,
    f: F,
    Ghost(g): Ghost<spec_fn(T::V) -> U::V>,
) -> (r: Vec<U>)
    requires
        forall|k: int| 0 <= k < rows@.len() ==> call_requires(f, (&#[trigger] rows@[k],)),
        forall|x: &T, y: U| #[trigger]
            call_ensures(f, (x,), y) ==> y.deep_view() == g(x.deep_view()),
    ensures
        r.deep_view() == rows.deep_view().map_values(g),
{
    let ghost all = rows.deep_view();
    let mut out: Vec<U> = no_rows();
    let mut i: usize = 0;
    while i < rows.len()
        invariant
            all == rows.deep_view(),
            i <= rows@.len(),
            forall|k: int| 0 <= k < rows@.len() ==> call_requires(f, (&#[trigger] rows@[k],)),
            forall|x: &T, y: U| #[trigger]
                call_ensures(f, (x,), y) ==> y.deep_view() == g(x.deep_view()),
            out.deep_view() =~= all.take(i as int).map_values(g),
        decreases rows@.len() - i,
    {
        append(&mut out, f(&rows[i]));
        assert(all.take(i + 1).map_values(g) =~= all.take(i as int).map_values(g).push(
            g(all[i as int]),
        ));
        i += 1;
    }
    assert(all.take(i as int) =~= all);
    out
}

/// Where the first row that passes a test stands.
pub(crate) fn find_row<T: DeepView, F: Fn(&T) -> bool>(
    rows: &Vec<T>,
    f: F,
    Ghost(p): Ghost<spec_fn(T::V) -> bool>,
) -> (r: Option<usize>)
    requires
        forall|x: &T| #[trigger] call_requires(f, (x,)),
        forall|x: &T, b: bool| #[trigger] call_ensures(f, (x,), b) ==> b == p(x.deep_view()),
    ensures
        match r {
            Some(i) => i < rows@.len() && first_where(rows.deep_view(), p) == Some(
                rows@[i as int].deep_view(),
            ) && p(rows@[i as int].deep_view()),
            None => first_where(rows.deep_view(), p) is None,
        },
{
    let ghost all = rows.deep_view();
    let mut i: usize = 0;
    assert(all.skip(0) =~= all);
    while i < rows.len()
        invariant
            all == rows.deep_view(),
            i <= rows@.len(),
            forall|x: &T| #[trigger] call_requires(f, (x,)),
            forall|x: &T, b: bool| #[trigger] call_ensures(f, (x,), b) ==> b == p(x.deep_view()),
            first_where(all, p) == first_where(all.skip(i as int), p),
        decreases rows@.len() - i,
    {
        assert(all.skip(i as int)[0] == rows@[i as int].deep_view());
        assert(all.skip(i as int).drop_first() =~= all.skip(i + 1));
        if f(&rows[i]) {
            return Some(i);
        }
        i += 1;
    }
    None
}

/// Changes every row.
pub(crate) fn change<T: DeepView, F: Fn(&T) -> T>(
    rows: &mut Vec<T>,
    f: F,
    Ghost(g): Ghost<spec_fn(T::V) -> T::V>,
)
    requires
        forall|k: int| 0 <= k < old(rows)@.len() ==> call_requires(f, (&#[trigger] old(rows)@[k],)),
        forall|x: &T, y: T| #[trigger]
            call_ensures(f, (x,), y) ==> y.deep_view() == g(x.deep_view()),
    ensures
        final(rows).deep_view() == old(rows).deep_view().map_values(g),
{
    let out = each(rows, f, Ghost(g));
    *rows = out;
}

/// What is in a list and passes the test is in the filtered list.
pub proof fn law_filter_has<T>(s: Seq<T>, p: spec_fn(T) -> bool, x: T)
    requires
        s.contains(x),
        p(x),
    ensures
        s.filter(p).contains(x),
{
    let i = choose|i: int| 0 <= i < s.len() && s[i] == x;
    s.lemma_filter_contains(p, i);
}

} // verus!

