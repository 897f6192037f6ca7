//! The members of JSON objects, and giving one a value.

use vstd::prelude::*;
use vstd::string::*;

use crate::json::{member, Json, JsonV};
use crate::rows::{each, find_row, Row};
use crate::store::{append, first_where, law_first_where, no_rows};
use crate::text::same;

verus! {

broadcast use vstd::string::group_string_axioms;

/// The members of an object; of anything else, none.
pub open spec fn members(j: Option<JsonV>) -> Seq<(Seq<char>, JsonV)> {
    match j {
        Some(JsonV::Obj(m)) => m,
        _ => Seq::empty(),
    }
}

/// The items of an array; of anything else, none.
pub open spec fn items(j: Option<JsonV>) -> Seq<JsonV> {
    match j {
        Some(JsonV::Arr(a)) => a,
        _ => Seq::empty(),
    }
}

/// Has a member this key?
pub open spec fn has_key(key: Seq<char>) -> spec_fn((Seq<char>, JsonV)) -> bool {
    |x: (Seq<char>, JsonV)| x.0 == key
}

/// What becomes of a member when a key is given a value.
pub open spec fn given(key: Seq<char>, value: JsonV) -> spec_fn((Seq<char>, JsonV)) -> (Seq<char>, JsonV) {
    |x: (Seq<char>, JsonV)|
        if x.0 == key {
            (key, value)
        } else {
            x
        }
}

/// Members with a value for a key: in the place of the old one, else at the end.
pub open spec fn put(m: Seq<(Seq<char>, JsonV)>, key: Seq<char>, value: JsonV) -> Seq<(Seq<char>, JsonV)> {
    if member(m, key) is None {
        m.push((key, value))
    } else {
        m.map_values(given(key, value))
    }
}

/// Members with those of another list put in, one after the other.
pub open spec fn put_all(m: Seq<(Seq<char>, JsonV)>, more: Seq<(Seq<char>, JsonV)>) -> Seq<(Seq<char>, JsonV)>
    decreases more.len(),
{
    if more.len() == 0 {
        m
    } else {
        put(put_all(m, more.drop_last()), more.last().0, more.last().1)
    }
}

impl Row for Json {
    fn copy(&self) -> (r: Self) {
        self.clone()
    }
}

/// One member of an object.
#[derive(Debug)]
pub struct Member {
    pub key: String,
    pub value: Json,
}

impl DeepView for Member {
    type V = (Seq<char>, JsonV);

    open spec fn deep_view(&self) -> (Seq<char>, JsonV) {
        (self.key@, self.value.deep_view())
    }
}

impl Row for Member {
    fn copy(&self) -> (r: Self) {
        Member { key: self.key.clone(), value: self.value.clone() }
    }
}

pub(crate) fn members_of(j: Option<&Json>) -> (r: Vec<Member>)
    ensures
        r.deep_view() == members(
            match j {
                Some(x) => Some(x.deep_view()),
                None => None,
            },
        ),
{
    let mut out: Vec<Member> = no_rows();
    if let Some(Json::Obj(v)) = j {
        let ghost all = j->Some_0.deep_view()->Obj_0;
        let count = v.len();
        let mut i: usize = 0;
        while i < count
            invariant
                j matches Some(x) && *x matches Json::Obj(w) && w == v,
                all == j->Some_0.deep_view()->Obj_0,
                count == v@.len(),
                all.len() == count,
                i <= count,
                out.deep_view() == all.take(i as int),
            decreases count - i,
        {
            append(&mut out, Member { key: v[i].0.clone(), value: v[i].1.clone() });
            assert(all.take(i + 1) =~= all.take(i as int).push(all[i as int]));
            i += 1;
        }
        assert(all.take(i as int) =~= all);
    }
    out
}

pub(crate) fn items_of(j: Option<&Json>) -> (r: Vec<Json>)
    ensures
        r.deep_view() == items(
            match j {
                Some(x) => Some(x.deep_view()),
                None => None,
            },
        ),
{
    let mut out: Vec<Json> = no_rows();
    if let Some(Json::Arr(v)) = j {
        let ghost all = j->Some_0.deep_view()->Arr_0;
        let count = v.len();
        let mut i: usize = 0;
        while i < count
            invariant
                j matches Some(x) && *x matches Json::Arr(w) && w == v,
                all == j->Some_0.deep_view()->Arr_0,
                count == v@.len(),
                all.len() == count,
                i <= count,
                out.deep_view() == all.take(i as int),
            decreases count - i,
        {
            append(&mut out, v[i].clone());
            assert(all.take(i + 1) =~= all.take(i as int).push(all[i as int]));
            i += 1;
        }
        assert(all.take(i as int) =~= all);
    }
    out
}

pub(crate) fn object_of(m: Vec<Member>) -> (r: Json)
    ensures
        r.deep_view() == JsonV::Obj(m.deep_view()),
{
    let ghost all = m.deep_view();
    let mut out: Json = Json::object();
    let count = m.len();
    let mut i: usize = 0;
    assert(all.take(0) =~= Seq::empty());
    while i < count
        invariant
            all == m.deep_view(),
            count == m@.len(),
            i <= count,
            out.deep_view() == JsonV::Obj(all.take(i as int)),
        decreases count - i,
    {
        out = out.with(m[i].key.as_str(), m[i].value.clone());
        assert(all.take(i + 1) =~= all.take(i as int).push(all[i as int]));
        i += 1;
    }
    assert(all.take(i as int) =~= all);
    out
}

pub(crate) fn array_of(v: Vec<Json>) -> (r: Json)
    ensures
        r.deep_view() == JsonV::Arr(v.deep_view()),
{
    let r = Json::Arr(v);
    assert(r.deep_view()->Arr_0 =~= v.deep_view());
    r
}

pub(crate) fn place(m: Vec<Member>, key: &str, value: Json) -> (r: Vec<Member>)
    ensures
        r.deep_view() == put(m.deep_view(), key@, value.deep_view()),
{
    let here = |x: &Member| -> (b: bool)
        ensures b == has_key(key@)(x.deep_view())
    {
        same(x.key.as_str(), key)
    };
    proof {
        lemma_member(m.deep_view(), key@);
    }
    match find_row(&m, here, Ghost(has_key(key@))) {
        None => {
            let mut out = m;
            append(&mut out, Member { key: key.to_owned(), value });
            out
        },
        Some(_) => {
            let change = |x: &Member| -> (y: Member)
                ensures y.deep_view() == given(key@, value.deep_view())(x.deep_view())
            {
                if same(x.key.as_str(), key) {
                    Member { key: key.to_owned(), value: value.clone() }
                } else {
                    x.copy()
                }
            };
            each(&m, change, Ghost(given(key@, value.deep_view())))
        },
    }
}

/// There is a member exactly where some member has the key.
proof fn lemma_member(m: Seq<(Seq<char>, JsonV)>, key: Seq<char>)
    ensures
        member(m, key) is Some <==> first_where(m, has_key(key)) is Some,
    decreases m.len(),
{
    let p = has_key(key);
    law_first_where(m, p);
    if m.len() > 0 {
        let rest = m.drop_last();
        lemma_member(rest, key);
        law_first_where(rest, p);
        if first_where(m, p) is Some && m.last().0 != key {
            let k = m.index_of(first_where(m, p)->Some_0);
            assert(rest[k] == m[k]);
        }
        if first_where(rest, p) is Some {
            let k = rest.index_of(first_where(rest, p)->Some_0);
            assert(m[k] == rest[k]);
        }
        if m.last().0 == key {
            assert(p(m[m.len() - 1]));
        }
    }
}

pub(crate) fn place_all(m: Vec<Member>, more: &Vec<Member>) -> (r: Vec<Member>)
    ensures
        r.deep_view() == put_all(m.deep_view(), more.deep_view()),
{
    let ghost all = more.deep_view();
    let ghost start = m.deep_view();
    let mut out = m;
    let count = more.len();
    let mut i: usize = 0;
    while i < count
        invariant
            all == more.deep_view(),
            count == more@.len(),
            i <= count,
            out.deep_view() == put_all(start, all.take(i as int)),
        decreases count - i,
    {
        out = place(out, more[i].key.as_str(), more[i].value.clone());
        proof {
            assert(all.take(i + 1).drop_last() =~= all.take(i as int));
            assert(all.take(i + 1).last() == more@[i as int].deep_view());
        }
        i += 1;
    }
    assert(all.take(i as int) =~= all);
    out
}

// ------------------------------------------------------------------------ laws

/// What was put is there; everything else is as it was.
pub proof fn law_put_is_there(m: Seq<(Seq<char>, JsonV)>, key: Seq<char>, value: JsonV, other: Seq<char>)
    ensures
        member(put(m, key, value), key) == Some(value),
        other != key ==> member(put(m, key, value), other) == member(m, other),
    decreases m.len(),
{
    if member(m, key) is None {
        assert(m.push((key, value)).drop_last() =~= m);
        assert(m.push((key, value)).last() == (key, value));
    } else {
        lemma_replaced(m, key, value, other);
    }
}

proof fn lemma_replaced(m: Seq<(Seq<char>, JsonV)>, key: Seq<char>, value: JsonV, other: Seq<char>)
    ensures
        ({
            let r = m.map_values(given(key, value));
            &&& member(m, key) is Some ==> member(r, key) == Some(value)
            &&& other != key ==> member(r, other) == member(m, other)
        }),
    decreases m.len(),
{
    let f = given(key, value);
    if m.len() > 0 {
        lemma_replaced(m.drop_last(), key, value, other);
        assert(m.map_values(f).drop_last() =~= m.drop_last().map_values(f));
    }
}

/// What was put in last is what is read: a member of the second list wins over one
/// of the first, and the others of the first stay.
pub proof fn law_later_members_win(m: Seq<(Seq<char>, JsonV)>, more: Seq<(Seq<char>, JsonV)>, key: Seq<char>)
    ensures
        member(put_all(m, more), key) == (if member(more, key) is Some {
            member(more, key)
        } else {
            member(m, key)
        }),
    decreases more.len(),
{
    if more.len() > 0 {
        law_later_members_win(m, more.drop_last(), key);
        law_put_is_there(put_all(m, more.drop_last()), more.last().0, more.last().1, key);
    }
}

} // verus!
