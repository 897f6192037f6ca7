//! Structured values: request bodies, responses, event details, symbol detail.

use vstd::prelude::*;

use crate::text::same;

verus! {

broadcast use vstd::string::group_string_axioms;

/// A JSON value. Object members keep the order in which they were given.
#[derive(Debug)]
pub enum Json {
    Null,
    Bool(bool),
    Int(i64),
    /// Any other number, by its text.
    Num(String),
    Str(String),
    Arr(Vec<Json>),
    Obj(Vec<(String, Json)>),
}

/// The contents of a [`Json`].
pub enum JsonV {
    Null,
    Bool(bool),
    Int(int),
    Num(Seq<char>),
    Str(Seq<char>),
    Arr(Seq<JsonV>),
    Obj(Seq<(Seq<char>, JsonV)>),
}

/// What `j` holds.
pub open spec fn json_view(j: Json) -> JsonV
    decreases j,
{
    match j {
        Json::Null => JsonV::Null,
        Json::Bool(b) => JsonV::Bool(b),
        Json::Int(i) => JsonV::Int(i as int),
        Json::Num(s) => JsonV::Num(s@),
        Json::Str(s) => JsonV::Str(s@),
        Json::Arr(v) => JsonV::Arr(
            Seq::new(
                v@.len(),
                |i: int|
                    if 0 <= i < v@.len() {
                        json_view(v@[i])
                    } else {
                        JsonV::Null
                    },
            ),
        ),
        Json::Obj(v) => JsonV::Obj(
            Seq::new(
                v@.len(),
                |i: int|
                    if 0 <= i < v@.len() {
                        (v@[i].0@, json_view(v@[i].1))
                    } else {
                        (Seq::empty(), JsonV::Null)
                    },
            ),
        ),
    }
}

impl DeepView for Json {
    type V = JsonV;

    open spec fn deep_view(&self) -> JsonV {
        json_view(*self)
    }
}

/// The last member of `m` named `key`, counting from the end.
pub open spec fn member(m: Seq<(Seq<char>, JsonV)>, key: Seq<char>) -> Option<JsonV>
    decreases m.len(),
{
    if m.len() == 0 {
        None
    } else if m.last().0 == key {
        Some(m.last().1)
    } else {
        member(m.drop_last(), key)
    }
}

impl JsonV {
    /// The member `key` of an object.
    pub open spec fn at(self, key: Seq<char>) -> Option<JsonV> {
        match self {
            JsonV::Obj(m) => member(m, key),
            _ => None,
        }
    }

    /// The member `key` of an object, where it is a string.
    pub open spec fn text_at(self, key: Seq<char>) -> Option<Seq<char>> {
        match self.at(key) {
            Some(JsonV::Str(s)) => Some(s),
            _ => None,
        }
    }
}

/// `None` becomes null, a string becomes a JSON string.
pub open spec fn opt_text(s: Option<Seq<char>>) -> JsonV {
    match s {
        Some(t) => JsonV::Str(t),
        None => JsonV::Null,
    }
}

/// `None` becomes null, a number becomes a JSON number.
pub open spec fn opt_int(n: Option<i64>) -> JsonV {
    match n {
        Some(i) => JsonV::Int(i as int),
        None => JsonV::Null,
    }
}

impl Clone for Json {
    fn clone(&self) -> (r: Json)
        ensures
            r.deep_view() == self.deep_view(),
        decreases self,
    {
        match self {
            Json::Null => Json::Null,
            Json::Bool(b) => Json::Bool(*b),
            Json::Int(i) => Json::Int(*i),
            Json::Num(s) => Json::Num(s.clone()),
            Json::Str(s) => Json::Str(s.clone()),
            Json::Arr(v) => {
                let mut out: Vec<Json> = Vec::new();
                let mut i: usize = 0;
                while i < v.len()
                    invariant
                        i <= v@.len(),
                        out@.len() == i,
                        self matches Json::Arr(w) && w == v,
                        forall|k: int| 0 <= k < i ==> json_view(#[trigger] out@[k]) == json_view(v@[k]),
                    decreases v@.len() - i,
                {
                    let x = v[i].clone();
                    out.push(x);
                    i += 1;
                }
                let r = Json::Arr(out);
                assert(r.deep_view() =~= self.deep_view()) by {
                    assert(r.deep_view()->Arr_0 =~= self.deep_view()->Arr_0);
                }
                r
            },
            Json::Obj(v) => {
                let mut out: Vec<(String, Json)> = Vec::new();
                let mut i: usize = 0;
                while i < v.len()
                    invariant
                        i <= v@.len(),
                        out@.len() == i,
                        self matches Json::Obj(w) && w == v,
                        forall|k: int|
                            0 <= k < i ==> (#[trigger] out@[k]).0@ == v@[k].0@ && json_view(out@[k].1)
                                == json_view(v@[k].1),
                    decreases v@.len() - i,
                {
                    let k = v[i].0.clone();
                    let x = v[i].1.clone();
                    out.push((k, x));
                    i += 1;
                }
                let r = Json::Obj(out);
                assert(r.deep_view() =~= self.deep_view()) by {
                    assert(r.deep_view()->Obj_0 =~= self.deep_view()->Obj_0);
                }
                r
            },
        }
    }
}

impl Json {
    /// A JSON string.
    pub fn str(s: &str) -> (r: Json)
        ensures
            r.deep_view() == JsonV::Str(s@),
    {
        Json::Str(s.to_owned())
    }

    /// A JSON string, or null.
    pub fn opt(s: &Option<String>) -> (r: Json)
        ensures
            r.deep_view() == opt_text(s.deep_view()),
    {
        match s {
            Some(t) => Json::Str(t.clone()),
            None => Json::Null,
        }
    }

    /// A JSON number, or null.
    pub fn opt_int(n: Option<i64>) -> (r: Json)
        ensures
            r.deep_view() == opt_int(n),
    {
        match n {
            Some(i) => Json::Int(i),
            None => Json::Null,
        }
    }

    /// An object without members.
    pub fn object() -> (r: Json)
        ensures
            r.deep_view() == JsonV::Obj(Seq::empty()),
    {
        let v: Vec<(String, Json)> = Vec::new();
        let r = Json::Obj(v);
        assert(r.deep_view()->Obj_0 =~= Seq::empty());
        r
    }

    /// This object with one more member at its end. Anything but an object is
    /// handed back as it is.
    pub fn with(self, key: &str, value: Json) -> (r: Json)
        ensures
            r.deep_view() == (match self.deep_view() {
                JsonV::Obj(m) => JsonV::Obj(m.push((key@, value.deep_view()))),
                other => other,
            }),
    {
        match self {
            Json::Obj(mut v) => {
                let ghost before = json_view(self)->Obj_0;
                v.push((key.to_owned(), value));
                let r = Json::Obj(v);
                assert(r.deep_view()->Obj_0 =~= before.push((key@, value.deep_view())));
                r
            },
            other => other,
        }
    }

    /// An array of strings.
    pub fn strings(items: &Vec<String>) -> (r: Json)
        ensures
            r.deep_view() == JsonV::Arr(
                items.deep_view().map_values(|s: Seq<char>| JsonV::Str(s)),
            ),
    {
        let mut out: Vec<Json> = Vec::new();
        let mut i: usize = 0;
        while i < items.len()
            invariant
                i <= items@.len(),
                out@.len() == i,
                forall|k: int| 0 <= k < i ==> json_view(#[trigger] out@[k]) == JsonV::Str(items@[k]@),
            decreases items@.len() - i,
        {
            out.push(Json::Str(items[i].clone()));
            i += 1;
        }
        let r = Json::Arr(out);
        assert(r.deep_view()->Arr_0 =~= items.deep_view().map_values(|s: Seq<char>| JsonV::Str(s)));
        r
    }

    /// The member `key` of an object.
    pub fn get(&self, key: &str) -> (r: Option<&Json>)
        ensures
            match r {
                Some(j) => self.deep_view().at(key@) == Some(j.deep_view()),
                None => self.deep_view().at(key@) is None,
            },
    {
        match self {
            Json::Obj(v) => {
                let ghost m = self.deep_view()->Obj_0;
                let mut i: usize = v.len();
                assert(m.take(i as int) =~= m);
                while i > 0
                    invariant
                        i <= v@.len(),
                        m.len() == v@.len(),
                        self matches Json::Obj(w) && w == v,
                        self.deep_view() == JsonV::Obj(m),
                        member(m, key@) == member(m.take(i as int), key@),
                    decreases i,
                {
                    assert(m.take(i as int).drop_last() =~= m.take(i - 1));
                    assert(m[i - 1] == (v@[i - 1].0@, json_view(v@[i - 1].1)));
                    if same(v[i - 1].0.as_str(), key) {
                        return Some(&v[i - 1].1);
                    }
                    i -= 1;
                }
                None
            },
            _ => None,
        }
    }

    /// The member `key` of an object, where it is a string.
    pub fn text(&self, key: &str) -> (r: Option<String>)
        ensures
            r.deep_view() == self.deep_view().text_at(key@),
    {
        match self.get(key) {
            Some(Json::Str(s)) => Some(s.clone()),
            _ => None,
        }
    }
}

} // verus!
