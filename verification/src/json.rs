//! JSON values, as far as the library reads and writes them.
use crate::text::same_text;
use vstd::prelude::*;

verus! {

/// A JSON value. Numbers that are no unsigned integers are not told apart: nothing
/// here reads them.
#[derive(Debug, PartialEq, Eq)]
pub enum Json {
    Null,
    Bool(bool),
    Number(u64),
    OtherNumber,
    Str(String),
    Array(Vec<Json>),
    Object(Vec<Member>),
}

/// A member of an object.
#[derive(Debug, PartialEq, Eq)]
pub struct Member {
    pub name: String,
    pub value: Json,
}

/// What a [`Json`] holds.
#[verifier::ext_equal]
pub enum JsonV {
    Null,
    Bool(bool),
    Number(u64),
    OtherNumber,
    Str(Seq<char>),
    Array(Seq<JsonV>),
    Object(Seq<(Seq<char>, JsonV)>),
}

/// What a JSON value holds.
pub open spec fn json_view(j: Json) -> JsonV
    decreases j,
{
    match j {
        Json::Null => JsonV::Null,
        Json::Bool(b) => JsonV::Bool(b),
        Json::Number(n) => JsonV::Number(n),
        Json::OtherNumber => JsonV::OtherNumber,
        Json::Str(s) => JsonV::Str(s@),
        Json::Array(v) => JsonV::Array(
            Seq::new(
                v@.len(),
                |i: int|
                    if 0 <= i < v@.len() {
                        json_view(v@[i])
                    } else {
                        JsonV::Null
                    },
            ),
        ),
        Json::Object(v) => JsonV::Object(
            Seq::new(
                v@.len(),
                |i: int|
                    if 0 <= i < v@.len() {
                        (v@[i].name@, json_view(v@[i].value))
                    } else {
                        (Seq::empty(), JsonV::Null)
                    },
            ),
        ),
    }
}

impl View for Json {
    type V = JsonV;

    open spec fn view(&self) -> JsonV {
        json_view(*self)
    }
}

/// What the items of an array hold.
pub open spec fn json_views(v: Seq<Json>) -> Seq<JsonV> {
    Seq::new(v.len(), |i: int| v[i]@)
}

/// What the members of an object hold.
pub open spec fn member_views(v: Seq<Member>) -> Seq<(Seq<char>, JsonV)> {
    Seq::new(v.len(), |i: int| (v[i].name@, v[i].value@))
}

/// What an optional value holds.
pub open spec fn opt_json(o: Option<&Json>) -> Option<JsonV> {
    match o {
        Some(j) => Some(j@),
        None => None,
    }
}

/// What an array holds are its items.
pub proof fn lemma_array_view(v: Vec<Json>)
    ensures
        Json::Array(v)@ == JsonV::Array(json_views(v@)),
{
    assert(Json::Array(v)@->Array_0 =~= json_views(v@));
}

/// What an object holds are its members.
pub proof fn lemma_object_view(v: Vec<Member>)
    ensures
        Json::Object(v)@ == JsonV::Object(member_views(v@)),
{
    assert(Json::Object(v)@->Object_0 =~= member_views(v@));
}

// ---------------------------------------------------------------------------
// Reading
// ---------------------------------------------------------------------------

/// The first member of this name from the `i`-th on.
pub open spec fn find_member(ms: Seq<(Seq<char>, JsonV)>, name: Seq<char>, i: int) -> Option<JsonV>
    decreases ms.len() - i,
{
    if i < 0 || i >= ms.len() {
        None
    } else if ms[i].0 == name {
        Some(ms[i].1)
    } else {
        find_member(ms, name, i + 1)
    }
}

/// The member of this name, where the value is an object that has one.
pub open spec fn get_field(j: JsonV, name: Seq<char>) -> Option<JsonV> {
    match j {
        JsonV::Object(ms) => find_member(ms, name, 0),
        _ => None,
    }
}

/// The member of this name, where there is a value that has one.
pub open spec fn dig(o: Option<JsonV>, name: Seq<char>) -> Option<JsonV> {
    match o {
        Some(j) => get_field(j, name),
        None => None,
    }
}

/// The items of an array; none for another value.
pub open spec fn items(o: Option<JsonV>) -> Seq<JsonV> {
    match o {
        Some(JsonV::Array(v)) => v,
        _ => Seq::empty(),
    }
}

/// The `i`-th item of an array.
pub open spec fn item_at(o: Option<JsonV>, i: int) -> Option<JsonV> {
    let v = items(o);
    if 0 <= i < v.len() {
        Some(v[i])
    } else {
        None
    }
}

/// The text of a string.
pub open spec fn text_of(o: Option<JsonV>) -> Option<Seq<char>> {
    match o {
        Some(JsonV::Str(s)) => Some(s),
        _ => None,
    }
}

/// The value of an unsigned integer.
pub open spec fn number_of(o: Option<JsonV>) -> Option<u64> {
    match o {
        Some(JsonV::Number(n)) => Some(n),
        _ => None,
    }
}

/// Whether the value is `true`.
pub open spec fn is_true(o: Option<JsonV>) -> bool {
    o == Some(JsonV::Bool(true))
}

/// The value is an object that has a member of this name.
pub open spec fn has_member(j: JsonV, name: Seq<char>) -> bool {
    get_field(j, name) is Some
}

/// The members of an object; none for another value.
pub open spec fn members(j: JsonV) -> Seq<(Seq<char>, JsonV)> {
    match j {
        JsonV::Object(ms) => ms,
        _ => Seq::empty(),
    }
}

impl Json {
    /// The member of this name, where the value is an object that has one.
    pub fn get(&self, name: &str) -> (r: Option<&Json>)
        ensures
            opt_json(r) == get_field(self@, name@),
    {
        match self {
            Json::Object(ms) => {
                proof {
                    lemma_object_view(*ms);
                }
                let n: usize = ms.len();
                let ghost mv = member_views(ms@);
                for i in 0..n
                    invariant
                        n == ms@.len(),
                        mv == member_views(ms@),
                        self@ == JsonV::Object(mv),
                        find_member(mv, name@, 0) == find_member(mv, name@, i as int),
                {
                    assert(mv[i as int] == (ms@[i as int].name@, ms@[i as int].value@));
                    if same_text(ms[i].name.as_str(), name) {
                        return Some(&ms[i].value);
                    }
                }
                None
            },
            _ => None,
        }
    }

    /// The text, where the value is a string.
    pub fn as_str(&self) -> (r: Option<&str>)
        ensures
            match r {
                Some(s) => text_of(Some(self@)) == Some(s@),
                None => text_of(Some(self@)) is None,
            },
    {
        match self {
            Json::Str(s) => Some(s.as_str()),
            _ => None,
        }
    }

    /// The items, where the value is an array.
    pub fn as_array(&self) -> (r: Option<&Vec<Json>>)
        ensures
            match r {
                Some(v) => self@ == JsonV::Array(json_views(v@)),
                None => !(self@ is Array),
            },
    {
        match self {
            Json::Array(v) => {
                proof {
                    lemma_array_view(*v);
                }
                Some(v)
            },
            _ => None,
        }
    }

    /// The members, where the value is an object.
    pub fn as_object(&self) -> (r: Option<&Vec<Member>>)
        ensures
            match r {
                Some(v) => self@ == JsonV::Object(member_views(v@)),
                None => !(self@ is Object),
            },
    {
        match self {
            Json::Object(v) => {
                proof {
                    lemma_object_view(*v);
                }
                Some(v)
            },
            _ => None,
        }
    }
}

/// The member of this name, where there is a value that has one.
pub fn dig_into<'a>(o: Option<&'a Json>, name: &str) -> (r: Option<&'a Json>)
    ensures
        opt_json(r) == dig(opt_json(o), name@),
{
    match o {
        Some(j) => j.get(name),
        None => None,
    }
}

/// The items of an array; `None` for another value.
pub fn array_of<'a>(o: Option<&'a Json>) -> (r: Option<&'a Vec<Json>>)
    ensures
        match r {
            Some(v) => items(opt_json(o)) == json_views(v@),
            None => items(opt_json(o)) == Seq::<JsonV>::empty(),
        },
{
    match o {
        Some(j) => j.as_array(),
        None => None,
    }
}

/// The `i`-th item of an array.
pub fn item_of<'a>(o: Option<&'a Json>, i: u64) -> (r: Option<&'a Json>)
    ensures
        opt_json(r) == item_at(opt_json(o), i as int),
{
    match array_of(o) {
        Some(v) => {
            let n: usize = v.len();
            if i < n as u64 {
                Some(&v[i as usize])
            } else {
                None
            }
        },
        None => None,
    }
}

/// The text of a string.
pub fn str_of<'a>(o: Option<&'a Json>) -> (r: Option<&'a str>)
    ensures
        match r {
            Some(s) => text_of(opt_json(o)) == Some(s@),
            None => text_of(opt_json(o)) is None,
        },
{
    match o {
        Some(j) => j.as_str(),
        None => None,
    }
}

/// The value of an unsigned integer.
pub fn u64_of(o: Option<&Json>) -> (r: Option<u64>)
    ensures
        r == number_of(opt_json(o)),
{
    match o {
        Some(Json::Number(n)) => Some(*n),
        _ => None,
    }
}

/// Whether the value is `true`.
pub fn true_of(o: Option<&Json>) -> (r: bool)
    ensures
        r == is_true(opt_json(o)),
{
    match o {
        Some(Json::Bool(b)) => *b,
        _ => false,
    }
}

// ---------------------------------------------------------------------------
// Writing
// ---------------------------------------------------------------------------

/// A string.
pub fn string(s: &str) -> (r: Json)
    ensures
        r@ == JsonV::Str(s@),
{
    Json::Str(s.to_owned())
}

/// An object of one member.
pub fn object1(name: &str, value: Json) -> (r: Json)
    ensures
        r@ == JsonV::Object(seq![(name@, value@)]),
{
    let mut v: Vec<Member> = Vec::new();
    v.push(Member { name: name.to_owned(), value });
    proof {
        lemma_object_view(v);
        assert(member_views(v@) =~= seq![(name@, value@)]);
    }
    Json::Object(v)
}

/// An object with one more member, where the value is an object.
pub fn with(object: Json, name: &str, value: Json) -> (r: Json)
    requires
        object@ is Object,
    ensures
        r@ == JsonV::Object(members(object@).push((name@, value@))),
{
    match object {
        Json::Object(ms) => {
            proof {
                lemma_object_view(ms);
            }
            let mut v = ms;
            let ghost before = member_views(v@);
            v.push(Member { name: name.to_owned(), value });
            proof {
                lemma_object_view(v);
                assert(member_views(v@) =~= before.push((name@, value@)));
            }
            Json::Object(v)
        },
        other => other,
    }
}

/// A copy of a value.
pub fn copy_json(j: &Json) -> (r: Json)
    ensures
        r@ == j@,
    decreases j,
{
    match j {
        Json::Null => Json::Null,
        Json::Bool(b) => Json::Bool(*b),
        Json::Number(n) => Json::Number(*n),
        Json::OtherNumber => Json::OtherNumber,
        Json::Str(s) => Json::Str(s.clone()),
        Json::Array(v) => {
            let n: usize = v.len();
            let mut out: Vec<Json> = Vec::new();
            for i in 0..n
                invariant
                    n == v@.len(),
                    *j == Json::Array(*v),
                    out@.len() == i,
                    forall|k: int| 0 <= k < i ==> (#[trigger] out@[k])@ == v@[k]@,
            {
                assert(decreases_to!(*j => j->Array_0));
                assert(decreases_to!(*v => v@));
                assert(decreases_to!(v@ => v@[i as int]));
                out.push(copy_json(&v[i]));
            }
            proof {
                lemma_array_view(*v);
                lemma_array_view(out);
                assert(json_views(out@) =~= json_views(v@));
            }
            Json::Array(out)
        },
        Json::Object(v) => {
            let n: usize = v.len();
            let mut out: Vec<Member> = Vec::new();
            for i in 0..n
                invariant
                    n == v@.len(),
                    *j == Json::Object(*v),
                    out@.len() == i,
                    forall|k: int|
                        0 <= k < i ==> (#[trigger] out@[k]).name@ == v@[k].name@ && out@[k].value@
                            == v@[k].value@,
            {
                assert(decreases_to!(*j => j->Object_0));
                assert(decreases_to!(*v => v@));
                assert(decreases_to!(v@ => v@[i as int]));
                assert(decreases_to!(v@[i as int] => v@[i as int].value));
                out.push(Member { name: v[i].name.clone(), value: copy_json(&v[i].value) });
            }
            proof {
                lemma_object_view(*v);
                lemma_object_view(out);
                assert(member_views(out@) =~= member_views(v@));
            }
            Json::Object(out)
        },
    }
}

/// An array of these items.
pub fn array(v: Vec<Json>) -> (r: Json)
    ensures
        r@ == JsonV::Array(json_views(v@)),
{
    proof {
        lemma_array_view(v);
    }
    Json::Array(v)
}

} // verus!
