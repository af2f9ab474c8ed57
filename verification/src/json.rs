//! A JSON value the library can reason about. Objects keep their keys in
//! order, as `serde_json` does with `preserve_order`. Text goes to and from
//! JSON through `serde_json`; numbers that are neither integers of `u64` nor
//! negative `i64` (floats) are carried through as `serde_json::Number`.

use vstd::prelude::*;
use serde_json::{Number, Value};

verus! {

#[verifier::external_type_specification]
#[verifier::external_body]
pub struct ExNumber(Number);

#[verifier::external_type_specification]
#[verifier::external_body]
pub struct ExValue(Value);

/// A JSON number: a non-negative integer, a negative integer, or anything
/// else (kept as `serde_json` holds it).
#[derive(Debug)]
pub enum JsonNumber {
    PosInt(u64),
    NegInt(i64),
    Float(Number),
}

/// A JSON value.
#[derive(Debug)]
pub enum Json {
    Null,
    Bool(bool),
    Number(JsonNumber),
    Str(String),
    Array(Vec<Json>),
    Object(Vec<(String, Json)>),
}

/// The mathematical form of a JSON value: strings as character sequences.
#[verifier::ext_equal]
pub enum JsonV {
    Null,
    Bool(bool),
    Num(JsonNumber),
    Str(Seq<char>),
    Arr(Seq<JsonV>),
    Obj(Seq<(Seq<char>, JsonV)>),
}

pub open spec fn json_view(j: Json) -> JsonV
    decreases j,
{
    match j {
        Json::Null => JsonV::Null,
        Json::Bool(b) => JsonV::Bool(b),
        Json::Number(n) => JsonV::Num(n),
        Json::Str(s) => JsonV::Str(s@),
        Json::Array(v) => JsonV::Arr(Seq::new(v@.len(), |i: int|
            if 0 <= i < v@.len() {
                proof { assert(decreases_to!(v => v@[i])); }
                json_view(v@[i])
            } else {
                JsonV::Null
            })),
        Json::Object(m) => JsonV::Obj(Seq::new(m@.len(), |i: int|
            if 0 <= i < m@.len() {
                proof { assert(decreases_to!(m => m@[i].1)); }
                (m@[i].0@, json_view(m@[i].1))
            } else {
                (Seq::<char>::empty(), JsonV::Null)
            })),
    }
}

impl View for Json {
    type V = JsonV;

    open spec fn view(&self) -> JsonV {
        json_view(*self)
    }
}

/// The value stored under `k` in an object's entries: the first entry with that key.
pub open spec fn obj_get(m: Seq<(Seq<char>, JsonV)>, k: Seq<char>) -> Option<JsonV>
    decreases m.len(),
{
    if m.len() == 0 {
        None
    } else if m[0].0 == k {
        Some(m[0].1)
    } else {
        obj_get(m.drop_first(), k)
    }
}

/// `Value::get` with a key: the member of an object, nothing for other values.
pub open spec fn jget(v: JsonV, k: Seq<char>) -> Option<JsonV> {
    match v {
        JsonV::Obj(m) => obj_get(m, k),
        _ => None,
    }
}

pub open spec fn jstr(v: Option<JsonV>) -> Option<Seq<char>> {
    match v {
        Some(JsonV::Str(s)) => Some(s),
        _ => None,
    }
}

pub open spec fn jbool(v: Option<JsonV>) -> Option<bool> {
    match v {
        Some(JsonV::Bool(b)) => Some(b),
        _ => None,
    }
}

pub open spec fn jarr(v: Option<JsonV>) -> Option<Seq<JsonV>> {
    match v {
        Some(JsonV::Arr(a)) => Some(a),
        _ => None,
    }
}

pub open spec fn jobj(v: Option<JsonV>) -> Option<Seq<(Seq<char>, JsonV)>> {
    match v {
        Some(JsonV::Obj(m)) => Some(m),
        _ => None,
    }
}

/// `Value::as_u64`.
pub open spec fn ju64(v: Option<JsonV>) -> Option<u64> {
    match v {
        Some(JsonV::Num(JsonNumber::PosInt(n))) => Some(n),
        _ => None,
    }
}

/// `Value::as_i64`.
pub open spec fn ji64(v: Option<JsonV>) -> Option<i64> {
    match v {
        Some(JsonV::Num(JsonNumber::PosInt(n))) => if n <= i64::MAX as u64 { Some(n as i64) } else { None },
        Some(JsonV::Num(JsonNumber::NegInt(n))) => Some(n),
        _ => None,
    }
}

pub open spec fn opt_view(r: Option<&Json>) -> Option<JsonV> {
    match r {
        Some(j) => Some(j@),
        None => None,
    }
}

pub open spec fn entries_view(m: Seq<(String, Json)>) -> Seq<(Seq<char>, JsonV)> {
    Seq::new(m.len(), |i: int| (m[i].0@, m[i].1@))
}

pub open spec fn items_view(v: Seq<Json>) -> Seq<JsonV> {
    Seq::new(v.len(), |i: int| v[i]@)
}

pub proof fn lemma_view_parts(j: Json)
    ensures
        j matches Json::Array(v) ==> j@ == JsonV::Arr(items_view(v@)),
        j matches Json::Object(m) ==> j@ == JsonV::Obj(entries_view(m@)),
{
    match j {
        Json::Array(v) => {
            let a = json_view(j)->Arr_0;
            assert(a.len() == v@.len());
            assert forall|i: int| 0 <= i < a.len() implies a[i] == items_view(v@)[i] by {}
            assert(a =~= items_view(v@));
        },
        Json::Object(m) => {
            let a = json_view(j)->Obj_0;
            assert(a.len() == m@.len());
            assert forall|i: int| 0 <= i < a.len() implies a[i] == entries_view(m@)[i] by {}
            assert(a =~= entries_view(m@));
        },
        _ => {},
    }
}

/// `str` equality.
pub fn str_equal(a: &str, b: &str) -> (r: bool)
    ensures
        r == (a@ == b@),
{
    let ca = crate::text::chars_of(a);
    let cb = crate::text::chars_of(b);
    crate::text::eq_chars(ca.as_slice(), cb.as_slice())
}

/// A copy of a `serde_json::Number` (it derives `Clone`).
#[verifier::external_body]
fn clone_number(n: &Number) -> (r: Number)
    ensures
        r == *n,
{
    n.clone()
}

impl JsonNumber {
    pub fn copy(&self) -> (r: JsonNumber)
        ensures
            r == *self,
    {
        match self {
            JsonNumber::PosInt(n) => JsonNumber::PosInt(*n),
            JsonNumber::NegInt(n) => JsonNumber::NegInt(*n),
            JsonNumber::Float(f) => JsonNumber::Float(clone_number(f)),
        }
    }
}

impl Json {
    /// A copy of the whole value.
    #[verifier::loop_isolation(false)]
    pub fn deep_clone(&self) -> (r: Json)
        ensures
            r@ == self@,
        decreases self,
    {
        proof { lemma_view_parts(*self); }
        match self {
            Json::Null => Json::Null,
            Json::Bool(b) => Json::Bool(*b),
            Json::Number(n) => Json::Number(n.copy()),
            Json::Str(s) => Json::Str(s.clone()),
            Json::Array(v) => {
                let mut out: Vec<Json> = Vec::new();
                let mut i: usize = 0;
                while i < v.len()
                    invariant
                        i <= v.len(),
                        out@.len() == i,
                        items_view(out@) == items_view(v@).take(i as int),
                    decreases v.len() - i,
                {
                    proof { assert(decreases_to!(*self => v@[i as int])); }
                    let c = v[i].deep_clone();
                    out.push(c);
                    assert(out@[i as int]@ == v@[i as int]@);
                    assert(items_view(out@) =~= items_view(v@).take(i + 1));
                    i = i + 1;
                }
                assert(items_view(v@).take(v.len() as int) =~= items_view(v@));
                let r = Json::Array(out);
                proof { lemma_view_parts(r); }
                r
            },
            Json::Object(m) => {
                let mut out: Vec<(String, Json)> = Vec::new();
                let mut i: usize = 0;
                while i < m.len()
                    invariant
                        i <= m.len(),
                        out@.len() == i,
                        entries_view(out@) == entries_view(m@).take(i as int),
                    decreases m.len() - i,
                {
                    let k = m[i].0.clone();
                    proof { assert(decreases_to!(*self => m@[i as int].1)); }
                    let c = m[i].1.deep_clone();
                    out.push((k, c));
                    assert(out@[i as int].1@ == m@[i as int].1@);
                    assert(out@[i as int].0@ == m@[i as int].0@);
                    assert(entries_view(out@) =~= entries_view(m@).take(i + 1));
                    i = i + 1;
                }
                assert(entries_view(m@).take(m.len() as int) =~= entries_view(m@));
                let r = Json::Object(out);
                proof { lemma_view_parts(r); }
                r
            },
        }
    }

    /// `Value::get`: the member stored under `key` when this is an object.
    #[verifier::loop_isolation(false)]
    pub fn get(&self, key: &str) -> (r: Option<&Json>)
        ensures
            opt_view(r) == jget(self@, key@),
    {
        proof { lemma_view_parts(*self); }
        match self {
            Json::Object(m) => {
                let ghost mv = entries_view(m@);
                let mut i: usize = 0;
                assert(mv.skip(0) =~= mv);
                while i < m.len()
                    invariant
                        i <= m.len(),
                        mv == entries_view(m@),
                        obj_get(mv, key@) == obj_get(mv.skip(i as int), key@),
                    decreases m.len() - i,
                {
                    assert(mv.skip(i as int)[0] == mv[i as int]);
                    if str_equal(m[i].0.as_str(), key) {
                        return Some(&m[i].1);
                    }
                    assert(mv.skip(i as int).drop_first() =~= mv.skip(i + 1));
                    i = i + 1;
                }
                None
            },
            _ => None,
        }
    }

    pub fn as_str(&self) -> (r: Option<&str>)
        ensures
            match self@ {
                JsonV::Str(s) => r matches Some(t) && t@ == s,
                _ => r is None,
            },
    {
        match self {
            Json::Str(s) => Some(s.as_str()),
            _ => None,
        }
    }

    pub fn as_bool(&self) -> (r: Option<bool>)
        ensures
            r == jbool(Some(self@)),
    {
        match self {
            Json::Bool(b) => Some(*b),
            _ => None,
        }
    }

    pub fn as_u64(&self) -> (r: Option<u64>)
        ensures
            r == ju64(Some(self@)),
    {
        match self {
            Json::Number(JsonNumber::PosInt(n)) => Some(*n),
            _ => None,
        }
    }

    pub fn as_i64(&self) -> (r: Option<i64>)
        ensures
            r == ji64(Some(self@)),
    {
        match self {
            Json::Number(JsonNumber::PosInt(n)) => if *n <= 9223372036854775807u64 { Some(*n as i64) } else { None },
            Json::Number(JsonNumber::NegInt(n)) => Some(*n),
            _ => None,
        }
    }

    pub fn as_array(&self) -> (r: Option<&Vec<Json>>)
        ensures
            match self@ {
                JsonV::Arr(a) => r matches Some(v) && items_view(v@) == a,
                _ => r is None,
            },
    {
        proof { lemma_view_parts(*self); }
        match self {
            Json::Array(v) => Some(v),
            _ => None,
        }
    }

    pub fn as_object(&self) -> (r: Option<&Vec<(String, Json)>>)
        ensures
            match self@ {
                JsonV::Obj(m) => r matches Some(v) && entries_view(v@) == m,
                _ => r is None,
            },
    {
        proof { lemma_view_parts(*self); }
        match self {
            Json::Object(m) => Some(m),
            _ => None,
        }
    }

    pub fn is_null(&self) -> (r: bool)
        ensures
            r == (self@ is Null),
    {
        match self {
            Json::Null => true,
            _ => false,
        }
    }
}

/// What `serde_json` parses a text into (`serde_json::from_str::<Value>`), if it is JSON.
pub uninterp spec fn json_parse(text: Seq<char>) -> Option<JsonV>;

/// The compact text `serde_json::to_string` writes for a value.
pub uninterp spec fn json_text(v: JsonV) -> Seq<char>;

/// The indented text `serde_json::to_string_pretty` writes for a value.
pub uninterp spec fn json_pretty_text(v: JsonV) -> Seq<char>;

/// `serde_json::Value` to `Json`, member for member.
#[verifier::external_body]
fn from_value(v: &Value) -> Json {
    match v {
        Value::Null => Json::Null,
        Value::Bool(b) => Json::Bool(*b),
        Value::Number(n) => Json::Number(match (n.as_u64(), n.as_i64()) {
            (Some(u), _) => JsonNumber::PosInt(u),
            (None, Some(i)) => JsonNumber::NegInt(i),
            _ => JsonNumber::Float(n.clone()),
        }),
        Value::String(s) => Json::Str(s.clone()),
        Value::Array(a) => Json::Array(a.iter().map(from_value).collect()),
        Value::Object(m) => Json::Object(m.iter().map(|(k, x)| (k.clone(), from_value(x))).collect()),
    }
}

/// `Json` to `serde_json::Value`, member for member.
#[verifier::external_body]
pub(crate) fn to_value(j: &Json) -> Value {
    match j {
        Json::Null => Value::Null,
        Json::Bool(b) => Value::Bool(*b),
        Json::Number(JsonNumber::PosInt(u)) => Value::from(*u),
        Json::Number(JsonNumber::NegInt(i)) => Value::from(*i),
        Json::Number(JsonNumber::Float(n)) => Value::Number(n.clone()),
        Json::Str(s) => Value::String(s.clone()),
        Json::Array(a) => Value::Array(a.iter().map(to_value).collect()),
        Json::Object(m) => Value::Object(m.iter().map(|(k, x)| (k.clone(), to_value(x))).collect()),
    }
}

/// `serde_json::from_str::<Value>`: the value the text holds, or nothing when it is not JSON.
#[verifier::external_body]
pub fn parse_json(text: &str) -> (r: Option<Json>)
    ensures
        r matches Some(j) ==> json_parse(text@) == Some(j@),
        r is None ==> json_parse(text@) is None,
{
    serde_json::from_str::<Value>(text).ok().map(|v| from_value(&v))
}

/// `serde_json::to_string` (it cannot fail for a value).
#[verifier::external_body]
pub fn to_json_text(j: &Json) -> (r: String)
    ensures
        r@ == json_text(j@),
{
    serde_json::to_string(&to_value(j)).unwrap_or_default()
}

/// `serde_json::to_string_pretty` (it cannot fail for a value).
#[verifier::external_body]
pub fn to_json_pretty(j: &Json) -> (r: String)
    ensures
        r@ == json_pretty_text(j@),
{
    serde_json::to_string_pretty(&to_value(j)).unwrap_or_default()
}

pub open spec fn or_empty(o: Option<Seq<char>>) -> Seq<char> {
    match o {
        Some(s) => s,
        None => Seq::empty(),
    }
}

/// The string stored under `key`, when this is an object and the member is a string.
pub fn get_str<'a>(j: &'a Json, key: &str) -> (r: Option<&'a str>)
    ensures
        match jstr(jget(j@, key@)) {
            Some(s) => r matches Some(t) && t@ == s,
            None => r is None,
        },
{
    match j.get(key) {
        Some(v) => v.as_str(),
        None => None,
    }
}

/// The boolean stored under `key`.
pub fn get_bool(j: &Json, key: &str) -> (r: Option<bool>)
    ensures
        r == jbool(jget(j@, key@)),
{
    match j.get(key) {
        Some(v) => v.as_bool(),
        None => None,
    }
}

/// The array stored under `key`.
pub fn get_array<'a>(j: &'a Json, key: &str) -> (r: Option<&'a Vec<Json>>)
    ensures
        match jarr(jget(j@, key@)) {
            Some(a) => r matches Some(v) && items_view(v@) == a,
            None => r is None,
        },
{
    match j.get(key) {
        Some(v) => v.as_array(),
        None => None,
    }
}

/// The object entries stored under `key`.
pub fn get_object<'a>(j: &'a Json, key: &str) -> (r: Option<&'a Vec<(String, Json)>>)
    ensures
        match jobj(jget(j@, key@)) {
            Some(m) => r matches Some(v) && entries_view(v@) == m,
            None => r is None,
        },
{
    match j.get(key) {
        Some(v) => v.as_object(),
        None => None,
    }
}

} // verus!
