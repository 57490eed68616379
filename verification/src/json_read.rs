//! JSON values as serde_json reads, writes and compares them.

use serde_json::{Number, Value};
use vstd::prelude::*;

use crate::json;
use crate::json::{copy_number, Json, Members};
use crate::text;

verus! {

broadcast use json::lemma_json_view;

/// A JSON value of serde_json.
#[verifier::external_type_specification]
#[verifier::external_body]
pub struct ExValue(serde_json::Value);

/// What a JSON value of serde_json holds.
pub uninterp spec fn value_in(v: serde_json::Value) -> json::JsonModel;

/// The JSON value that `serde_json::from_str` reads from a text, or its account
/// of why there is none.
pub uninterp spec fn json_in(s: Seq<char>) -> Result<json::JsonModel, Seq<char>>;

/// `serde_json::from_str` on a text, its error taken as it is displayed.
#[verifier::external_body]
fn read_value(s: &str) -> (r: Result<Value, String>)
    ensures
        match r {
            Ok(v) => json_in(s@) == Ok::<json::JsonModel, Seq<char>>(value_in(v)),
            Err(e) => json_in(s@) == Err::<json::JsonModel, Seq<char>>(e@),
        },
{
    serde_json::from_str(s).map_err(|e| e.to_string())
}

/// A JSON value of serde_json, taken apart once.
enum Opened {
    Null,
    Bool(bool),
    Number(Number),
    Text(String),
    Array(Vec<Value>),
    Object(Vec<(String, Value)>),
}

/// What the values of an array hold.
spec fn values_in(s: Seq<Value>) -> Seq<json::JsonModel> {
    s.map_values(|v: Value| value_in(v))
}

/// What the members of an object hold.
spec fn members_in(s: Seq<(String, Value)>) -> Seq<(Seq<char>, json::JsonModel)> {
    s.map_values(|p: (String, Value)| (p.0@, value_in(p.1)))
}

/// Whether a value was taken apart into these parts. The members of an object
/// come in the order of their keys, none twice.
spec fn opens_to(m: json::JsonModel, r: Opened) -> bool {
    match r {
        Opened::Null => m == json::JsonModel::Null,
        Opened::Bool(b) => m == json::JsonModel::Bool(b),
        Opened::Number(n) => m == json::JsonModel::Number(json::number_text(n)),
        Opened::Text(t) => m == json::JsonModel::Text(t@),
        Opened::Array(v) => m == json::JsonModel::Array(values_in(v@)),
        Opened::Object(v) => m == json::JsonModel::Object(members_in(v@)) && json::keys_ascend(
            members_in(v@),
        ),
    }
}

/// The variants of `serde_json::Value`, one level deep. The members of an object
/// are taken as its map hands them out: in the order of their keys.
#[verifier::external_body]
fn open_value(v: Value) -> (r: Opened)
    ensures
        opens_to(value_in(v), r),
{
    match v {
        Value::Null => Opened::Null,
        Value::Bool(b) => Opened::Bool(b),
        Value::Number(n) => Opened::Number(n),
        Value::String(s) => Opened::Text(s),
        Value::Array(a) => Opened::Array(a),
        Value::Object(o) => Opened::Object(o.into_iter().collect()),
    }
}

/// The variants of `serde_json::Value`, put together from their parts. Of an
/// object the map keeps every member, as no key occurs twice.
#[verifier::external_body]
fn close_value(parts: Opened) -> (r: Value)
    requires
        parts matches Opened::Object(v) ==> json::keys_ascend(members_in(v@)),
    ensures
        opens_to(value_in(r), parts),
{
    match parts {
        Opened::Null => Value::Null,
        Opened::Bool(b) => Value::Bool(b),
        Opened::Number(n) => Value::Number(n),
        Opened::Text(s) => Value::String(s),
        Opened::Array(a) => Value::Array(a),
        Opened::Object(v) => Value::Object(v.into_iter().collect()),
    }
}

/// `to_string` on a JSON value of serde_json: its text with no space in it.
#[verifier::external_body]
pub(crate) fn value_text(v: &Value) -> (r: String)
    ensures
        r@ == json::json_text(value_in(*v)),
{
    v.to_string()
}

/// `==` on two JSON values of serde_json. Two numbers are equal where both are
/// integers, or both are not, of the same value: where their texts are the same,
/// or those of the two zeros.
#[verifier::external_body]
pub(crate) fn same_value(a: &Value, b: &Value) -> (r: bool)
    ensures
        r == json::json_eq(value_in(*a), value_in(*b)),
{
    a == b
}

/// A JSON value of this library as one of serde_json.
pub fn to_value(j: &Json) -> (r: Value)
    ensures
        value_in(r) == j@,
    decreases j,
{
    match j {
        Json::Null => close_value(Opened::Null),
        Json::Bool(b) => close_value(Opened::Bool(*b)),
        Json::Number(n) => close_value(Opened::Number(copy_number(n))),
        Json::Text(t) => close_value(Opened::Text(t.clone())),
        Json::Array(v) => {
            let mut out: Vec<Value> = Vec::new();
            let mut i: usize = 0;
            while i < v.len()
                invariant
                    0 <= i <= v@.len(),
                    *j == Json::Array(*v),
                    values_in(out@) == json::models(v@).take(i as int),
                decreases v.len() - i,
            {
                assert(decreases_to!(j => j->Array_0));
                assert(decreases_to!(v@ => v@[i as int]));
                assert(decreases_to!(j => v@[i as int]));
                let ghost before = out@;
                out.push(to_value(&v[i]));
                i += 1;
                assert(values_in(out@) =~= values_in(before).push(v@[i - 1]@));
                assert(json::models(v@).take(i as int) =~= json::models(v@).take(i - 1).push(
                    v@[i - 1]@,
                ));
            }
            assert(json::models(v@).take(v@.len() as int) =~= json::models(v@));
            close_value(Opened::Array(out))
        },
        Json::Object(m) => {
            let mut out: Vec<(String, Value)> = Vec::new();
            let mut i: usize = 0;
            while i < m.len()
                invariant
                    0 <= i <= m@.len(),
                    *j == Json::Object(*m),
                    members_in(out@) == m@.take(i as int),
                decreases m@.len() - i,
            {
                let value = m.value_at(i);
                assert(decreases_to!(j => j->Object_0));
                assert(decreases_to!(*m => *value));
                assert(decreases_to!(j => *value));
                let ghost before = out@;
                out.push((m.key_at(i).to_owned(), to_value(value)));
                i += 1;
                assert(members_in(out@) =~= members_in(before).push(m@[i - 1]));
                assert(m@.take(i as int) =~= m@.take(i - 1).push(m@[i - 1]));
            }
            assert(m@.take(m@.len() as int) =~= m@);
            close_value(Opened::Object(out))
        },
    }
}

/// A JSON value of serde_json as one of this library.
pub fn from_value(v: Value) -> (r: Json)
    ensures
        r@ == value_in(v),
    decreases value_in(v),
{
    let ghost m = value_in(v);
    match open_value(v) {
        Opened::Null => Json::Null,
        Opened::Bool(b) => Json::Bool(b),
        Opened::Number(n) => Json::Number(n),
        Opened::Text(t) => Json::Text(t),
        Opened::Array(items) => {
            let ghost all = items@;
            let mut out: Vec<Json> = Vec::new();
            for item in it: items
                invariant
                    it.seq() == all,
                    m == json::JsonModel::Array(values_in(all)),
                    m == value_in(v),
                    json::models(out@) == values_in(all).take(it.index() as int),
            {
                let ghost i = it.index() as int;
                let ghost before = out@;
                assert(decreases_to!(m => m->Array_0));
                assert(decreases_to!(m->Array_0 => m->Array_0[i]));
                assert(m->Array_0[i] == value_in(item));
                let value = from_value(item);
                out.push(value);
                assert(json::models(out@) =~= json::models(before).push(value@));
                assert(values_in(all).take(i + 1) =~= values_in(all).take(i).push(value_in(item)));
            }
            assert(values_in(all).take(all.len() as int) =~= values_in(all));
            Json::Array(out)
        },
        Opened::Object(pairs) => {
            let ghost all = pairs@;
            let ghost want = members_in(all);
            let mut out = Members::new();
            assert(want.take(0) =~= Seq::<(Seq<char>, json::JsonModel)>::empty());
            for pair in it: pairs
                invariant
                    it.seq() == all,
                    want == members_in(all),
                    m == json::JsonModel::Object(want),
                    m == value_in(v),
                    json::keys_ascend(want),
                    out@ == want.take(it.index() as int),
            {
                let ghost i = it.index() as int;
                let ghost before = out@;
                let (key, item) = pair;
                assert(want[i] == (key@, value_in(item)));
                assert(decreases_to!(m => m->Object_0));
                assert(decreases_to!(m->Object_0 => m->Object_0[i]));
                assert(decreases_to!(m->Object_0[i] => m->Object_0[i].1));
                let value = from_value(item);
                proof {
                    if i > 0 {
                        assert(before.last() == want[i - 1]);
                        assert(text::text_lt(want[i - 1].0, want[i].0));
                        text::lemma_text_lt_total(want[i - 1].0, want[i].0);
                    }
                }
                out.insert(key, value);
                assert(want.take(i + 1) =~= want.take(i).push(want[i]));
            }
            assert(want.take(want.len() as int) =~= want);
            Json::Object(out)
        },
    }
}

/// The JSON value that stands in a text, or why there is none.
pub fn parse_json(s: &str) -> (r: Result<Json, String>)
    ensures
        match r {
            Ok(j) => json_in(s@) == Ok::<json::JsonModel, Seq<char>>(j@),
            Err(e) => json_in(s@) == Err::<json::JsonModel, Seq<char>>(e@),
        },
{
    match read_value(s) {
        Ok(v) => Ok(from_value(v)),
        Err(e) => Err(e),
    }
}

}
