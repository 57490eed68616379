//! JSON values: their text, when two are equal, and when one holds another.

use serde_json::Number;
use vstd::prelude::*;

use crate::json_read::{same_value, to_value, value_text};
use crate::text::{comes_before, same};
use crate::text;

verus! {

/// A number of serde_json.
#[verifier::external_type_specification]
#[verifier::external_body]
pub struct ExNumber(serde_json::Number);

/// The text of a number, as serde_json displays it.
pub uninterp spec fn number_text(n: serde_json::Number) -> Seq<char>;

/// `clone` on a number of serde_json: a number with the same text.
#[verifier::external_body]
pub(crate) fn copy_number(n: &Number) -> (r: Number)
    ensures
        number_text(r) == number_text(*n),
{
    n.clone()
}

/// `Number::from` on an unsigned integer: the number whose text has the digits of
/// the integer.
#[verifier::external_body]
pub(crate) fn number_from(n: u64) -> (r: Number)
    ensures
        number_text(r) == text::decimal(n as nat),
{
    Number::from(n)
}

/// A JSON value. Of an object no key occurs twice, and the members stand in the
/// order of their keys.
#[derive(Debug)]
pub enum Json {
    Null,
    Bool(bool),
    Number(Number),
    Text(String),
    Array(Vec<Json>),
    Object(Members),
}

/// A member of an object.
#[derive(Debug)]
pub struct Member {
    pub key: String,
    pub value: Json,
}

/// The members of an object, in the order of their keys.
#[derive(Debug)]
pub struct Members {
    list: Vec<Member>,
}

/// A JSON value as a mathematical one: a number is its text.
pub ghost enum JsonModel {
    Null,
    Bool(bool),
    Number(Seq<char>),
    Text(Seq<char>),
    Array(Seq<JsonModel>),
    Object(Seq<(Seq<char>, JsonModel)>),
}

/// A JSON value as a mathematical one.
spec fn model_of(j: Json) -> JsonModel
    decreases j,
{
    match j {
        Json::Null => JsonModel::Null,
        Json::Bool(b) => JsonModel::Bool(b),
        Json::Number(n) => JsonModel::Number(number_text(n)),
        Json::Text(t) => JsonModel::Text(t@),
        Json::Array(v) => JsonModel::Array(
            Seq::new(
                v@.len(),
                |i: int|
                    if 0 <= i < v@.len() {
                        model_of(v@[i])
                    } else {
                        JsonModel::Null
                    },
            ),
        ),
        Json::Object(m) => JsonModel::Object(
            Seq::new(
                m.list@.len(),
                |i: int|
                    if 0 <= i < m.list@.len() {
                        (m.list@[i].key@, model_of(m.list@[i].value))
                    } else {
                        (Seq::empty(), JsonModel::Null)
                    },
            ),
        ),
    }
}

impl View for Json {
    type V = JsonModel;

    closed spec fn view(&self) -> JsonModel {
        model_of(*self)
    }
}

/// The values of an array, as mathematical ones.
pub open spec fn models(s: Seq<Json>) -> Seq<JsonModel> {
    s.map_values(|j: Json| j@)
}

impl View for Members {
    type V = Seq<(Seq<char>, JsonModel)>;

    closed spec fn view(&self) -> Seq<(Seq<char>, JsonModel)> {
        member_models(self.list@)
    }
}

/// The members of an object, as mathematical ones.
spec fn member_models(s: Seq<Member>) -> Seq<(Seq<char>, JsonModel)> {
    s.map_values(|m: Member| (m.key@, m.value@))
}

/// What the view of each kind of value is.
pub broadcast proof fn lemma_json_view(j: Json)
    ensures
        #![trigger j.view()]
        j is Null ==> j@ == JsonModel::Null,
        j matches Json::Bool(b) ==> j@ == JsonModel::Bool(b),
        j matches Json::Number(n) ==> j@ == JsonModel::Number(number_text(n)),
        j matches Json::Text(t) ==> j@ == JsonModel::Text(t@),
        j matches Json::Array(v) ==> j@ == JsonModel::Array(models(v@)),
        j matches Json::Object(m) ==> j@ == JsonModel::Object(m@),
{
    match j {
        Json::Array(v) => {
            assert(j@->Array_0 =~= models(v@));
        },
        Json::Object(m) => {
            let listed = j@->Object_0;
            assert(listed.len() == m@.len());
            assert forall|i: int| 0 <= i < m@.len() implies listed[i] == #[trigger] m@[i] by {
                assert(listed[i] == (m.list@[i].key@, m.list@[i].value@));
            }
            assert(listed =~= m@);
        },
        _ => {},
    }
}

/// What a list of members gives for a key, if anything.
pub open spec fn member_value(s: Seq<(Seq<char>, JsonModel)>, key: Seq<char>) -> Option<JsonModel>
    decreases s.len(),
{
    if s.len() == 0 {
        None
    } else if s[0].0 == key {
        Some(s[0].1)
    } else {
        member_value(s.drop_first(), key)
    }
}

/// The members `s` with `key` at its place among them; the value it had goes.
pub open spec fn with_member(
    s: Seq<(Seq<char>, JsonModel)>,
    key: Seq<char>,
    value: JsonModel,
) -> Seq<(Seq<char>, JsonModel)>
    decreases s.len(),
{
    if s.len() > 0 && text::text_lt(key, s.last().0) {
        with_member(s.drop_last(), key, value).push(s.last())
    } else if s.len() > 0 && key == s.last().0 {
        s.drop_last().push((key, value))
    } else {
        s.push((key, value))
    }
}

/// Whether members stand in the order of their keys, none twice.
pub open spec fn keys_ascend(s: Seq<(Seq<char>, JsonModel)>) -> bool {
    forall|i: int, j: int|
        0 <= i < j < s.len() ==> text::text_lt((#[trigger] s[i]).0, (#[trigger] s[j]).0)
}

/// A member put at its place leaves the members in the order of their keys.
pub(crate) proof fn lemma_with_member_ascends(
    s: Seq<(Seq<char>, JsonModel)>,
    key: Seq<char>,
    value: JsonModel,
)
    requires
        keys_ascend(s),
    ensures
        keys_ascend(with_member(s, key, value)),
        forall|i: int|
            0 <= i < with_member(s, key, value).len() ==> (#[trigger] with_member(
                s,
                key,
                value,
            )[i]).0 == key || exists|j: int|
                0 <= j < s.len() && (#[trigger] s[j]).0 == with_member(s, key, value)[i].0,
    decreases s.len(),
{
    let r = with_member(s, key, value);
    if s.len() > 0 {
        let head = s.drop_last();
        let last = s.last();
        assert(s[s.len() - 1] == last);
        assert forall|i: int| 0 <= i < head.len() implies text::text_lt(
            (#[trigger] head[i]).0,
            last.0,
        ) by {
            assert(head[i] == s[i]);
        }
        assert(keys_ascend(head)) by {
            assert forall|i: int, j: int| 0 <= i < j < head.len() implies text::text_lt(
                (#[trigger] head[i]).0,
                (#[trigger] head[j]).0,
            ) by {
                assert(head[i] == s[i] && head[j] == s[j]);
            }
        }
        if text::text_lt(key, last.0) {
            lemma_with_member_ascends(head, key, value);
            let h = with_member(head, key, value);
            assert forall|i: int| 0 <= i < h.len() implies text::text_lt(
                (#[trigger] h[i]).0,
                last.0,
            ) && (h[i].0 == key || exists|j: int|
                0 <= j < s.len() && (#[trigger] s[j]).0 == h[i].0) by {
                if h[i].0 != key {
                    let j = choose|j: int| 0 <= j < head.len() && (#[trigger] head[j]).0 == h[i].0;
                    assert(head[j] == s[j]);
                }
            }
            assert forall|i: int| 0 <= i < r.len() implies (#[trigger] r[i]).0 == key || exists|
                j: int,
            | 0 <= j < s.len() && (#[trigger] s[j]).0 == r[i].0 by {
                if i < h.len() {
                    assert(r[i] == h[i]);
                } else {
                    assert(s[s.len() - 1].0 == r[i].0);
                }
            }
        } else {
            text::lemma_text_lt_total(key, last.0);
            if key != last.0 {
                assert forall|i: int| 0 <= i < s.len() implies text::text_lt(
                    (#[trigger] s[i]).0,
                    key,
                ) by {
                    if i < head.len() {
                        assert(text::text_lt(head[i].0, last.0));
                        text::lemma_text_lt_transitive(s[i].0, last.0, key);
                    }
                }
            }
            assert forall|i: int| 0 <= i < r.len() implies (#[trigger] r[i]).0 == key || exists|
                j: int,
            | 0 <= j < s.len() && (#[trigger] s[j]).0 == r[i].0 by {
                if i < r.len() - 1 {
                    assert(r[i] == s[i]);
                }
            }
        }
    }
}

impl Members {
    #[verifier::type_invariant]
    spec fn in_key_order(self) -> bool {
        keys_ascend(member_models(self.list@))
    }

    /// No members.
    pub fn new() -> (r: Members)
        ensures
            r@ == Seq::<(Seq<char>, JsonModel)>::empty(),
    {
        let list: Vec<Member> = Vec::new();
        assert(member_models(list@) =~= Seq::<(Seq<char>, JsonModel)>::empty());
        Members { list }
    }

    /// How many members there are.
    pub fn len(&self) -> (r: usize)
        ensures
            r == self@.len(),
            keys_ascend(self@),
    {
        proof {
            use_type_invariant(self);
        }
        self.list.len()
    }

    /// The key of the member at place `i`.
    pub fn key_at(&self, i: usize) -> (r: &str)
        requires
            i < self@.len(),
        ensures
            r@ == self@[i as int].0,
    {
        self.list[i].key.as_str()
    }

    /// The value of the member at place `i`.
    pub fn value_at(&self, i: usize) -> (r: &Json)
        requires
            i < self@.len(),
        ensures
            r@ == self@[i as int].1,
            decreases_to!(*self => *r),
    {
        &self.list[i].value
    }

    /// What the members give for `key`, if anything.
    pub fn get(&self, key: &str) -> (r: Option<&Json>)
        ensures
            match r {
                Some(v) => member_value(self@, key@) == Some(v@),
                None => member_value(self@, key@) is None,
            },
    {
        let mut i: usize = 0;
        let ghost all = self@;
        assert(all.skip(0) == all);
        while i < self.list.len()
            invariant
                0 <= i <= self.list@.len(),
                all == self@,
                member_value(all.skip(i as int), key@) == member_value(all, key@),
            decreases self.list.len() - i,
        {
            assert(all.skip(i as int)[0] == all[i as int]);
            assert(all.skip(i as int).drop_first() == all.skip(i + 1));
            if same(self.list[i].key.as_str(), key) {
                return Some(&self.list[i].value);
            }
            i += 1;
        }
        None
    }

    /// Puts a member at its place; the value that `key` had goes.
    pub fn insert(&mut self, key: String, value: Json)
        ensures
            final(self)@ == with_member(old(self)@, key@, value@),
    {
        proof {
            use_type_invariant(&*self);
            lemma_with_member_ascends(self@, key@, value@);
        }
        let ghost before = self.list@;
        let ghost whole = member_models(before);
        let mut list: Vec<Member> = Vec::new();
        std::mem::swap(&mut list, &mut self.list);
        let mut k: usize = list.len();
        assert(whole.take(k as int) == whole);
        assert(with_member(whole, key@, value@) == with_member(whole, key@, value@) + whole.skip(
            k as int,
        ));
        while k > 0 && comes_before(key.as_str(), list[k - 1].key.as_str())
            invariant
                0 <= k <= list@.len(),
                list@ == before,
                whole == member_models(before),
                with_member(whole, key@, value@) == with_member(
                    whole.take(k as int),
                    key@,
                    value@,
                ) + whole.skip(k as int),
            decreases k,
        {
            let ghost front = whole.take(k as int);
            assert(front.drop_last() == whole.take(k - 1));
            assert(front.last() == whole[k - 1]);
            k -= 1;
            assert(with_member(front.drop_last(), key@, value@).push(front.last()) + whole.skip(
                k + 1,
            ) == with_member(front.drop_last(), key@, value@) + whole.skip(k as int));
        }
        let ghost front = whole.take(k as int);
        let member = Member { key, value };
        let ghost model = (key@, value@);
        if k > 0 && same(member.key.as_str(), list[k - 1].key.as_str()) {
            assert(front.last() == whole[k - 1]);
            list.set(k - 1, member);
            assert(member_models(list@) =~= front.drop_last().push(model) + whole.skip(k as int));
        } else {
            if k > 0 {
                assert(front.last() == whole[k - 1]);
            }
            list.insert(k, member);
            assert(member_models(list@) =~= front.push(model) + whole.skip(k as int));
        }
        self.list = list;
    }
}

/// The character of a hexadecimal digit.
pub open spec fn hex_digit(d: nat) -> char {
    if d < 10 {
        (('0' as u8) + d) as char
    } else {
        (('a' as u8) + (d - 10)) as char
    }
}

/// How a character is written inside a JSON string.
pub open spec fn escaped_char(c: char) -> Seq<char> {
    let n = c as nat;
    if c == '"' || c == '\\' {
        seq!['\\', c]
    } else if n == 8 {
        seq!['\\', 'b']
    } else if n == 9 {
        seq!['\\', 't']
    } else if n == 10 {
        seq!['\\', 'n']
    } else if n == 12 {
        seq!['\\', 'f']
    } else if n == 13 {
        seq!['\\', 'r']
    } else if n < 32 {
        seq!['\\', 'u', '0', '0', hex_digit(n / 16), hex_digit(n % 16)]
    } else {
        seq![c]
    }
}

/// The characters of a text as they are written inside a JSON string.
pub open spec fn escaped(s: Seq<char>) -> Seq<char>
    decreases s.len(),
{
    if s.len() == 0 {
        s
    } else {
        escaped(s.drop_last()) + escaped_char(s.last())
    }
}

/// A text as a JSON string.
pub open spec fn quoted(s: Seq<char>) -> Seq<char> {
    seq!['"'] + escaped(s) + seq!['"']
}

/// The text of a JSON value, with no space in it.
pub open spec fn json_text(j: JsonModel) -> Seq<char>
    decreases j,
{
    match j {
        JsonModel::Null => "null"@,
        JsonModel::Bool(b) => if b {
            "true"@
        } else {
            "false"@
        },
        JsonModel::Number(t) => t,
        JsonModel::Text(t) => quoted(t),
        JsonModel::Array(s) => seq!['['] + items_text(s) + seq![']'],
        JsonModel::Object(s) => seq!['{'] + members_text(s) + seq!['}'],
    }
}

/// The texts of values, with commas between them.
pub open spec fn items_text(s: Seq<JsonModel>) -> Seq<char>
    decreases s,
{
    if s.len() == 0 {
        Seq::empty()
    } else if s.len() == 1 {
        json_text(s[0])
    } else {
        items_text(s.subrange(0, s.len() - 1)) + seq![','] + json_text(s[s.len() - 1])
    }
}

/// The texts of members, with commas between them.
pub open spec fn members_text(s: Seq<(Seq<char>, JsonModel)>) -> Seq<char>
    decreases s,
{
    if s.len() == 0 {
        Seq::empty()
    } else if s.len() == 1 {
        quoted(s[0].0) + seq![':'] + json_text(s[0].1)
    } else {
        members_text(s.subrange(0, s.len() - 1)) + seq![','] + quoted(s[s.len() - 1].0) + seq![':']
            + json_text(s[s.len() - 1].1)
    }
}

/// Whether two texts are those of equal numbers: the same, or the two zeros.
pub open spec fn same_number(a: Seq<char>, b: Seq<char>) -> bool {
    a == b || ((a == "0.0"@ || a == "-0.0"@) && (b == "0.0"@ || b == "-0.0"@))
}

/// Whether two JSON values are equal.
pub open spec fn json_eq(a: JsonModel, b: JsonModel) -> bool
    decreases a,
{
    match (a, b) {
        (JsonModel::Null, JsonModel::Null) => true,
        (JsonModel::Bool(x), JsonModel::Bool(y)) => x == y,
        (JsonModel::Number(x), JsonModel::Number(y)) => same_number(x, y),
        (JsonModel::Text(x), JsonModel::Text(y)) => x == y,
        (JsonModel::Array(x), JsonModel::Array(y)) => x.len() == y.len() && forall|i: int|
            #![trigger x[i]]
            0 <= i < x.len() ==> json_eq(x[i], y[i]),
        (JsonModel::Object(x), JsonModel::Object(y)) => x.len() == y.len() && forall|i: int|
            #![trigger x[i]]
            0 <= i < x.len() ==> x[i].0 == y[i].0 && json_eq(x[i].1, y[i].1),
        _ => false,
    }
}

/// Whether `target` holds `filter`: every member of it, where both are objects,
/// and otherwise whether they are equal.
pub open spec fn holds(target: JsonModel, filter: JsonModel) -> bool {
    match (target, filter) {
        (JsonModel::Object(t), JsonModel::Object(f)) => forall|i: int|
            #![trigger f[i]]
            0 <= i < f.len() ==> (member_value(t, f[i].0) matches Some(v) && json_eq(v, f[i].1)),
        _ => json_eq(target, filter),
    }
}

impl Json {
    /// A value like this one.
    pub fn copy(&self) -> (r: Json)
        ensures
            r@ == self@,
        decreases self,
    {
        broadcast use lemma_json_view;

        match self {
            Json::Null => Json::Null,
            Json::Bool(b) => Json::Bool(*b),
            Json::Number(n) => Json::Number(copy_number(n)),
            Json::Text(t) => Json::Text(t.clone()),
            Json::Array(v) => {
                let mut out: Vec<Json> = Vec::new();
                let mut i: usize = 0;
                while i < v.len()
                    invariant
                        0 <= i <= v@.len(),
                        *self == Json::Array(*v),
                        models(out@) == models(v@).take(i as int),
                    decreases v.len() - i,
                {
                    assert(decreases_to!(self => self->Array_0));
                    assert(decreases_to!(v@ => v@[i as int]));
                    assert(decreases_to!(self => v@[i as int]));
                    let ghost before = out@;
                    out.push(v[i].copy());
                    i += 1;
                    assert(models(out@) =~= models(before).push(v@[i - 1]@));
                    assert(models(v@).take(i as int) =~= models(v@).take(i - 1).push(v@[i - 1]@));
                }
                assert(models(v@).take(v@.len() as int) =~= models(v@));
                Json::Array(out)
            },
            Json::Object(m) => {
                let mut list: Vec<Member> = Vec::new();
                let mut i: usize = 0;
                proof {
                    use_type_invariant(m);
                }
                while i < m.list.len()
                    invariant
                        0 <= i <= m.list@.len(),
                        *self == Json::Object(*m),
                        member_models(list@) == m@.take(i as int),
                    decreases m.list.len() - i,
                {
                    assert(decreases_to!(self => self->Object_0));
                    assert(decreases_to!(m => m.list));
                    assert(decreases_to!(m.list@ => m.list@[i as int]));
                    assert(decreases_to!(m.list@[i as int] => m.list@[i as int].value));
                    assert(decreases_to!(self => m.list@[i as int].value));
                    let ghost before = list@;
                    let member = Member {
                        key: m.list[i].key.clone(),
                        value: m.list[i].value.copy(),
                    };
                    list.push(member);
                    i += 1;
                    assert(member_models(list@) =~= member_models(before).push(m@[i - 1]));
                    assert(m@.take(i as int) =~= m@.take(i - 1).push(m@[i - 1]));
                }
                assert(m@.take(m@.len() as int) =~= m@);
                Json::Object(Members { list })
            },
        }
    }

    /// Whether two values are equal.
    pub fn equals(&self, other: &Json) -> (r: bool)
        ensures
            r == json_eq(self@, other@),
    {
        same_value(&to_value(self), &to_value(other))
    }

    /// The text of this value, with no space in it.
    pub fn to_text(&self) -> (r: String)
        ensures
            r@ == json_text(self@),
    {
        value_text(&to_value(self))
    }
}

/// Whether `target` holds `filter`.
pub fn json_contains(target: &Json, filter: &Json) -> (r: bool)
    ensures
        r == holds(target@, filter@),
{
    broadcast use lemma_json_view;

    match (target, filter) {
        (Json::Object(t), Json::Object(f)) => {
            let mut i: usize = 0;
            while i < f.len()
                invariant
                    0 <= i <= f@.len(),
                    target@ == JsonModel::Object(t@),
                    filter@ == JsonModel::Object(f@),
                    forall|j: int|
                        #![trigger f@[j]]
                        0 <= j < i ==> (member_value(t@, f@[j].0) matches Some(v) && json_eq(
                            v,
                            f@[j].1,
                        )),
                decreases f@.len() - i,
            {
                match t.get(f.key_at(i)) {
                    Some(v) => {
                        if !v.equals(f.value_at(i)) {
                            assert(f@[i as int].0 == f@[i as int].0);
                            return false;
                        }
                    },
                    None => {
                        assert(f@[i as int].0 == f@[i as int].0);
                        return false;
                    },
                }
                i += 1;
            }
            true
        },
        _ => target.equals(filter),
    }
}

}
