//! A JSON value the library can reason about, and the one place where JSON
//! text is parsed.
//!
//! Parsing itself is done by `serde_json`; its result is converted into
//! [`Json`], whose contents are plain values. Object members keep the order the
//! parser produced, which for `serde_json`'s default map is key order.

use vstd::prelude::*;
use crate::text::same_text;
use vstd::string::*;

verus! {

/// A JSON number, as the parser reported it.
#[derive(Debug, Clone, PartialEq)]
pub struct JsonNumber {
    /// The value as an `i64`, when it is an integer that fits.
    pub int: Option<i64>,
    /// The value as a `u64`, when it is a non-negative integer that fits.
    pub unsigned: Option<u64>,
    /// The number as the parser would print it.
    pub text: String,
}

/// A parsed JSON value.
#[derive(Debug, PartialEq)]
pub enum Json {
    Null,
    Bool(bool),
    Number(JsonNumber),
    String(String),
    Array(Vec<Json>),
    /// Members in the order the parser produced them.
    Object(Vec<(String, Json)>),
}

/// The mathematical content of a [`Json`] value.
pub enum JsonValue {
    Null,
    Bool(bool),
    Number { int: Option<i64>, unsigned: Option<u64>, text: Seq<char> },
    String(Seq<char>),
    Array(Seq<JsonValue>),
    Object(Seq<(Seq<char>, JsonValue)>),
}

/// The first member of an object's content under `key`.
pub open spec fn member_value(members: Seq<(Seq<char>, JsonValue)>, key: Seq<char>) -> Option<JsonValue>
    decreases members.len(),
{
    if members.len() == 0 {
        None
    } else if members[0].0 == key {
        Some(members[0].1)
    } else {
        member_value(members.drop_first(), key)
    }
}

impl JsonValue {
    /// The member under `key`, when this is an object.
    pub open spec fn field(self, key: Seq<char>) -> Option<JsonValue> {
        match self {
            JsonValue::Object(members) => member_value(members, key),
            _ => None,
        }
    }

    /// The text, when this is a string.
    pub open spec fn text(self) -> Option<Seq<char>> {
        match self {
            JsonValue::String(s) => Some(s),
            _ => None,
        }
    }

    /// The string member under `key`.
    pub open spec fn text_field(self, key: Seq<char>) -> Option<Seq<char>> {
        match self.field(key) {
            Some(v) => v.text(),
            None => None,
        }
    }
}

/// Looking a key up in members agrees with looking it up in their content.
pub proof fn lemma_field_of_view(e: Seq<(String, Json)>, key: Seq<char>)
    ensures
        field_of(e, key) matches Some(x) ==> member_value(view_members(e), key) == Some(x.view_json()),
        field_of(e, key) is None ==> member_value(view_members(e), key) is None,
    decreases e.len(),
{
    if e.len() > 0 {
        assert(e.drop_first() =~= e.subrange(1, e.len() as int));
        lemma_field_of_view(e.drop_first(), key);
        let vm = view_members(e);
        assert(vm.drop_first() =~= view_members(e.subrange(1, e.len() as int)));
    }
}

/// The content of a sequence of values.
pub open spec fn view_items(items: Seq<Json>) -> Seq<JsonValue>
    decreases items,
{
    if items.len() == 0 {
        Seq::empty()
    } else {
        seq![items[0].view_json()] + view_items(items.subrange(1, items.len() as int))
    }
}

/// The content of a sequence of object members.
pub open spec fn view_members(entries: Seq<(String, Json)>) -> Seq<(Seq<char>, JsonValue)>
    decreases entries,
{
    if entries.len() == 0 {
        Seq::empty()
    } else {
        seq![(entries[0].0@, entries[0].1.view_json())] + view_members(
            entries.subrange(1, entries.len() as int),
        )
    }
}

/// Viewing a sequence extended by one value extends its view by one.
pub proof fn lemma_view_items_push(s: Seq<Json>, x: Json)
    ensures
        view_items(s.push(x)) == view_items(s).push(x.view_json()),
    decreases s.len(),
{
    if s.len() == 0 {
        assert(s.push(x).subrange(1, 1) =~= Seq::<Json>::empty());
        assert(view_items(s.push(x).subrange(1, 1)) =~= Seq::empty());
        assert(view_items(s.push(x)) =~= seq![x.view_json()]);
    } else {
        assert(s.push(x).subrange(1, s.len() as int + 1) =~= s.subrange(1, s.len() as int).push(x));
        lemma_view_items_push(s.subrange(1, s.len() as int), x);
        assert(view_items(s.push(x)) =~= view_items(s).push(x.view_json()));
    }
}

/// Viewing members extended by one extends their view by one.
pub proof fn lemma_view_members_push(s: Seq<(String, Json)>, x: (String, Json))
    ensures
        view_members(s.push(x)) == view_members(s).push((x.0@, x.1.view_json())),
    decreases s.len(),
{
    if s.len() == 0 {
        assert(s.push(x).subrange(1, 1) =~= Seq::<(String, Json)>::empty());
        assert(view_members(s.push(x).subrange(1, 1)) =~= Seq::empty());
        assert(view_members(s.push(x)) =~= seq![(x.0@, x.1.view_json())]);
    } else {
        assert(s.push(x).subrange(1, s.len() as int + 1) =~= s.subrange(1, s.len() as int).push(x));
        lemma_view_members_push(s.subrange(1, s.len() as int), x);
        assert(view_members(s.push(x)) =~= view_members(s).push((x.0@, x.1.view_json())));
    }
}

/// The view of items has one element per item, each the item's content.
pub proof fn lemma_view_items_index(s: Seq<Json>)
    ensures
        view_items(s).len() == s.len(),
        forall|i: int| 0 <= i < s.len() ==> #[trigger] view_items(s)[i] == s[i].view_json(),
    decreases s.len(),
{
    if s.len() > 0 {
        let t = s.subrange(1, s.len() as int);
        lemma_view_items_index(t);
        assert forall|i: int| 0 <= i < s.len() implies #[trigger] view_items(s)[i] == s[i].view_json() by {
            if i > 0 {
                assert(view_items(s)[i] == view_items(t)[i - 1]);
            }
        }
    }
}

/// The view of members has one element per member, each the member's content.
pub proof fn lemma_view_members_index(s: Seq<(String, Json)>)
    ensures
        view_members(s).len() == s.len(),
        forall|i: int| 0 <= i < s.len() ==> #[trigger] view_members(s)[i] == (s[i].0@, s[i].1.view_json()),
    decreases s.len(),
{
    if s.len() > 0 {
        let t = s.subrange(1, s.len() as int);
        lemma_view_members_index(t);
        assert forall|i: int| 0 <= i < s.len() implies #[trigger] view_members(s)[i] == (s[i].0@, s[i].1.view_json()) by {
            if i > 0 {
                assert(view_members(s)[i] == view_members(t)[i - 1]);
            }
        }
    }
}

/// The view of a prefix extended by the next element.
pub proof fn lemma_view_items_take(s: Seq<Json>, i: int)
    requires
        0 <= i < s.len(),
    ensures
        view_items(s.take(i + 1)) == view_items(s.take(i)).push(s[i].view_json()),
{
    assert(s.take(i + 1) =~= s.take(i).push(s[i]));
    lemma_view_items_push(s.take(i), s[i]);
}

/// The view of a prefix of members extended by the next member.
pub proof fn lemma_view_members_take(s: Seq<(String, Json)>, i: int)
    requires
        0 <= i < s.len(),
    ensures
        view_members(s.take(i + 1)) == view_members(s.take(i)).push((s[i].0@, s[i].1.view_json())),
{
    assert(s.take(i + 1) =~= s.take(i).push(s[i]));
    lemma_view_members_push(s.take(i), s[i]);
}

impl Json {
    /// The content of this value.
    pub open spec fn view_json(self) -> JsonValue
        decreases self,
    {
        match self {
            Json::Null => JsonValue::Null,
            Json::Bool(b) => JsonValue::Bool(b),
            Json::Number(n) => JsonValue::Number { int: n.int, unsigned: n.unsigned, text: n.text@ },
            Json::String(s) => JsonValue::String(s@),
            Json::Array(items) => JsonValue::Array(view_items(items@)),
            Json::Object(entries) => JsonValue::Object(view_members(entries@)),
        }
    }
}

impl View for Json {
    type V = JsonValue;

    open spec fn view(&self) -> JsonValue {
        self.view_json()
    }
}

#[verifier::external_type_specification]
#[verifier::external_body]
pub struct ExSerdeJsonValue(serde_json::Value);

/// What `serde_json::from_slice::<serde_json::Value>` yields for these bytes,
/// converted into [`Json`]; `None` when the bytes are not one JSON document.
pub uninterp spec fn json_from_bytes(bytes: Seq<u8>) -> Option<Json>;

/// Parses JSON text.
///
/// Trusted: calls `serde_json::from_slice::<serde_json::Value>` and converts the
/// value member for member. The contract only names the result: it equals
/// `json_from_bytes` of the input, so the same bytes always give the same value.
/// Nothing is claimed about which byte strings parse.
#[verifier::external_body]
fn parse_json_bytes(bytes: &[u8]) -> (r: Option<Json>)
    ensures
        r == json_from_bytes(bytes@),
{
    match serde_json::from_slice::<serde_json::Value>(bytes) {
        Ok(value) => Some(Json::from_serde(&value)),
        Err(_) => None,
    }
}

/// The member of `entries` under `key`: the first one with that key.
pub open spec fn field_of(entries: Seq<(String, Json)>, key: Seq<char>) -> Option<Json>
    decreases entries.len(),
{
    if entries.len() == 0 {
        None
    } else if entries[0].0@ == key {
        Some(entries[0].1)
    } else {
        field_of(entries.drop_first(), key)
    }
}

impl Clone for Json {
    fn clone(&self) -> (r: Self)
        ensures
            r@ == self@,
    {
        self.deep_copy()
    }
}

impl Json {
    /// A copy of this value, member for member.
    pub fn deep_copy(&self) -> (r: Json)
        ensures
            r@ == self@,
        decreases self,
    {
        match self {
            Json::Null => Json::Null,
            Json::Bool(b) => Json::Bool(*b),
            Json::Number(n) => Json::Number(JsonNumber { int: n.int, unsigned: n.unsigned, text: n.text.clone() }),
            Json::String(s) => Json::String(s.clone()),
            Json::Array(items) => {
                let mut out: Vec<Json> = Vec::new();
                let mut i: usize = 0;
                while i < items.len()
                    invariant
                        i <= items@.len(),
                        *self == Json::Array(*items),
                        view_items(out@) == view_items(items@.take(i as int)),
                    decreases items@.len() - i,
                {
                    proof {
                        assert(decreases_to!(*self => self->Array_0));
                        assert(decreases_to!(*items => items@));
                        assert(decreases_to!(items@ => items@[i as int]));
                    }
                    let item = items[i].deep_copy();
                    proof {
                        lemma_view_items_push(out@, item);
                        lemma_view_items_take(items@, i as int);
                    }
                    out.push(item);
                    i += 1;
                }
                assert(items@.take(items@.len() as int) =~= items@);
                Json::Array(out)
            },
            Json::Object(entries) => {
                let mut out: Vec<(String, Json)> = Vec::new();
                let mut i: usize = 0;
                while i < entries.len()
                    invariant
                        i <= entries@.len(),
                        *self == Json::Object(*entries),
                        view_members(out@) == view_members(entries@.take(i as int)),
                    decreases entries@.len() - i,
                {
                    proof {
                        assert(decreases_to!(*self => self->Object_0));
                        assert(decreases_to!(*entries => entries@));
                        assert(decreases_to!(entries@ => entries@[i as int]));
                        assert(decreases_to!(entries@[i as int] => entries@[i as int].1));
                    }
                    let value = entries[i].1.deep_copy();
                    let key = entries[i].0.clone();
                    proof {
                        lemma_view_members_push(out@, (key, value));
                        lemma_view_members_take(entries@, i as int);
                    }
                    out.push((key, value));
                    i += 1;
                }
                assert(entries@.take(entries@.len() as int) =~= entries@);
                Json::Object(out)
            },
        }
    }

    /// Converts a `serde_json` value member for member.
    ///
    /// Trusted: a structural conversion of `serde_json::Value`, used only by
    /// `parse_json_bytes`. Numbers keep what `Number::as_i64`, `Number::as_u64`
    /// and `Number::to_string` report.
    #[verifier::external_body]
    fn from_serde(value: &serde_json::Value) -> Json {
        match value {
            serde_json::Value::Null => Json::Null,
            serde_json::Value::Bool(b) => Json::Bool(*b),
            serde_json::Value::Number(n) => {
                Json::Number(JsonNumber { int: n.as_i64(), unsigned: n.as_u64(), text: n.to_string() })
            },
            serde_json::Value::String(s) => Json::String(s.clone()),
            serde_json::Value::Array(items) => Json::Array(items.iter().map(Json::from_serde).collect()),
            serde_json::Value::Object(map) => {
                Json::Object(map.iter().map(|(k, v)| (k.clone(), Json::from_serde(v))).collect())
            },
        }
    }

    /// Parses one JSON document from bytes.
    pub fn parse_bytes(bytes: &[u8]) -> (r: Option<Json>)
        ensures
            r == json_from_bytes(bytes@),
    {
        parse_json_bytes(bytes)
    }

    /// Parses one JSON document from text.
    pub fn parse(text: &str) -> (r: Option<Json>)
        ensures
            r == json_from_bytes(text.spec_bytes()),
    {
        parse_json_bytes(text.as_bytes())
    }

    /// The member under `key` when this is an object.
    pub open spec fn field(self, key: Seq<char>) -> Option<Json> {
        match self {
            Json::Object(entries) => field_of(entries@, key),
            _ => None,
        }
    }

    /// `Value::get` with a string key.
    pub fn get(&self, key: &str) -> (r: Option<&Json>)
        ensures
            r matches Some(v) ==> self.field(key@) == Some(*v) && self@.field(key@) == Some(v@)
                && decreases_to!(*self => *v),
            r is None ==> self.field(key@) is None && self@.field(key@) is None,
    {
        proof {
            if let Json::Object(entries) = self {
                lemma_field_of_view(entries@, key@);
            }
        }
        match self {
            Json::Object(entries) => {
                let mut i: usize = 0;
                assert(entries@.skip(0) =~= entries@);
                while i < entries.len()
                    invariant
                        i <= entries@.len(),
                        *self == Json::Object(*entries),
                        self.field(key@) == field_of(entries@, key@),
                        self@.field(key@) == (match field_of(entries@, key@) {
                            Some(x) => Some(x.view_json()),
                            None => None,
                        }),
                        field_of(entries@, key@) == field_of(entries@.skip(i as int), key@),
                    decreases entries@.len() - i,
                {
                    assert(entries@.skip(i as int)[0] == entries@[i as int]);
                    assert(entries@.skip(i as int).drop_first() =~= entries@.skip(i + 1));
                    if same_text(entries[i].0.as_str(), key) {
                        proof {
                            assert(decreases_to!(*self => self->Object_0));
                            assert(decreases_to!(self->Object_0 => entries@));
                            assert(decreases_to!(entries@ => entries@[i as int]));
                            assert(decreases_to!(entries@[i as int] => entries@[i as int].1));
                        }
                        return Some(&entries[i].1);
                    }
                    i += 1;
                }
                None
            },
            _ => None,
        }
    }

    /// The text when this is a string.
    pub open spec fn string_value(self) -> Option<Seq<char>> {
        match self {
            Json::String(s) => Some(s@),
            _ => None,
        }
    }

    /// `Value::as_str`.
    pub fn as_str(&self) -> (r: Option<&String>)
        ensures
            r matches Some(s) ==> self == Json::String(*s) && self@.text() == Some(s@),
            r is None ==> !(self is String) && self@.text() is None,
    {
        match self {
            Json::String(s) => Some(s),
            _ => None,
        }
    }

    /// `Value::as_bool`.
    pub fn as_bool(&self) -> (r: Option<bool>)
        ensures
            r == (match self {
                Json::Bool(b) => Some(*b),
                _ => None,
            }),
    {
        match self {
            Json::Bool(b) => Some(*b),
            _ => None,
        }
    }

    /// The value as an `i64` when it is an integer that fits.
    pub open spec fn int_value(self) -> Option<i64> {
        match self {
            Json::Number(n) => n.int,
            _ => None,
        }
    }

    /// The value as a `u64` when it is a non-negative integer that fits.
    pub open spec fn unsigned_value(self) -> Option<u64> {
        match self {
            Json::Number(n) => n.unsigned,
            _ => None,
        }
    }

    /// `Value::as_i64`.
    pub fn as_i64(&self) -> (r: Option<i64>)
        ensures
            r == self.int_value(),
    {
        match self {
            Json::Number(n) => n.int,
            _ => None,
        }
    }

    /// `Value::as_u64`.
    pub fn as_u64(&self) -> (r: Option<u64>)
        ensures
            r == self.unsigned_value(),
    {
        match self {
            Json::Number(n) => n.unsigned,
            _ => None,
        }
    }

    /// `Value::as_array`.
    pub fn as_array(&self) -> (r: Option<&Vec<Json>>)
        ensures
            r matches Some(items) ==> self == Json::Array(*items),
            r is None ==> !(self is Array),
    {
        match self {
            Json::Array(items) => Some(items),
            _ => None,
        }
    }

    /// `Value::as_object`.
    pub fn as_object(&self) -> (r: Option<&Vec<(String, Json)>>)
        ensures
            r matches Some(entries) ==> self == Json::Object(*entries),
            r is None ==> !(self is Object),
    {
        match self {
            Json::Object(entries) => Some(entries),
            _ => None,
        }
    }

    /// `Value::is_object`.
    pub fn is_object(&self) -> (r: bool)
        ensures
            r == (self is Object),
    {
        match self {
            Json::Object(_) => true,
            _ => false,
        }
    }
}


/// A copy of object members, member for member.
pub fn copy_members(entries: &Vec<(String, Json)>) -> (r: Vec<(String, Json)>)
    ensures
        view_members(r@) == view_members(entries@),
{
    let mut out: Vec<(String, Json)> = Vec::new();
    let mut i: usize = 0;
    while i < entries.len()
        invariant
            i <= entries@.len(),
            view_members(out@) == view_members(entries@.take(i as int)),
        decreases entries@.len() - i,
    {
        let value = entries[i].1.deep_copy();
        let key = entries[i].0.clone();
        proof {
            lemma_view_members_push(out@, (key, value));
            lemma_view_members_take(entries@, i as int);
        }
        out.push((key, value));
        i += 1;
    }
    assert(entries@.take(entries@.len() as int) =~= entries@);
    out
}

} // verus!
