//! A JSON document as plain values, read through `serde_json`, with the
//! accessors the catalogue files are read with.

use vstd::prelude::*;

use crate::text::str_eq;

verus! {

/// A JSON value.  A number keeps the integer it stands for when that
/// integer fits an `i64` (`None` for other numbers, such as fractions);
/// an object keeps its members in order, each key once.
pub enum Json {
    Null,
    Bool(bool),
    Number(Option<i64>),
    Str(String),
    Array(Vec<Json>),
    Object(Vec<(String, Json)>),
}

/// The member of an object stored under `key` (the first one, should a
/// key repeat).
pub open spec fn member(entries: Seq<(String, Json)>, key: Seq<char>) -> Option<Json>
    decreases entries.len(),
{
    if entries.len() == 0 {
        None
    } else if entries[0].0@ == key {
        Some(entries[0].1)
    } else {
        member(entries.drop_first(), key)
    }
}

/// Looking up a key in an object's members gives the value of the first
/// member with that key, and nothing where no member has it.
pub proof fn lemma_member_first(entries: Seq<(String, Json)>, key: Seq<char>, i: int)
    ensures
        (forall|k: int| 0 <= k < entries.len() ==> #[trigger] entries[k].0@ != key) ==> member(entries, key)
            is None,
        (0 <= i < entries.len() && entries[i].0@ == key && forall|k: int|
            0 <= k < i ==> #[trigger] entries[k].0@ != key) ==> member(entries, key) == Some(entries[i].1),
    decreases entries.len(),
{
    if entries.len() > 0 {
        let rest = entries.drop_first();
        lemma_member_first(rest, key, i - 1);
        if forall|k: int| 0 <= k < entries.len() ==> #[trigger] entries[k].0@ != key {
            assert(entries[0].0@ != key);
            assert forall|k: int| 0 <= k < rest.len() implies #[trigger] rest[k].0@ != key by {
                assert(rest[k] == entries[k + 1]);
            }
        }
        if 0 < i < entries.len() && entries[i].0@ == key && forall|k: int|
            0 <= k < i ==> #[trigger] entries[k].0@ != key {
            assert(entries[0].0@ != key);
            assert(rest[i - 1] == entries[i]);
            assert forall|k: int| 0 <= k < i - 1 implies #[trigger] rest[k].0@ != key by {
                assert(rest[k] == entries[k + 1]);
            }
        }
    }
}

impl Json {
    /// `value.get(key)`: the member `key` of an object, `None` for anything else.
    pub open spec fn field(self, key: Seq<char>) -> Option<Json> {
        match self {
            Json::Object(entries) => member(entries@, key),
            _ => None,
        }
    }

    /// `value[key]`: the member `key` of an object, `null` where there is none.
    pub open spec fn at(self, key: Seq<char>) -> Json {
        match self.field(key) {
            Some(v) => v,
            None => Json::Null,
        }
    }

    /// `value.as_str()`.
    pub open spec fn text(self) -> Option<Seq<char>> {
        match self {
            Json::Str(s) => Some(s@),
            _ => None,
        }
    }

    /// `value.as_i64()`.
    pub open spec fn integer(self) -> Option<i64> {
        match self {
            Json::Number(n) => n,
            _ => None,
        }
    }

    /// `value.as_array()`.
    pub open spec fn items(self) -> Option<Seq<Json>> {
        match self {
            Json::Array(v) => Some(v@),
            _ => None,
        }
    }

    /// The member `key` of an object.
    pub fn get(&self, key: &str) -> (r: Option<&Json>)
        ensures
            r is Some <==> self.field(key@) is Some,
            r matches Some(v) ==> self.field(key@) == Some(*v),
    {
        match self {
            Json::Object(entries) => {
                let mut i: usize = 0;
                assert(entries@.skip(0) =~= entries@);
                while i < entries.len()
                    invariant
                        i <= entries@.len(),
                        self.field(key@) == member(entries@.skip(i as int), key@),
                    decreases entries@.len() - i,
                {
                    assert(entries@.skip(i as int)[0] == entries@[i as int]);
                    if str_eq(entries[i].0.as_str(), key) {
                        assert(entries@.skip(i as int).len() > 0);
                        return Some(&entries[i].1);
                    }
                    assert(entries@.skip(i as int).drop_first() =~= entries@.skip(i + 1));
                    i = i + 1;
                }
                None
            },
            _ => None,
        }
    }

    /// The text of `self[key]`, if it is a string.
    pub fn text_at(&self, key: &str) -> (r: Option<String>)
        ensures
            r is Some <==> self.at(key@).text() is Some,
            r matches Some(s) ==> self.at(key@).text() == Some(s@),
    {
        match self.get(key) {
            Some(Json::Str(s)) => Some(s.clone()),
            _ => None,
        }
    }

    /// The text of `self[outer][inner]`, if it is a string.
    pub fn text_at2(&self, outer: &str, inner: &str) -> (r: Option<String>)
        ensures
            r is Some <==> self.at(outer@).at(inner@).text() is Some,
            r matches Some(s) ==> self.at(outer@).at(inner@).text() == Some(s@),
    {
        match self.get(outer) {
            Some(v) => v.text_at(inner),
            None => None,
        }
    }

    /// `self[key].as_i64()`.
    pub fn integer_at(&self, key: &str) -> (r: Option<i64>)
        ensures
            r == self.at(key@).integer(),
    {
        match self.get(key) {
            Some(Json::Number(n)) => *n,
            _ => None,
        }
    }

    /// `self[outer][inner].as_i64()`.
    pub fn integer_at2(&self, outer: &str, inner: &str) -> (r: Option<i64>)
        ensures
            r == self.at(outer@).at(inner@).integer(),
    {
        match self.get(outer) {
            Some(v) => v.integer_at(inner),
            None => None,
        }
    }

    /// `self[key].as_array()`.
    pub fn items_at(&self, key: &str) -> (r: Option<&Vec<Json>>)
        ensures
            r is Some <==> self.at(key@).items() is Some,
            r matches Some(v) ==> self.at(key@).items() == Some(v@),
    {
        match self.get(key) {
            Some(Json::Array(v)) => Some(v),
            _ => None,
        }
    }
}

#[verifier::external_type_specification]
#[verifier::external_body]
pub struct ExJsonValue(serde_json::Value);

/// What `serde_json` reads from a text, as a `Json` (`None` where the
/// text is not a JSON document).
pub uninterp spec fn json_of_text(text: Seq<char>) -> Option<Json>;

/// The compact JSON text `serde_json` writes for an array of strings.
pub uninterp spec fn json_text_of_strings(items: Seq<Seq<char>>) -> Seq<char>;

/// Turns a `serde_json::Value` into a `Json`, one variant for one variant,
/// a number into the `i64` that `Number::as_i64` gives for it.  Nothing is
/// stated of it on its own: `parse_json` names the whole reading.
#[verifier::external_body]
fn json_from_value(v: serde_json::Value) -> Json {
    match v {
        serde_json::Value::Null => Json::Null,
        serde_json::Value::Bool(b) => Json::Bool(b),
        serde_json::Value::Number(n) => Json::Number(n.as_i64()),
        serde_json::Value::String(s) => Json::Str(s),
        serde_json::Value::Array(a) => Json::Array(a.into_iter().map(json_from_value).collect()),
        serde_json::Value::Object(m) => Json::Object(
            m.into_iter().map(|(k, x)| (k, json_from_value(x))).collect(),
        ),
    }
}

/// `serde_json::from_str::<serde_json::Value>(text).ok()`: the document a
/// text holds.  The contract claims only that the result is a function of
/// the text, named `json_of_text`.
#[verifier::external_body]
pub(crate) fn parse_json(text: &str) -> (r: Option<Json>)
    ensures
        r == json_of_text(text@),
{
    serde_json::from_str::<serde_json::Value>(text).ok().map(json_from_value)
}

/// `serde_json::to_string(items)` on a vector of strings.  The contract
/// claims that it succeeds (a string always serializes) and that the text
/// is a function of the strings, named `json_text_of_strings`.
#[verifier::external_body]
pub(crate) fn strings_to_json(items: &Vec<String>) -> (r: String)
    ensures
        r@ == json_text_of_strings(items@.map_values(|s: String| s@)),
{
    serde_json::to_string(items).unwrap()
}

} // verus!
