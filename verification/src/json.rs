//! JSON values as the library reads them, and the parsing of JSON text.

use vstd::prelude::*;

use crate::text::{chars_eq, chars_of};

verus! {

/// A JSON value.
pub enum Json {
    Null,
    Bool(bool),
    /// A number, in the text that `serde_json` writes for it.
    Number(String),
    Str(String),
    Array(Vec<Json>),
    /// The members of an object, in order.
    Object(Vec<(String, Json)>),
}

#[verifier::external_type_specification]
#[verifier::external_body]
pub struct ExJsonValue(serde_json::Value);

/// What `serde_json` reads from a JSON text, as a [`Json`]: the value, or the
/// message of the error when the text is not JSON.
pub uninterp spec fn json_of(text: Seq<char>) -> Result<Json, Seq<char>>;

/// Trusted: parses `text` with `serde_json::from_str` into a
/// `serde_json::Value` and converts it to a [`Json`], variant by variant
/// (numbers by their `Display` text, objects member by member in the order
/// that the map gives them); the error is the `Display` text of
/// `serde_json::Error`. The contract states only that the result is
/// [`json_of`] of the text.
#[verifier::external_body]
pub(crate) fn parse_json(text: &str) -> (r: Result<Json, String>)
    ensures
        match r {
            Ok(j) => json_of(text@) == Ok::<Json, Seq<char>>(j),
            Err(e) => json_of(text@) == Err::<Json, Seq<char>>(e@),
        },
{
    match serde_json::from_str::<serde_json::Value>(text) {
        Ok(v) => Ok(json_of_value(&v)),
        Err(e) => Err(format!("{e}")),
    }
}

/// Trusted, and used only by [`parse_json`], whose contract covers it: the
/// conversion of a `serde_json::Value`, one arm per variant.
#[verifier::external_body]
fn json_of_value(v: &serde_json::Value) -> Json {
    match v {
        serde_json::Value::Null => Json::Null,
        serde_json::Value::Bool(b) => Json::Bool(*b),
        serde_json::Value::Number(n) => Json::Number(n.to_string()),
        serde_json::Value::String(s) => Json::Str(s.clone()),
        serde_json::Value::Array(a) => Json::Array(a.iter().map(json_of_value).collect()),
        serde_json::Value::Object(m) => Json::Object(
            m.iter().map(|(k, x)| (k.clone(), json_of_value(x))).collect(),
        ),
    }
}

/// The value of the first member named `key`.
pub open spec fn member(fields: Seq<(String, Json)>, key: Seq<char>) -> Option<Json>
    decreases fields.len(),
{
    if fields.len() == 0 {
        None
    } else if fields[0].0@ == key {
        Some(fields[0].1)
    } else {
        member(fields.subrange(1, fields.len() as int), key)
    }
}

/// The member `key` of an object; nothing for another kind of value.
pub open spec fn get(j: Json, key: Seq<char>) -> Option<Json> {
    match j {
        Json::Object(fields) => member(fields@, key),
        _ => None,
    }
}

proof fn lemma_member_skip(fields: Seq<(String, Json)>, key: Seq<char>, i: int)
    requires
        0 <= i <= fields.len(),
        forall|j: int| 0 <= j < i ==> fields[j].0@ != key,
    ensures
        member(fields, key) == member(fields.subrange(i, fields.len() as int), key),
    decreases i,
{
    if i > 0 {
        let rest = fields.subrange(1, fields.len() as int);
        lemma_member_skip(rest, key, i - 1);
        assert(rest.subrange(i - 1, rest.len() as int) =~= fields.subrange(i, fields.len() as int));
    } else {
        assert(fields.subrange(0, fields.len() as int) =~= fields);
    }
}

/// The member `key` of an object, as `serde_json::Value::get` reads it.
pub fn get_member<'a>(j: &'a Json, key: &str) -> (r: Option<&'a Json>)
    ensures
        match get(*j, key@) {
            Some(v) => r matches Some(x) && *x == v,
            None => r is None,
        },
{
    match j {
        Json::Object(fields) => {
            let wanted = chars_of(key);
            let mut i: usize = 0;
            while i < fields.len()
                invariant
                    wanted@ == key@,
                    get(*j, key@) == member(fields@, key@),
                    i <= fields.len(),
                    forall|k: int| 0 <= k < i ==> fields@[k].0@ != key@,
                decreases fields.len() - i,
            {
                let name = chars_of(fields[i].0.as_str());
                if chars_eq(name.as_slice(), wanted.as_slice()) {
                    proof {
                        lemma_member_skip(fields@, key@, i as int);
                        let rest = fields@.subrange(i as int, fields.len() as int);
                        assert(rest[0] == fields@[i as int]);
                    }
                    return Some(&fields[i].1);
                }
                i = i + 1;
            }
            proof {
                lemma_member_skip(fields@, key@, i as int);
            }
            None
        },
        _ => None,
    }
}

} // verus!
