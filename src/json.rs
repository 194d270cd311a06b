//! JSON documents as the analysis reads them, parsed by serde_json.

use vstd::prelude::*;

use crate::text::compare_text;

verus! {

/// One JSON value. Objects keep their members in the order the parser
/// yields them (sorted by key, one member per key).
pub enum Json {
    /// `null`, a boolean or a number: the analysis reads none of them.
    Scalar,
    Str(String),
    Array(Vec<Json>),
    Object(Vec<(String, Json)>),
}

/// What serde_json makes of a text: `None` where it is no JSON document.
pub uninterp spec fn parsed_json(s: Seq<char>) -> Option<Json>;

/// Relies on `serde_json::from_str::<serde_json::Value>`: parses one JSON
/// document, or fails; the result depends on the text alone.
#[verifier::external_body]
pub(crate) fn parse_json(s: &str) -> (r: Option<Json>)
    ensures
        r == parsed_json(s@),
{
    serde_json::from_str::<serde_json::Value>(s).ok().map(json_of_value)
}

/// The parser's own document type, carried opaquely into `json_of_value`.
#[verifier::external_type_specification]
#[verifier::external_body]
pub struct ExValue(serde_json::Value);

/// Moves a parsed `serde_json::Value` into a `Json`, variant for variant.
#[verifier::external_body]
fn json_of_value(v: serde_json::Value) -> Json {
    match v {
        serde_json::Value::String(s) => Json::Str(s),
        serde_json::Value::Array(a) => Json::Array(a.into_iter().map(json_of_value).collect()),
        serde_json::Value::Object(m) => Json::Object(
            m.into_iter().map(|(k, x)| (k, json_of_value(x))).collect(),
        ),
        _ => Json::Scalar,
    }
}

/// The value of the first of `members` named `key`.
pub open spec fn member_of(members: Seq<(String, Json)>, key: Seq<char>) -> Option<Json>
    decreases members.len(),
{
    if members.len() == 0 {
        None
    } else if members[0].0@ == key {
        Some(members[0].1)
    } else {
        member_of(members.drop_first(), key)
    }
}

/// The member `key` of an object; `None` for a missing member or a non-object.
pub open spec fn field(v: Json, key: Seq<char>) -> Option<Json> {
    match v {
        Json::Object(members) => member_of(members@, key),
        _ => None,
    }
}

/// The member `key` of `v`, as `serde_json::Value::get` finds it.
pub fn get_field<'a>(v: &'a Json, key: &str) -> (r: Option<&'a Json>)
    ensures
        match r {
            Some(x) => field(*v, key@) == Some(*x),
            None => field(*v, key@) is None,
        },
{
    match v {
        Json::Object(members) => {
            let mut i: usize = 0;
            assert(members@.subrange(0, members@.len() as int) =~= members@);
            while i < members.len()
                invariant
                    i <= members.len(),
                    field(*v, key@) == member_of(members@, key@),
                    member_of(members@, key@) == member_of(
                        members@.subrange(i as int, members@.len() as int),
                        key@,
                    ),
                decreases members.len() - i,
            {
                let ghost rest = members@.subrange(i as int, members@.len() as int);
                assert(rest[0] == members@[i as int]);
                if compare_text(members[i].0.as_str(), key) == 0 {
                    assert(rest[0].0@ == key@);
                    assert(member_of(rest, key@) == Some(rest[0].1));
                    let x = &members[i].1;
                    assert(*x == rest[0].1);
                    return Some(x);
                }
                assert(rest.drop_first() =~= members@.subrange(i + 1, members@.len() as int));
                i = i + 1;
            }
            None
        },
        _ => None,
    }
}

} // verus!
