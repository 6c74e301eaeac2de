use vstd::prelude::*;

verus! {

/// A JSON value as the transcript logic reads it.
///
/// Objects keep their members in order; a number carries its value when it is a
/// non-negative integer that fits in `u64` (the only numbers the logic reads).
#[derive(Debug)]
pub enum Json {
    Null,
    Bool(bool),
    Number(Option<u64>),
    Str(String),
    Array(Vec<Json>),
    Object(Vec<(String, Json)>),
}

/// Whether two strings hold the same characters.
pub fn str_eq(a: &str, b: &str) -> (r: bool)
    ensures
        r == (a@ == b@),
{
    let x = a.to_owned();
    let y = b.to_owned();
    x == y
}

/// The value of the first member named `key` of an object's members.
pub open spec fn find_member(members: Seq<(String, Json)>, key: Seq<char>) -> Option<Json>
    decreases members.len(),
{
    if members.len() == 0 {
        None
    } else if members[0].0@ == key {
        Some(members[0].1)
    } else {
        find_member(members.drop_first(), key)
    }
}

/// `v[key]` when `v` is an object with a member `key`.
pub open spec fn json_get(v: Json, key: Seq<char>) -> Option<Json> {
    match v {
        Json::Object(members) => find_member(members@, key),
        _ => None,
    }
}

/// The characters of `v` when it is a string.
pub open spec fn json_as_str(v: Option<Json>) -> Option<Seq<char>> {
    match v {
        Some(Json::Str(s)) => Some(s@),
        _ => None,
    }
}

/// The string member `key` of `v`, if there is one.
pub open spec fn str_member(v: Json, key: Seq<char>) -> Option<Seq<char>> {
    json_as_str(json_get(v, key))
}

/// The string member `key` of `v`, or the empty string.
pub open spec fn str_member_or_empty(v: Json, key: Seq<char>) -> Seq<char> {
    match str_member(v, key) {
        Some(s) => s,
        None => Seq::empty(),
    }
}

impl Json {
    /// The member `key` of an object; `None` for other values or a missing member.
    pub fn get(&self, key: &str) -> (r: Option<&Json>)
        ensures
            match r {
                Some(x) => json_get(*self, key@) == Some(*x),
                None => json_get(*self, key@) is None,
            },
    {
        match self {
            Json::Object(members) => {
                let mut i: usize = 0;
                assert(members@.skip(0) =~= members@);
                while i < members.len()
                    invariant
                        json_get(*self, key@) == find_member(members@, key@),
                        i <= members@.len(),
                        find_member(members@, key@) == find_member(members@.skip(i as int), key@),
                    decreases members@.len() - i,
                {
                    assert(members@.skip(i as int).drop_first() =~= members@.skip(i + 1));
                    assert(members@.skip(i as int)[0] == members@[i as int]);
                    if str_eq(members[i].0.as_str(), key) {
                        assert(find_member(members@.skip(i as int), key@) == Some(members@[i as int].1));
                        return Some(&members[i].1);
                    }
                    i = i + 1;
                }
                None
            },
            _ => None,
        }
    }

    /// The characters of a string value.
    pub fn as_str(&self) -> (r: Option<&str>)
        ensures
            match r {
                Some(s) => json_as_str(Some(*self)) == Some(s@),
                None => json_as_str(Some(*self)) is None,
            },
    {
        match self {
            Json::Str(s) => Some(s.as_str()),
            _ => None,
        }
    }

    /// The elements of an array value.
    pub fn as_array(&self) -> (r: Option<&Vec<Json>>)
        ensures
            match r {
                Some(a) => *self == Json::Array(*a),
                None => !(*self is Array),
            },
    {
        match self {
            Json::Array(a) => Some(a),
            _ => None,
        }
    }

    /// The string member `key`, if there is one.
    pub fn str_member(&self, key: &str) -> (r: Option<&str>)
        ensures
            match r {
                Some(s) => str_member(*self, key@) == Some(s@),
                None => str_member(*self, key@) is None,
            },
    {
        match self.get(key) {
            Some(v) => v.as_str(),
            None => None,
        }
    }
}

// ── Reading JSON text ───────────────────────────────────────────

#[verifier::external_type_specification]
#[verifier::external_body]
pub struct ExJsonValue(serde_json::Value);

/// The JSON value that `serde_json::from_str` reads from `text`, in the library's form
/// (see `json_of_value`); `None` where `text` is not one JSON value.
pub uninterp spec fn parsed_json(text: Seq<char>) -> Option<Json>;

/// A `serde_json` value in the library's form, variant by variant: each array element
/// and object member in the order the value holds them, and a number as `u64` where it
/// is a non-negative integer that fits (`serde_json::Number::as_u64`). Nothing is
/// claimed of it on its own: it serves `parse_json`, whose contract names the result.
#[verifier::external_body]
fn json_of_value(v: &serde_json::Value) -> (r: Json) {
    match v {
        serde_json::Value::Null => Json::Null,
        serde_json::Value::Bool(b) => Json::Bool(*b),
        serde_json::Value::Number(n) => Json::Number(n.as_u64()),
        serde_json::Value::String(s) => Json::Str(s.clone()),
        serde_json::Value::Array(a) => Json::Array(a.iter().map(json_of_value).collect()),
        serde_json::Value::Object(m) => Json::Object(m.iter().map(|(k, x)| (k.clone(), json_of_value(x))).collect()),
    }
}

/// Calls `serde_json::from_str` for a `serde_json::Value` and converts the value; the
/// result is stated only as the named value `parsed_json(text)`, which depends on the
/// text alone.
#[verifier::external_body]
pub(crate) fn parse_json(text: &str) -> (r: Option<Json>)
    ensures
        r == parsed_json(text@),
{
    serde_json::from_str::<serde_json::Value>(text).ok().map(|v| json_of_value(&v))
}

} // verus!
