//! JSON values, read by the `serde_json` crate.
use crate::text::same_text;
use serde_json::Value;
use vstd::prelude::*;

verus! {

/// A JSON number, in the form in which it was read.
#[derive(Debug, Clone, Copy)]
pub enum JsonNumber {
    Unsigned(u64),
    Negative(i64),
    /// The bits of a double-precision number.
    Double(u64),
}

/// A JSON value.
#[derive(Debug)]
pub enum Json {
    Null,
    Bool(bool),
    Number(JsonNumber),
    Text(String),
    List(Vec<Json>),
    Object(Vec<(String, Json)>),
}

/// `serde_json::Value`, carried from the parser to its conversion.
#[verifier::external_type_specification]
#[verifier::external_body]
pub struct ExValue(serde_json::Value);

/// What `serde_json::from_str` reads from a text: a value, or the message of the error.
pub uninterp spec fn parsed_json(text: Seq<char>) -> Result<Json, Seq<char>>;

/// `serde_json::from_str` into a `Value`, which is then taken over variant by
/// variant. Claimed: the value and the error message are functions of the text alone.
#[verifier::external_body]
pub(crate) fn parse_json(text: &str) -> (r: Result<Json, String>)
    ensures
        match r {
            Ok(value) => parsed_json(text@) == Ok::<Json, Seq<char>>(value),
            Err(message) => parsed_json(text@) == Err::<Json, Seq<char>>(message@),
        },
{
    match serde_json::from_str(text) {
        Ok(value) => Ok(plain_value(value)),
        Err(error) => Err(error.to_string()),
    }
}

/// What `serde_json::from_slice` reads from bytes that hold a list: its items, or the
/// message of the error.
pub uninterp spec fn parsed_list(bytes: Seq<u8>) -> Result<Seq<Json>, Seq<char>>;

/// `serde_json::from_slice` into a `Vec<Value>`, whose items are then taken over
/// variant by variant. Claimed: the items and the error message are functions of the
/// bytes alone.
#[verifier::external_body]
pub(crate) fn parse_json_list(bytes: &[u8]) -> (r: Result<Vec<Json>, String>)
    ensures
        match r {
            Ok(items) => parsed_list(bytes@) == Ok::<Seq<Json>, Seq<char>>(items@),
            Err(message) => parsed_list(bytes@) == Err::<Seq<Json>, Seq<char>>(message@),
        },
{
    match serde_json::from_slice::<Vec<Value>>(bytes) {
        Ok(items) => Ok(items.into_iter().map(plain_value).collect()),
        Err(error) => Err(error.to_string()),
    }
}

/// Counts the items of a list, or says why the bytes hold none.
pub fn count_list(bytes: &[u8]) -> (r: Result<usize, String>)
    ensures
        match r {
            Ok(count) => parsed_list(bytes@) matches Ok(items) && count == items.len(),
            Err(message) => parsed_list(bytes@) == Err::<Seq<Json>, Seq<char>>(message@),
        },
{
    match parse_json_list(bytes) {
        Ok(items) => Ok(items.len()),
        Err(message) => Err(message),
    }
}

/// Takes a `serde_json::Value` over, one variant for one; a number keeps the
/// form that `as_u64`, `as_i64` and `as_f64` show. Nothing is claimed of it:
/// only `parse_json` and `parse_json_list` call it.
#[verifier::external_body]
fn plain_value(value: Value) -> (r: Json) {
    match value {
        Value::Null => Json::Null,
        Value::Bool(b) => Json::Bool(b),
        Value::Number(n) => match (n.as_u64(), n.as_i64()) {
            (Some(u), _) => Json::Number(JsonNumber::Unsigned(u)),
            (None, Some(i)) => Json::Number(JsonNumber::Negative(i)),
            _ => Json::Number(JsonNumber::Double(n.as_f64().unwrap_or_default().to_bits())),
        },
        Value::String(s) => Json::Text(s),
        Value::Array(a) => Json::List(a.into_iter().map(plain_value).collect()),
        Value::Object(o) =>
            Json::Object(o.into_iter().map(|(k, v)| (k, plain_value(v))).collect()),
    }
}

/// The first member of an object that has a name.
pub open spec fn member(members: Seq<(String, Json)>, name: Seq<char>) -> Option<Json>
    decreases members.len(),
{
    if members.len() == 0 {
        None
    } else {
        match member(members.drop_last(), name) {
            Some(value) => Some(value),
            None => if members.last().0@ == name {
                Some(members.last().1)
            } else {
                None
            },
        }
    }
}

/// The member of a value that has a name; only objects have members.
pub open spec fn json_member(value: Json, name: Seq<char>) -> Option<Json> {
    match value {
        Json::Object(members) => member(members@, name),
        _ => None,
    }
}

/// The text of a value; only texts have one.
pub open spec fn json_text(value: Json) -> Option<Seq<char>> {
    match value {
        Json::Text(text) => Some(text@),
        _ => None,
    }
}

/// The first step of a path: the member `0` of an object or the first item of a list.
pub open spec fn json_first(value: Json) -> Option<Json> {
    match value {
        Json::Object(members) => member(members@, "0"@),
        Json::List(items) => if items@.len() > 0 {
            Some(items@[0])
        } else {
            None
        },
        _ => None,
    }
}

proof fn lemma_member_persists(members: Seq<(String, Json)>, name: Seq<char>, n: int)
    requires
        0 <= n <= members.len(),
    ensures
        member(members.take(n), name) is Some ==> member(members, name) == member(
            members.take(n),
            name,
        ),
    decreases members.len(),
{
    if n < members.len() {
        lemma_member_persists(members.drop_last(), name, n);
        assert(members.drop_last().take(n) =~= members.take(n));
    } else {
        assert(members.take(n) =~= members);
    }
}

/// Where the first member that has a name stands, or behind all of them.
fn member_place(members: &Vec<(String, Json)>, name: &str) -> (r: usize)
    ensures
        r <= members@.len(),
        r < members@.len() ==> member(members@, name@) == Some(members@[r as int].1),
        r == members@.len() ==> member(members@, name@) is None,
{
    let mut i: usize = 0;
    proof {
        assert(members@.take(0) =~= Seq::empty());
    }
    while i < members.len()
        invariant
            i <= members@.len(),
            member(members@.take(i as int), name@) is None,
        decreases members.len() - i,
    {
        proof {
            assert(members@.take(i + 1).drop_last() =~= members@.take(i as int));
        }
        if same_text(members[i].0.as_str(), name) {
            proof {
                lemma_member_persists(members@, name@, i + 1);
            }
            return i;
        }
        i = i + 1;
    }
    proof {
        assert(members@.take(i as int) =~= members@);
    }
    i
}

impl Json {
    /// The member that has a name.
    pub fn get(&self, name: &str) -> (r: Option<&Json>)
        ensures
            match r {
                Some(value) => json_member(*self, name@) == Some(*value),
                None => json_member(*self, name@) is None,
            },
    {
        match self {
            Json::Object(members) => {
                let place: usize = member_place(members, name);
                if place < members.len() {
                    Some(&members[place].1)
                } else {
                    None
                }
            },
            _ => None,
        }
    }

    /// The member that has a name, taken out of the value.
    pub fn into_member(self, name: &str) -> (r: Option<Json>)
        ensures
            r == json_member(self, name@),
    {
        match self {
            Json::Object(members) => {
                let mut members: Vec<(String, Json)> = members;
                let place: usize = member_place(&members, name);
                if place < members.len() {
                    let (_, value) = members.swap_remove(place);
                    Some(value)
                } else {
                    None
                }
            },
            _ => None,
        }
    }

    /// The text.
    pub fn as_str(&self) -> (r: Option<&str>)
        ensures
            match r {
                Some(text) => json_text(*self) == Some(text@),
                None => json_text(*self) is None,
            },
    {
        match self {
            Json::Text(text) => Some(text.as_str()),
            _ => None,
        }
    }

    /// The member `0` of an object or the first item of a list, taken out of the value.
    pub fn into_first(self) -> (r: Option<Json>)
        ensures
            r == json_first(self),
    {
        match self {
            Json::List(items) => {
                let mut items: Vec<Json> = items;
                if items.len() > 0 {
                    Some(items.swap_remove(0))
                } else {
                    None
                }
            },
            other => other.into_member("0"),
        }
    }
}

} // verus!
