//! Parsed JSON, as far as replies of a bridge are read.
use vstd::prelude::*;

use crate::core_types::same_text;
use crate::double::Double;

verus! {

/// A number: what it is as a signed, as an unsigned and as a floating-point one, where it fits.
#[derive(Debug, Clone, Copy)]
pub struct JsonNumber {
    pub signed: Option<i64>,
    pub unsigned: Option<u64>,
    pub float: Option<Double>,
}

/// What a JSON value is.
#[derive(Debug)]
pub enum JsonValue {
    Null,
    Bool(bool),
    Number(JsonNumber),
    Text(String),
    List(Vec<Json>),
    Object(Vec<(String, Json)>),
}

/// A JSON value and its compact text.
#[derive(Debug)]
pub struct Json {
    pub text: String,
    pub value: JsonValue,
}

/// The value under a key, the first where there are several.
pub open spec fn find_member(members: Seq<(String, Json)>, key: Seq<char>) -> Option<Json>
    decreases members.len(),
{
    if members.len() == 0 {
        None
    } else if members[0].0@ == key {
        Some(members[0].1)
    } else {
        find_member(members.skip(1), key)
    }
}

impl Json {
    /// The value under a key of an object.
    pub open spec fn member(self, key: Seq<char>) -> Option<Json> {
        match self.value {
            JsonValue::Object(m) => find_member(m@, key),
            _ => None,
        }
    }

    /// The value under a key of the object under a key.
    pub open spec fn member_of(self, outer: Seq<char>, inner: Seq<char>) -> Option<Json> {
        match self.member(outer) {
            Some(j) => j.member(inner),
            None => None,
        }
    }

    /// The items of a list; none for anything else.
    pub open spec fn items(self) -> Seq<Json> {
        match self.value {
            JsonValue::List(v) => v@,
            _ => Seq::empty(),
        }
    }

    pub open spec fn string(self) -> Option<Seq<char>> {
        match self.value {
            JsonValue::Text(s) => Some(s@),
            _ => None,
        }
    }

    /// The value under a key of an object.
    pub fn get(&self, key: &str) -> (r: Option<&Json>)
        ensures
            r is Some == self.member(key@) is Some,
            r matches Some(j) ==> Some(*j) == self.member(key@),
    {
        match &self.value {
            JsonValue::Object(m) => {
                let mut i: usize = 0;
                assert(m@.skip(0) =~= m@);
                while i < m.len()
                    invariant
                        i <= m@.len(),
                        self.member(key@) == find_member(m@.skip(i as int), key@),
                    decreases m@.len() - i,
                {
                    if same_text(m[i].0.as_str(), key) {
                        return Some(&m[i].1);
                    }
                    assert(m@.skip(i as int).skip(1) =~= m@.skip(i + 1));
                    i = i + 1;
                }
                None
            },
            _ => None,
        }
    }

    /// The value under a key of the object under a key.
    pub fn get_in(&self, outer: &str, inner: &str) -> (r: Option<&Json>)
        ensures
            r is Some == self.member_of(outer@, inner@) is Some,
            r matches Some(j) ==> Some(*j) == self.member_of(outer@, inner@),
    {
        match self.get(outer) {
            Some(j) => j.get(inner),
            None => None,
        }
    }

    /// The items of a list.
    pub fn as_list(&self) -> (r: Option<&Vec<Json>>)
        ensures
            r is Some == self.value is List,
            r matches Some(v) ==> v@ == self.items(),
            r is None ==> self.items().len() == 0,
    {
        match &self.value {
            JsonValue::List(v) => Some(v),
            _ => None,
        }
    }

    pub fn as_text(&self) -> (r: Option<&str>)
        ensures
            r is Some == self.string() is Some,
            r matches Some(s) ==> Some(s@) == self.string(),
    {
        match &self.value {
            JsonValue::Text(s) => Some(s.as_str()),
            _ => None,
        }
    }
}

/// The text of a value that may be missing, or a stand-in.
pub open spec fn text_or(j: Option<Json>, other: Seq<char>) -> Seq<char> {
    match j {
        Some(v) => match v.string() {
            Some(s) => s,
            None => other,
        },
        None => other,
    }
}

/// The truth of a value that may be missing; false where it is none.
pub open spec fn is_true(j: Option<Json>) -> bool {
    match j {
        Some(v) => v.value == JsonValue::Bool(true),
        None => false,
    }
}

/// A number that may be missing as a signed one, or 0.
pub open spec fn signed_or_zero(j: Option<Json>) -> i64 {
    match j {
        Some(v) => match v.value {
            JsonValue::Number(n) => match n.signed {
                Some(x) => x,
                None => 0,
            },
            _ => 0,
        },
        None => 0,
    }
}

/// A number that may be missing as an unsigned one, or 0.
pub open spec fn unsigned_or_zero(j: Option<Json>) -> u64 {
    match j {
        Some(v) => match v.value {
            JsonValue::Number(n) => match n.unsigned {
                Some(x) => x,
                None => 0,
            },
            _ => 0,
        },
        None => 0,
    }
}

/// A number that may be missing as a floating-point one, or 0.
pub open spec fn float_or_zero(j: Option<Json>) -> Double {
    match j {
        Some(v) => match v.value {
            JsonValue::Number(n) => match n.float {
                Some(x) => x,
                None => Double::of_whole(0),
            },
            _ => Double::of_whole(0),
        },
        None => Double::of_whole(0),
    }
}

/// What a reference that may be missing refers to.
pub open spec fn pointed(j: Option<&Json>) -> Option<Json> {
    match j {
        Some(v) => Some(*v),
        None => None,
    }
}

pub(crate) fn read_text(j: Option<&Json>, other: &str) -> (s: String)
    ensures
        s@ == text_or(pointed(j), other@),
{
    match j {
        Some(v) => match v.as_text() {
            Some(s) => s.to_owned(),
            None => other.to_owned(),
        },
        None => other.to_owned(),
    }
}

pub(crate) fn read_truth(j: Option<&Json>) -> (b: bool)
    ensures
        b == is_true(pointed(j)),
{
    match j {
        Some(v) => match v.value {
            JsonValue::Bool(b) => b,
            _ => false,
        },
        None => false,
    }
}

pub(crate) fn read_signed(j: Option<&Json>) -> (x: i64)
    ensures
        x == signed_or_zero(pointed(j)),
{
    match j {
        Some(v) => match &v.value {
            JsonValue::Number(n) => match n.signed {
                Some(x) => x,
                None => 0,
            },
            _ => 0,
        },
        None => 0,
    }
}

pub(crate) fn read_unsigned(j: Option<&Json>) -> (x: u64)
    ensures
        x == unsigned_or_zero(pointed(j)),
{
    match j {
        Some(v) => match &v.value {
            JsonValue::Number(n) => match n.unsigned {
                Some(x) => x,
                None => 0,
            },
            _ => 0,
        },
        None => 0,
    }
}

pub(crate) fn read_float(j: Option<&Json>) -> (x: Double)
    ensures
        x == float_or_zero(pointed(j)),
{
    match j {
        Some(v) => match &v.value {
            JsonValue::Number(n) => match n.float {
                Some(x) => x,
                None => Double::from_whole(0),
            },
            _ => Double::from_whole(0),
        },
        None => Double::from_whole(0),
    }
}

} // verus!
