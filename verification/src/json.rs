//! A JSON value as the library reads it: the shape of the document plus, at
//! every node, the node's compact JSON text (what `serde_json` prints for it),
//! which the library quotes in log lines and errors.

use vstd::prelude::*;

verus! {

pub enum JsonValue {
    Null,
    Bool(bool),
    /// A number; `Some` when it is a non-negative integer that fits in `u64`.
    Number(Option<u64>),
    Str(String),
    Array(Vec<Json>),
    /// Members in document order; keys are distinct.
    Object(Vec<(String, Json)>),
}

pub struct Json {
    pub value: JsonValue,
    /// Compact JSON text of this node.
    pub text: String,
}

/// The member named `key` (the first one, should keys repeat).
pub open spec fn lookup(entries: Seq<(String, Json)>, key: Seq<char>) -> Option<Json>
    decreases entries.len(),
{
    if entries.len() == 0 {
        None
    } else if entries[0].0@ == key {
        Some(entries[0].1)
    } else {
        lookup(entries.drop_first(), key)
    }
}

/// `value.get(key)` of serde_json: a member of an object, `None` otherwise.
pub open spec fn json_get(j: Json, key: Seq<char>) -> Option<Json> {
    match j.value {
        JsonValue::Object(entries) => lookup(entries@, key),
        _ => None,
    }
}

pub open spec fn json_str(j: Json) -> Option<Seq<char>> {
    match j.value {
        JsonValue::Str(s) => Some(s@),
        _ => None,
    }
}

pub open spec fn json_u64(j: Json) -> Option<u64> {
    match j.value {
        JsonValue::Number(n) => n,
        _ => None,
    }
}

pub open spec fn json_bool(j: Json) -> Option<bool> {
    match j.value {
        JsonValue::Bool(b) => Some(b),
        _ => None,
    }
}

pub open spec fn json_array(j: Json) -> Option<Seq<Json>> {
    match j.value {
        JsonValue::Array(a) => Some(a@),
        _ => None,
    }
}

pub open spec fn json_is_null(j: Json) -> bool {
    j.value is Null
}

pub open spec fn json_is_number(j: Json) -> bool {
    j.value is Number
}

fn str_eq(a: &String, b: &str) -> (r: bool)
    ensures
        r == (a@ == b@),
{
    let ac = crate::text::chars_of(a.as_str());
    let bc = crate::text::chars_of(b);
    if ac.len() != bc.len() {
        return false;
    }
    let r = crate::text::has_prefix(ac.as_slice(), bc.as_slice());
    assert(ac@ =~= ac@.take(bc@.len() as int));
    r
}

impl Json {
    pub fn get(&self, key: &str) -> (r: Option<&Json>)
        ensures
            r matches Some(v) ==> json_get(*self, key@) == Some(*v),
            r is None ==> json_get(*self, key@) is None,
    {
        match &self.value {
            JsonValue::Object(entries) => {
                let mut i: usize = 0;
                assert(entries@.skip(0) =~= entries@);
                while i < entries.len()
                    invariant
                        i <= entries@.len(),
                        json_get(*self, key@) == lookup(entries@, key@),
                        lookup(entries@, key@) == lookup(entries@.skip(i as int), key@),
                    decreases entries@.len() - i,
                {
                    assert(entries@.skip(i as int).drop_first() =~= entries@.skip(i + 1));
                    assert(entries@.skip(i as int)[0] == entries@[i as int]);
                    if str_eq(&entries[i].0, key) {
                        assert(lookup(entries@.skip(i as int), key@) == Some(entries@[i as int].1));
                        let r = &entries[i].1;
                        assert(*r == entries@[i as int].1);
                        return Some(r);
                    }
                    i = i + 1;
                }
                None
            },
            _ => None,
        }
    }

    pub fn as_str(&self) -> (r: Option<&String>)
        ensures
            r matches Some(s) ==> json_str(*self) == Some(s@),
            r is None ==> json_str(*self) is None,
    {
        match &self.value {
            JsonValue::Str(s) => Some(s),
            _ => None,
        }
    }

    pub fn as_u64(&self) -> (r: Option<u64>)
        ensures
            r == json_u64(*self),
    {
        match &self.value {
            JsonValue::Number(n) => *n,
            _ => None,
        }
    }

    pub fn as_bool(&self) -> (r: Option<bool>)
        ensures
            r == json_bool(*self),
    {
        match &self.value {
            JsonValue::Bool(b) => Some(*b),
            _ => None,
        }
    }

    pub fn as_array(&self) -> (r: Option<&Vec<Json>>)
        ensures
            r matches Some(a) ==> json_array(*self) == Some(a@),
            r is None ==> json_array(*self) is None,
    {
        match &self.value {
            JsonValue::Array(a) => Some(a),
            _ => None,
        }
    }

    pub fn is_null(&self) -> (r: bool)
        ensures
            r == json_is_null(*self),
    {
        match &self.value {
            JsonValue::Null => true,
            _ => false,
        }
    }

    pub fn is_number(&self) -> (r: bool)
        ensures
            r == json_is_number(*self),
    {
        match &self.value {
            JsonValue::Number(_) => true,
            _ => false,
        }
    }
}

} // verus!
