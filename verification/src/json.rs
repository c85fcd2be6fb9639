//! A JSON value, as the formatters read it: objects are looked up by key,
//! and strings, unsigned integers, booleans and arrays are read out.
use crate::text::{chars_eq, chars_of};
use vstd::prelude::*;

verus! {

/// A JSON number, by the representation it was read into.
#[derive(Debug, Clone, Copy, PartialEq, Eq, Structural)]
pub enum JsonNumber {
    /// A non-negative integer.
    PosInt(u64),
    /// A negative integer.
    NegInt(i64),
    /// A number with a fraction or an exponent (its value is not read here).
    Float,
}

/// A JSON value. An object keeps its entries in order; looking a key up
/// finds its first entry.
pub enum JsonValue {
    Null,
    Bool(bool),
    Number(JsonNumber),
    String(String),
    Array(Vec<JsonValue>),
    Object(Vec<(String, JsonValue)>),
}

/// The index of the first entry of `entries` whose key is `key`, looking at
/// the first `i` entries.
pub open spec fn first_key_index(entries: Seq<(String, JsonValue)>, key: Seq<char>, i: int) -> Option<
    int,
>
    decreases i,
{
    if i <= 0 {
        None
    } else {
        match first_key_index(entries, key, i - 1) {
            Some(j) => Some(j),
            None => if entries[i - 1].0@ == key {
                Some(i - 1)
            } else {
                None
            },
        }
    }
}

/// Once found, the first entry stays found as more entries are looked at.
proof fn lemma_first_key_stable(entries: Seq<(String, JsonValue)>, key: Seq<char>, i: int, j: int)
    requires
        0 <= i <= j,
        first_key_index(entries, key, i) is Some,
    ensures
        first_key_index(entries, key, j) == first_key_index(entries, key, i),
    decreases j - i,
{
    if j > i {
        lemma_first_key_stable(entries, key, i, j - 1);
    }
}

/// The value under `key` in `v`, if `v` is an object with such an entry.
pub open spec fn spec_get(v: JsonValue, key: Seq<char>) -> Option<JsonValue> {
    match v {
        JsonValue::Object(entries) => match first_key_index(entries@, key, entries@.len() as int) {
            Some(j) => Some(entries@[j].1),
            None => None,
        },
        _ => None,
    }
}

/// The text of `v`, if it is a string.
pub open spec fn spec_as_str(v: JsonValue) -> Option<Seq<char>> {
    match v {
        JsonValue::String(s) => Some(s@),
        _ => None,
    }
}

/// The value of `v`, if it is a non-negative integer.
pub open spec fn spec_as_u64(v: JsonValue) -> Option<u64> {
    match v {
        JsonValue::Number(JsonNumber::PosInt(n)) => Some(n),
        _ => None,
    }
}

/// The value of `v`, if it is a boolean.
pub open spec fn spec_as_bool(v: JsonValue) -> Option<bool> {
    match v {
        JsonValue::Bool(b) => Some(b),
        _ => None,
    }
}

/// The elements of `v`, if it is an array.
pub open spec fn spec_as_array(v: JsonValue) -> Option<Seq<JsonValue>> {
    match v {
        JsonValue::Array(items) => Some(items@),
        _ => None,
    }
}

/// `get` then `as_str`.
pub open spec fn get_str(v: JsonValue, key: Seq<char>) -> Option<Seq<char>> {
    match spec_get(v, key) {
        Some(x) => spec_as_str(x),
        None => None,
    }
}

/// `get` then `as_array`.
pub open spec fn get_array(v: JsonValue, key: Seq<char>) -> Option<Seq<JsonValue>> {
    match spec_get(v, key) {
        Some(x) => spec_as_array(x),
        None => None,
    }
}

impl JsonValue {
    /// The value under `key`, if this is an object with such an entry.
    pub fn get(&self, key: &str) -> (r: Option<&JsonValue>)
        ensures
            match r {
                Some(x) => spec_get(*self, key@) == Some(*x),
                None => spec_get(*self, key@) is None,
            },
    {
        match self {
            JsonValue::Object(entries) => {
                let k = chars_of(key);
                let mut i: usize = 0;
                while i < entries.len()
                    invariant
                        i <= entries@.len(),
                        *self == JsonValue::Object(*entries),
                        k@ == key@,
                        first_key_index(entries@, key@, i as int) is None,
                    decreases entries.len() - i,
                {
                    let name = chars_of(entries[i].0.as_str());
                    if chars_eq(name.as_slice(), k.as_slice()) {
                        proof {
                            assert(entries@[i as int].0@ == key@);
                            assert(first_key_index(entries@, key@, i as int + 1) == Some(i as int));
                            lemma_first_key_stable(
                                entries@,
                                key@,
                                i as int + 1,
                                entries@.len() as int,
                            );
                            assert(*self == JsonValue::Object(*entries));
                            assert(first_key_index(entries@, key@, entries@.len() as int) == Some(
                                i as int,
                            ));
                            assert(spec_get(*self, key@) == Some(entries@[i as int].1));
                        }
                        let found = &entries[i].1;
                        assert(*found == entries@[i as int].1);
                        return Some(found);
                    }
                    i = i + 1;
                }
                None
            },
            _ => None,
        }
    }

    /// The text, if this is a string.
    pub fn as_str(&self) -> (r: Option<&str>)
        ensures
            match r {
                Some(s) => spec_as_str(*self) == Some(s@),
                None => spec_as_str(*self) is None,
            },
    {
        match self {
            JsonValue::String(s) => Some(s.as_str()),
            _ => None,
        }
    }

    /// The value, if this is a non-negative integer.
    pub fn as_u64(&self) -> (r: Option<u64>)
        ensures
            r == spec_as_u64(*self),
    {
        match self {
            JsonValue::Number(JsonNumber::PosInt(n)) => Some(*n),
            _ => None,
        }
    }

    /// The value, if this is a boolean.
    pub fn as_bool(&self) -> (r: Option<bool>)
        ensures
            r == spec_as_bool(*self),
    {
        match self {
            JsonValue::Bool(b) => Some(*b),
            _ => None,
        }
    }

    /// The elements, if this is an array.
    pub fn as_array(&self) -> (r: Option<&Vec<JsonValue>>)
        ensures
            match r {
                Some(items) => spec_as_array(*self) == Some(items@),
                None => spec_as_array(*self) is None,
            },
    {
        match self {
            JsonValue::Array(items) => Some(items),
            _ => None,
        }
    }
}

} // verus!
