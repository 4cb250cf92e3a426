//! The JSON payloads of the wire protocol, as `serde_json` holds them.
//!
//! A `serde_json::Value` is opaque to the verifier: nothing in this crate is
//! proved of what is inside one. What the library reads from a value is named
//! here by a function of the value, and each accessor of `serde_json` is taken
//! to return what its name says. The contracts of the library speak of
//! payloads through these names only.

use serde_json::Value;
use vstd::prelude::*;

verus! {

/// `serde_json::Value`, carried through the library without a look inside.
#[verifier::external_type_specification]
#[verifier::external_body]
pub struct ExValue(serde_json::Value);

/// The value that `v[key]` denotes: the member of the object `v` under `key`,
/// and null where `v` is no object or has no such member.
pub uninterp spec fn value_member(v: Value, key: Seq<char>) -> Value;

/// The string that `v` is, if it is one.
pub uninterp spec fn value_str(v: Value) -> Option<Seq<char>>;

/// The elements of `v`, if it is an array.
pub uninterp spec fn value_array(v: Value) -> Option<Seq<Value>>;

/// The number that `v` is, if it is an integer that a `u64` holds.
pub uninterp spec fn value_u64(v: Value) -> Option<u64>;

/// The number that `v` is, if it is an integer that an `i64` holds.
pub uninterp spec fn value_i64(v: Value) -> Option<i64>;

/// `serde_json::Value::as_u64` returns the number of a value that holds an
/// integer from zero up, and `None` for every other value. Taken on trust:
/// the result depends on the value alone.
pub assume_specification[ serde_json::Value::as_u64 ](v: &Value) -> (r: Option<u64>)
    ensures
        r == value_u64(*v),
;

/// `serde_json::Value::as_i64` returns the number of a value that holds an
/// integer in the range of `i64`, and `None` for every other value. Taken on
/// trust: the result depends on the value alone.
pub assume_specification[ serde_json::Value::as_i64 ](v: &Value) -> (r: Option<i64>)
    ensures
        r == value_i64(*v),
;

/// `serde_json::Value::as_str` returns the string slice inside a string value,
/// and `None` for every other value. Taken on trust: the text of the slice
/// depends on the value alone.
pub assume_specification<'a>[ serde_json::Value::as_str ](v: &'a Value) -> (r: Option<&'a str>)
    ensures
        r matches Some(s) ==> value_str(*v) == Some(s@),
        r is None ==> value_str(*v) is None,
;

/// `serde_json::Value::as_array` returns the vector inside an array value, and
/// `None` for every other value. Taken on trust: the elements of the vector
/// depend on the value alone.
pub assume_specification<'a>[ serde_json::Value::as_array ](v: &'a Value) -> (r: Option<
    &'a Vec<Value>,
>)
    ensures
        r matches Some(a) ==> value_array(*v) == Some(a@),
        r is None ==> value_array(*v) is None,
;

/// Indexing a value by a string key, `v[key]`, through the `Index` impl of
/// `serde_json::Value`. For a string key it never panics: it yields the member
/// of an object, and a null value where `v` is no object or lacks the key.
/// Taken on trust: the value that it yields depends on `v` and `key` alone.
#[verifier::external_body]
pub(crate) fn member<'a>(v: &'a Value, key: &str) -> (r: &'a Value)
    ensures
        *r == value_member(*v, key@),
{
    &v[key]
}

} // verus!
