//! The trusted boundary to the structured-value type: dynamic type tests,
//! scalar extraction, dotted-path lookup and the numeric coercion order.

use vstd::prelude::*;
use core::cmp::Ordering;
use json_dotpath::DotPaths;
use crate::model::{int3, numeric_key, resolve, SpecVal};

verus! {

#[verifier::external_type_specification]
#[verifier::external_body]
pub struct ExValue(serde_json::Value);

/// The abstract content of a structured value; every trusted item below
/// states its result over this view.
pub uninterp spec fn val_view(v: serde_json::Value) -> SpecVal;

/// Relies on `serde_json::Value::is_null`: true exactly of the null value.
pub assume_specification[ serde_json::Value::is_null ](v: &serde_json::Value) -> (r: bool)
    ensures
        r == (val_view(*v) is Null),
;

/// Relies on `serde_json::Value::is_string`: true exactly of strings.
pub assume_specification[ serde_json::Value::is_string ](v: &serde_json::Value) -> (r: bool)
    ensures
        r == (val_view(*v) is Str),
;

/// Relies on `serde_json::Value::is_number`: true exactly of numbers.
pub assume_specification[ serde_json::Value::is_number ](v: &serde_json::Value) -> (r: bool)
    ensures
        r == val_view(*v).is_number(),
;

/// Relies on `serde_json::Value::is_i64`: true exactly of numbers with an
/// exact signed 64-bit representation.
pub assume_specification[ serde_json::Value::is_i64 ](v: &serde_json::Value) -> (r: bool)
    ensures
        r == (val_view(*v) is Int),
;

/// Relies on `serde_json::Value::is_f64`: true exactly of numbers stored in
/// floating point.
pub assume_specification[ serde_json::Value::is_f64 ](v: &serde_json::Value) -> (r: bool)
    ensures
        r == (val_view(*v) is Float),
;

/// Relies on `serde_json::Value::as_i64`: the exact integer of a number in
/// signed 64-bit range, and nothing else.
pub assume_specification[ serde_json::Value::as_i64 ](v: &serde_json::Value) -> (r: Option<i64>)
    ensures
        (r is Some) == (val_view(*v) is Int),
        r matches Some(i) ==> val_view(*v) == SpecVal::Int(i as int),
;

/// Relies on `serde_json::Value::as_str`: the characters of a string value,
/// and nothing else.
pub assume_specification<'a>[ serde_json::Value::as_str ](v: &'a serde_json::Value) -> (r: Option<
    &'a str,
>)
    ensures
        (r is Some) == (val_view(*v) is Str),
        r matches Some(s) ==> val_view(*v) == SpecVal::Str(s@),
;

/// Relies on `serde_json::Value::clone`: the copy holds the same content.
pub assume_specification[ <serde_json::Value as Clone>::clone ](v: &serde_json::Value) -> (r:
    serde_json::Value)
    ensures
        val_view(r) == val_view(*v),
;

/// Relies on `ordered_float::OrderedFloat`'s total order over
/// `Value::as_f64` with a zero default: the two values are ranked by their
/// numeric coercion, which `numeric_key` names.
#[verifier::external_body]
pub fn num_cmp(a: &serde_json::Value, b: &serde_json::Value) -> (r: Ordering)
    ensures
        r == int3(numeric_key(val_view(*a)), numeric_key(val_view(*b))),
{
    let fa = ordered_float::OrderedFloat(a.as_f64().unwrap_or_default());
    let fb = ordered_float::OrderedFloat(b.as_f64().unwrap_or_default());
    fa.cmp(&fb)
}

/// Relies on json_dotpath's `DotPaths::dot_get` for `serde_json::Value`:
/// the dotted-path lookup, with every miss and every path error collapsed
/// to null, as `resolve` describes.
#[verifier::external_body]
pub fn dot_get_value(v: &serde_json::Value, path: &str) -> (r: serde_json::Value)
    ensures
        val_view(r) == resolve(val_view(*v), path@),
{
    v.dot_get_or(path, serde_json::Value::Null).unwrap_or(serde_json::Value::Null)
}

} // verus!
