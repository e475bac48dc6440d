//! The JSON value representation and the key-path model.
//!
//! A key path is a string that identifies one traversal from a record's root
//! to a node: object-field names joined with `.`, array positions written as
//! `[i]`. Paths are purely structural: the values found along the way never
//! affect path identity.

use vstd::prelude::*;

verus! {

/// One JSON record: a value at some ordinal position in the dataset.
#[derive(Debug, PartialEq, Eq)]
pub enum JsonValue {
    Null,
    Bool(bool),
    /// A JSON number, kept as its literal text; the analysis never reads it.
    Number(String),
    Str(String),
    Array(Vec<JsonValue>),
    Object(Vec<(String, JsonValue)>),
}

/// The character for a single decimal digit.
pub open spec fn digit_char(d: nat) -> char {
    if d == 0 {
        '0'
    } else if d == 1 {
        '1'
    } else if d == 2 {
        '2'
    } else if d == 3 {
        '3'
    } else if d == 4 {
        '4'
    } else if d == 5 {
        '5'
    } else if d == 6 {
        '6'
    } else if d == 7 {
        '7'
    } else if d == 8 {
        '8'
    } else {
        '9'
    }
}

/// The decimal representation of a natural number, most significant digit
/// first, with no sign and no leading zeros (`0` is written `0`).
pub open spec fn decimal(n: nat) -> Seq<char>
    decreases n,
{
    if n < 10 {
        seq![digit_char(n)]
    } else {
        decimal(n / 10).push(digit_char(n % 10))
    }
}

/// The path of an object field named `key` under `prefix`: `key` itself at
/// the root, `prefix.key` below it.
pub open spec fn dot_path(prefix: Seq<char>, key: Seq<char>) -> Seq<char> {
    if prefix.len() == 0 {
        key
    } else {
        prefix + seq!['.'] + key
    }
}

/// The path prefix of an array element at position `i` under `prefix`:
/// `prefix[i]` (just `[i]` at the root).
pub open spec fn index_path(prefix: Seq<char>, i: nat) -> Seq<char> {
    prefix + seq!['['] + decimal(i) + seq![']']
}

/// All key paths emitted when flattening `v` under `prefix`, in traversal
/// order and with multiplicity. Every object field emits its own path and
/// then the paths of its value; an array emits only its elements' paths,
/// never its own; a scalar emits nothing.
pub open spec fn flat_paths(v: JsonValue, prefix: Seq<char>) -> Seq<Seq<char>>
    decreases v, 0int,
{
    match v {
        JsonValue::Object(fields) => obj_paths_from(fields@, prefix, 0),
        JsonValue::Array(elems) => arr_paths_from(elems@, prefix, 0),
        _ => Seq::empty(),
    }
}

/// The paths emitted by the object fields `fields[i..]` under `prefix`.
pub open spec fn obj_paths_from(
    fields: Seq<(String, JsonValue)>,
    prefix: Seq<char>,
    i: int,
) -> Seq<Seq<char>>
    decreases fields, fields.len() - i + 1,
{
    if 0 <= i < fields.len() {
        seq![dot_path(prefix, fields[i].0@)] + flat_paths(fields[i].1, dot_path(prefix, fields[i].0@))
            + obj_paths_from(fields, prefix, i + 1)
    } else {
        Seq::empty()
    }
}

/// The paths emitted by the array elements `elems[i..]` under `prefix`.
pub open spec fn arr_paths_from(elems: Seq<JsonValue>, prefix: Seq<char>, i: int) -> Seq<Seq<char>>
    decreases elems, elems.len() - i + 1,
{
    if 0 <= i < elems.len() {
        flat_paths(elems[i], index_path(prefix, i as nat)) + arr_paths_from(elems, prefix, i + 1)
    } else {
        Seq::empty()
    }
}

/// The key paths of one record, in traversal order and with multiplicity.
pub open spec fn row_paths(v: JsonValue) -> Seq<Seq<char>> {
    flat_paths(v, Seq::empty())
}

/// The Row Key Set: the set of key paths reachable within one record.
pub open spec fn row_key_set(v: JsonValue) -> Set<Seq<char>> {
    row_paths(v).to_set()
}

/// How often path `p` occurs within the single record `v`.
pub open spec fn row_count(v: JsonValue, p: Seq<char>) -> nat {
    row_paths(v).to_multiset().count(p)
}

/// The key paths of the records `rows[i..]`, concatenated in order.
pub open spec fn dataset_paths_from(rows: Seq<JsonValue>, i: int) -> Seq<Seq<char>>
    decreases rows.len() - i,
{
    if 0 <= i < rows.len() {
        row_paths(rows[i]) + dataset_paths_from(rows, i + 1)
    } else {
        Seq::empty()
    }
}

/// The key paths of a whole dataset, with multiplicity.
pub open spec fn dataset_paths(rows: Seq<JsonValue>) -> Seq<Seq<char>> {
    dataset_paths_from(rows, 0)
}

/// The occurrence count of path `p` over a whole dataset.
pub open spec fn dataset_count(rows: Seq<JsonValue>, p: Seq<char>) -> nat {
    dataset_paths(rows).to_multiset().count(p)
}

/// The Global Key Set: every path that occurs in at least one record.
pub open spec fn global_key_set(rows: Seq<JsonValue>) -> Set<Seq<char>> {
    Set::new(|p: Seq<char>| exists|i: int| 0 <= i < rows.len() && row_key_set(rows[i]).contains(p))
}

#[verifier::external_type_specification]
#[verifier::external_body]
pub struct ExSerdeValue(serde_json::Value);

/// The JSON value a line of text denotes, if the line is one valid JSON
/// document; what this is on given characters is known only to the parser.
pub uninterp spec fn parsed_json(s: Seq<char>) -> Option<JsonValue>;

/// Relies on the shape of serde_json::Value alone: each variant is carried
/// over one to one, objects and arrays recursively, numbers as their
/// literal text. No outside value leaks into the result.
#[verifier::external_body]
fn convert_json(v: serde_json::Value) -> JsonValue {
    match v {
        serde_json::Value::Null => JsonValue::Null,
        serde_json::Value::Bool(b) => JsonValue::Bool(b),
        serde_json::Value::Number(n) => JsonValue::Number(n.to_string()),
        serde_json::Value::String(s) => JsonValue::Str(s),
        serde_json::Value::Array(a) => JsonValue::Array(a.into_iter().map(convert_json).collect()),
        serde_json::Value::Object(m) => JsonValue::Object(
            m.into_iter().map(|(k, x)| (k, convert_json(x))).collect(),
        ),
    }
}

/// Relies on serde_json::from_str: whether a line of text is one valid JSON
/// document, and the value it denotes, depend on the characters alone. On
/// failure the parser's message is handed back.
#[verifier::external_body]
pub(crate) fn parse_json_str(s: &str) -> (r: Result<JsonValue, String>)
    ensures
        r is Ok <==> parsed_json(s@) is Some,
        r matches Ok(v) ==> parsed_json(s@) == Some(v),
{
    match serde_json::from_str::<serde_json::Value>(s) {
        Ok(v) => Ok(convert_json(v)),
        Err(e) => Err(e.to_string()),
    }
}

} // verus!
