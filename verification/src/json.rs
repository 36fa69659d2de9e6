//! JSON values, as notifications, geometries and properties bring them.
use crate::text::{signed_decimal, text_lt};
use serde_json::Value;
use vstd::prelude::*;

verus! {

/// A JSON value as `serde_json` keeps it.
#[verifier::external_type_specification]
#[verifier::external_body]
pub struct ExValue(serde_json::Value);

/// Why `serde_json` could not read or write a text.
#[verifier::external_type_specification]
#[verifier::external_body]
pub struct ExJsonError(serde_json::Error);

/// What a JSON value holds. A number is held by the text in which it is written,
/// and an object's fields stand in the order of their names.
pub enum Json {
    Null,
    Bool(bool),
    Number(Seq<char>),
    Text(Seq<char>),
    Array(Seq<Json>),
    Object(Seq<(Seq<char>, Json)>),
}

/// What a `serde_json::Value` holds.
pub uninterp spec fn json_of(value: serde_json::Value) -> Json;

/// What `serde_json::from_str` reads in a text, or `None` where it is not JSON.
pub uninterp spec fn parsed_json(text: Seq<char>) -> Option<Json>;

/// The compact text in which `serde_json` writes a value.
pub uninterp spec fn json_text(json: Json) -> Seq<char>;

/// The compact text in which `serde_json` writes an object with some fields, or
/// `None` where it fails.
pub uninterp spec fn object_text(fields: Map<Seq<char>, Json>) -> Option<Seq<char>>;

/// The integer that `Value::as_i64` takes the number of a text for.
pub uninterp spec fn number_int(text: Seq<char>) -> Option<i64>;

/// The bits of the double that `Value::as_f64` takes the number of a text for.
pub uninterp spec fn number_bits(text: Seq<char>) -> Option<u64>;

/// What the values hold.
pub open spec fn jsons(values: Seq<Value>) -> Seq<Json> {
    Seq::new(values.len(), |i: int| json_of(values[i]))
}

/// The field of an object.
pub open spec fn field_in(fields: Seq<(Seq<char>, Json)>, name: Seq<char>) -> Option<Json>
    decreases fields.len(),
{
    if fields.len() == 0 {
        None
    } else if fields.last().0 == name {
        Some(fields.last().1)
    } else {
        field_in(fields.drop_last(), name)
    }
}

/// The field of a value; only objects have any.
pub open spec fn field(json: Json, name: Seq<char>) -> Option<Json> {
    match json {
        Json::Object(fields) => field_in(fields, name),
        _ => None,
    }
}

/// The item of a value; only arrays have any.
pub open spec fn item(json: Json, i: int) -> Option<Json> {
    match json {
        Json::Array(items) => if 0 <= i < items.len() {
            Some(items[i])
        } else {
            None
        },
        _ => None,
    }
}

/// The integer that a value is.
pub open spec fn int_of(json: Json) -> Option<i64> {
    match json {
        Json::Number(text) => number_int(text),
        _ => None,
    }
}

/// The double that a value is, by its bits.
pub open spec fn bits_of(json: Json) -> Option<u64> {
    match json {
        Json::Number(text) => number_bits(text),
        _ => None,
    }
}

/// The string that a value is.
pub open spec fn string_of(json: Json) -> Option<Seq<char>> {
    match json {
        Json::Text(s) => Some(s),
        _ => None,
    }
}

/// Fields collected one after the other; a later one replaces an earlier one of
/// the same name.
pub open spec fn collected(fields: Seq<(Seq<char>, Json)>) -> Map<Seq<char>, Json>
    decreases fields.len(),
{
    if fields.len() == 0 {
        Map::empty()
    } else {
        collected(fields.drop_last()).insert(fields.last().0, fields.last().1)
    }
}

/// What owned fields hold.
pub open spec fn field_models(fields: Seq<(String, Value)>) -> Seq<(Seq<char>, Json)> {
    Seq::new(fields.len(), |i: int| (fields[i].0@, json_of(fields[i].1)))
}

/// Fields stand in the order of their names, none twice.
pub open spec fn in_name_order(fields: Seq<(Seq<char>, Json)>) -> bool {
    forall|i: int, j: int|
        0 <= i < j < fields.len() ==> text_lt((#[trigger] fields[i]).0, (#[trigger] fields[j]).0)
}

/// What borrowed fields hold.
pub open spec fn borrowed_models(fields: Seq<(&String, &Value)>) -> Seq<(Seq<char>, Json)> {
    Seq::new(fields.len(), |i: int| (fields[i].0@, json_of(*fields[i].1)))
}

/// `serde_json::from_str` into a `Value`: the outcome is a function of the text.
#[verifier::external_body]
pub(crate) fn parse_json(text: &str) -> (res: Result<Value, serde_json::Error>)
    ensures
        match res {
            Ok(value) => parsed_json(text@) == Some(json_of(value)),
            Err(_) => parsed_json(text@) is None,
        },
{
    serde_json::from_str(text)
}

/// `Value::get` by name: the field of an object, and nothing for other values.
#[verifier::external_body]
pub(crate) fn json_field<'a>(value: &'a Value, name: &str) -> (found: Option<&'a Value>)
    ensures
        match found {
            Some(v) => field(json_of(*value), name@) == Some(json_of(*v)),
            None => field(json_of(*value), name@) is None,
        },
{
    value.get(name)
}

/// `Value::get` by position: the item of an array, and nothing for other
/// values.
#[verifier::external_body]
pub(crate) fn json_item(value: &Value, i: usize) -> (found: Option<&Value>)
    ensures
        match found {
            Some(v) => item(json_of(*value), i as int) == Some(json_of(*v)),
            None => item(json_of(*value), i as int) is None,
        },
{
    value.get(i)
}

/// `Value::as_array`: the items of an array.
#[verifier::external_body]
pub(crate) fn json_array(value: &Value) -> (found: Option<&Vec<Value>>)
    ensures
        match found {
            Some(items) => json_of(*value) == Json::Array(jsons(items@)),
            None => !(json_of(*value) is Array),
        },
{
    value.as_array()
}

/// `Value::as_object`, its fields as a list: the map walks them in the order of
/// their names.
#[verifier::external_body]
pub(crate) fn json_fields(value: &Value) -> (found: Option<Vec<(&String, &Value)>>)
    ensures
        match found {
            Some(fields) => json_of(*value) == Json::Object(borrowed_models(fields@)),
            None => !(json_of(*value) is Object),
        },
{
    value.as_object().map(|map| map.iter().collect())
}

/// The `Object` variant of a `Value`, its fields as a list in the order of
/// their names.
#[verifier::external_body]
pub(crate) fn json_into_fields(value: Value) -> (found: Option<Vec<(String, Value)>>)
    ensures
        match found {
            Some(fields) => json_of(value) == Json::Object(field_models(fields@)),
            None => !(json_of(value) is Object),
        },
{
    match value {
        Value::Object(map) => Some(map.into_iter().collect()),
        _ => None,
    }
}

/// `Value::as_str`: the text of a string.
#[verifier::external_body]
pub(crate) fn json_str(value: &Value) -> (found: Option<&str>)
    ensures
        match found {
            Some(s) => string_of(json_of(*value)) == Some(s@),
            None => string_of(json_of(*value)) is None,
        },
{
    value.as_str()
}

/// `Value::as_bool`: the truth value that a value is.
#[verifier::external_body]
pub(crate) fn json_bool(value: &Value) -> (found: Option<bool>)
    ensures
        match found {
            Some(b) => json_of(*value) == Json::Bool(b),
            None => !(json_of(*value) is Bool),
        },
{
    value.as_bool()
}

/// `Value::is_number`.
#[verifier::external_body]
pub(crate) fn json_is_number(value: &Value) -> (is_number: bool)
    ensures
        is_number == (json_of(*value) is Number),
{
    value.is_number()
}

/// `Value::as_i64`: the integer that a number is, if it is one of 64 bits. The
/// text of a number decides it: an integer is written in digits alone, and any
/// other number with a point or an exponent, in the shortest text that reads back
/// as the same double.
#[verifier::external_body]
pub(crate) fn json_int(value: &Value) -> (found: Option<i64>)
    ensures
        match json_of(*value) {
            Json::Number(text) => found == number_int(text),
            _ => found is None,
        },
{
    value.as_i64()
}

/// `Value::as_f64`, by the bits of the double, which the text of the number decides
/// too.
#[verifier::external_body]
pub(crate) fn json_bits(value: &Value) -> (found: Option<u64>)
    ensures
        match json_of(*value) {
            Json::Number(text) => found == number_bits(text),
            _ => found is None,
        },
{
    value.as_f64().map(|number| number.to_bits())
}

/// `Value`'s `Display`: the compact text of the value, which for a number is
/// the number's own.
#[verifier::external_body]
pub(crate) fn json_to_text(value: &Value) -> (text: String)
    ensures
        text@ == json_text(json_of(*value)),
        json_of(*value) is Number ==> json_of(*value) == Json::Number(text@),
{
    value.to_string()
}

/// The `String` variant of a `Value`.
#[verifier::external_body]
pub(crate) fn json_from_text(text: String) -> (value: Value)
    ensures
        json_of(value) == Json::Text(text@),
{
    Value::String(text)
}

/// `Value::from` an integer: a number, written in decimal.
#[verifier::external_body]
pub(crate) fn json_from_int(n: i64) -> (value: Value)
    ensures
        json_of(value) == Json::Number(signed_decimal(n as int)),
{
    Value::from(n)
}

/// The `Array` variant of a `Value`.
#[verifier::external_body]
pub(crate) fn json_from_items(items: Vec<Value>) -> (value: Value)
    ensures
        json_of(value) == Json::Array(jsons(items@)),
{
    Value::Array(items)
}

/// The `Object` variant of a `Value`, collected from fields that stand in the order
/// of their names, in which the map walks them too.
#[verifier::external_body]
pub(crate) fn json_from_fields(fields: Vec<(String, Value)>) -> (value: Value)
    requires
        in_name_order(field_models(fields@)),
    ensures
        json_of(value) == Json::Object(field_models(fields@)),
{
    Value::Object(fields.into_iter().collect())
}

/// `serde_json::to_string` of an object collected from a list of fields, in
/// which the last of several fields of one name counts. The text depends on
/// the fields that remain.
#[verifier::external_body]
pub(crate) fn write_object(fields: Vec<(String, Value)>) -> (res: Result<
    String,
    serde_json::Error,
>)
    ensures
        match res {
            Ok(text) => object_text(collected(field_models(fields@))) == Some(text@),
            Err(_) => object_text(collected(field_models(fields@))) is None,
        },
{
    serde_json::to_string(&Value::Object(fields.into_iter().collect()))
}

/// The field of a name is the last one that stands under it; there is none only
/// where nothing does.
pub proof fn lemma_last_field_counts(fields: Seq<(Seq<char>, Json)>, name: Seq<char>)
    ensures
        match field_in(fields, name) {
            None => forall|i: int| 0 <= i < fields.len() ==> (#[trigger] fields[i]).0 != name,
            Some(value) => exists|i: int|
                0 <= i < fields.len() && (#[trigger] fields[i]).0 == name && fields[i].1 == value
                    && forall|k: int| i < k < fields.len() ==> (#[trigger] fields[k]).0 != name,
        },
    decreases fields.len(),
{
    if fields.len() > 0 {
        let front = fields.drop_last();
        let n = fields.len() - 1;
        lemma_last_field_counts(front, name);
        if fields[n].0 == name {
            assert(fields[n].1 == field_in(fields, name)->0);
        } else {
            match field_in(front, name) {
                None => {
                    assert forall|i: int| 0 <= i < fields.len() implies (#[trigger] fields[i]).0
                        != name by {
                        if i < n {
                            assert(front[i] == fields[i]);
                        }
                    }
                },
                Some(value) => {
                    let i = choose|i: int|
                        0 <= i < front.len() && (#[trigger] front[i]).0 == name && front[i].1
                            == value && forall|k: int|
                            i < k < front.len() ==> (#[trigger] front[k]).0 != name;
                    assert forall|k: int| i < k < fields.len() implies (#[trigger] fields[k]).0
                        != name by {
                        if k < n {
                            assert(front[k] == fields[k]);
                        }
                    }
                    assert(fields[i].0 == name && fields[i].1 == value);
                },
            }
        }
    }
}

/// What is collected under a name is what is found under it.
pub proof fn lemma_collected_is_found(fields: Seq<(Seq<char>, Json)>, name: Seq<char>)
    ensures
        collected(fields).contains_key(name) <==> field_in(fields, name) is Some,
        field_in(fields, name) is Some ==> collected(fields)[name] == field_in(fields, name)->0,
    decreases fields.len(),
{
    if fields.len() > 0 {
        lemma_collected_is_found(fields.drop_last(), name);
    }
}

} // verus!
