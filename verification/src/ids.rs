//! Reading the identifier of a document, and asking whether an array holds
//! an element with a given identifier.

use crate::search::{find_element_by_match, first_match};
use crate::text::{decimal_text, integer, integer_text};
use crate::value::{Json, Number, NumberView, Value};
use vstd::prelude::*;

verus! {

/// The identifier of a document: a text, or a number with a floating value,
/// which the caller writes out.
#[derive(Debug)]
pub enum Id {
    Text(String),
    Float(Number),
}

/// Mathematical view of an identifier.
pub enum IdView {
    Text(Seq<char>),
    Float(NumberView),
}

impl View for Id {
    type V = IdView;

    open spec fn view(&self) -> IdView {
        match self {
            Id::Text(s) => IdView::Text(s@),
            Id::Float(n) => IdView::Float(n@),
        }
    }
}

/// The identifier that a document holds under `key`: a string as it is, an
/// integer in decimal digits, any other number as the number. A document
/// that is no object, that lacks the key, or that holds another kind of
/// value there has none.
pub open spec fn extract_id(data: Json, key: Seq<char>) -> Option<IdView> {
    match data.get(key) {
        Some(Json::String(s)) => Some(IdView::Text(s)),
        Some(Json::Number(n)) => match n.exact() {
            Some(value) => Some(IdView::Text(integer(value))),
            None => Some(IdView::Float(n)),
        },
        _ => None,
    }
}

/// The view of an identifier that may be absent.
pub open spec fn id_view(id: Option<Id>) -> Option<IdView> {
    match id {
        Some(i) => Some(i@),
        None => None,
    }
}

/// The identifier that `data` holds under `key`.
pub fn jsonb_extract_id(data: &Value, key: &str) -> (r: Option<Id>)
    ensures
        id_view(r) == extract_id(data@, key@),
{
    match data.get(key) {
        Some(Value::String(s)) => Some(Id::Text(s.clone())),
        Some(Value::Number(n)) => match n {
            Number::PosInt(value) => Some(Id::Text(decimal_text(*value))),
            Number::NegInt(value) => Some(Id::Text(integer_text(*value))),
            Number::Float(_) => Some(Id::Float(*n)),
        },
        _ => None,
    }
}

/// Whether the array under `array_path` holds an element with `id_value`
/// under `id_key`.
pub open spec fn array_contains_id(
    data: Json,
    array_path: Seq<char>,
    id_key: Seq<char>,
    id_value: Json,
) -> bool {
    match data.get(array_path) {
        Some(Json::Array(items)) => first_match(items, id_key, id_value) is Some,
        _ => false,
    }
}

/// Whether the array under `array_path` of `data` holds an element with
/// `id_value` under `id_key`. A document without such an array holds none.
pub fn jsonb_array_contains_id(
    data: &Value,
    array_path: &str,
    id_key: &str,
    id_value: &Value,
) -> (r: bool)
    ensures
        r == array_contains_id(data@, array_path@, id_key@, id_value@),
{
    match data.get(array_path) {
        Some(Value::Array(items)) => find_element_by_match(
            items.as_slice(),
            id_key,
            id_value,
        ).is_some(),
        _ => false,
    }
}

} // verus!
