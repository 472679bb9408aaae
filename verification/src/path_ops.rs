//! Operations that take their path as text: writing at a path, and writing
//! at a path inside the element of an array that a key and a value single
//! out.

use crate::array_ops::with_field;
use crate::depth::{validate_depth, within_depth, MAX_JSONB_DEPTH};
use crate::error::{outcome, Error};
use crate::path::{lemma_parse_well_formed, parse, parse_path, segments_view, set_at, write_at};
use crate::search::{find_element_by_match, first_match};
use crate::value::{
    items_view, lemma_fields_map, lemma_items_view, put_item, take_item, Json, Value,
};
use vstd::prelude::*;

verus! {

/// What writing at a path given as text gives: the text has to be a path,
/// and the value has to keep within the nesting bound.
pub open spec fn set_path_checked(target: Json, path: Seq<char>, value: Json) -> Result<
    Json,
    Error,
> {
    match parse(path) {
        Err(e) => Err(Error::InvalidPath(e)),
        Ok(steps) => if !within_depth(value, MAX_JSONB_DEPTH as nat) {
            Err(Error::DepthExceeded { max_depth: MAX_JSONB_DEPTH })
        } else {
            Ok(set_at(target, steps, 0, value, false))
        },
    }
}

/// Writes `value` at the place that the path text names in `target`, making
/// objects and arrays on the way as the path asks for them.
pub fn jsonb_ivm_set_path(target: Value, path: &str, value: Value) -> (r: Result<Value, Error>)
    ensures
        outcome(r) == set_path_checked(target@, path@, value@),
{
    let segments = match parse_path(path) {
        Ok(segments) => segments,
        Err(e) => {
            return Err(Error::InvalidPath(e));
        },
    };
    match validate_depth(&value, MAX_JSONB_DEPTH) {
        Ok(()) => {},
        Err(e) => {
            return Err(Error::DepthExceeded { max_depth: e.max_depth });
        },
    }
    proof {
        lemma_parse_well_formed(path@);
    }
    Ok(write_at(target, segments.as_slice(), 0, value, false))
}

/// What writing at a path inside the first matching element gives. The
/// update path has to be a path, the field has to hold an array, and the
/// value has to keep within the nesting bound. The value is written where
/// the path ends in a key; a path that ends in an index only makes the
/// objects and arrays on the way to it. Without a match the document stays
/// as it is.
pub open spec fn array_update_where_path(
    target: Json,
    field: Seq<char>,
    key: Seq<char>,
    value: Json,
    update_path: Seq<char>,
    update_value: Json,
) -> Result<Json, Error> {
    match parse(update_path) {
        Err(e) => Err(Error::InvalidPath(e)),
        Ok(steps) => match target.get(field) {
            None => Err(Error::MissingArray),
            Some(Json::Array(items)) => if !within_depth(update_value, MAX_JSONB_DEPTH as nat) {
                Err(Error::DepthExceeded { max_depth: MAX_JSONB_DEPTH })
            } else {
                match first_match(items, key, value) {
                    Some(i) => Ok(
                        with_field(
                            target,
                            field,
                            Json::Array(
                                items.update(i, set_at(items[i], steps, 0, update_value, true)),
                            ),
                        ),
                    ),
                    None => Ok(target),
                }
            },
            Some(other) => Err(Error::NotAnArray { found: other.kind() }),
        },
    }
}

/// Writes `update_value` at `update_path` inside the first element of the
/// array under `array_key` that holds `match_value` under `match_key`.
pub fn jsonb_ivm_array_update_where_path(
    target: Value,
    array_key: &str,
    match_key: &str,
    match_value: Value,
    update_path: &str,
    update_value: Value,
) -> (r: Result<Value, Error>)
    ensures
        outcome(r) == array_update_where_path(
            target@,
            array_key@,
            match_key@,
            match_value@,
            update_path@,
            update_value@,
        ),
{
    let segments = match parse_path(update_path) {
        Ok(segments) => segments,
        Err(e) => {
            return Err(Error::InvalidPath(e));
        },
    };
    let mut doc = match target {
        Value::Object(doc) => doc,
        _ => {
            return Err(Error::MissingArray);
        },
    };
    let at = match doc.index_of(array_key) {
        Some(at) => at,
        None => {
            return Err(Error::MissingArray);
        },
    };
    let ghost before = doc@;
    let _ = doc.len();
    proof {
        lemma_fields_map(doc.fields());
    }
    let mut items = match doc.take_array(at) {
        Ok(items) => items,
        Err(found) => {
            return Err(Error::NotAnArray { found });
        },
    };
    match validate_depth(&update_value, MAX_JSONB_DEPTH) {
        Ok(()) => {},
        Err(e) => {
            return Err(Error::DepthExceeded { max_depth: e.max_depth });
        },
    }
    let ghost elements = items_view(items@);
    proof {
        lemma_items_view(items@);
    }
    match find_element_by_match(items.as_slice(), match_key, &match_value) {
        Some(i) => {
            proof {
                lemma_parse_well_formed(update_path@);
            }
            let element = take_item(&mut items, i);
            let written = write_at(element, segments.as_slice(), 0, update_value, true);
            put_item(&mut items, i, written);
            proof {
                lemma_items_view(items@);
                assert(items_view(items@) =~= elements.update(
                    i as int,
                    set_at(elements[i as int], segments_view(segments@), 0, update_value@, true),
                ));
            }
        },
        None => {},
    }
    let ghost result = Json::Array(items_view(items@));
    let _ = doc.replace_value(at, Value::Array(items));
    assert(doc@ =~= before.insert(array_key@, result));
    proof {
        if first_match(elements, match_key@, match_value@) is None {
            assert(before.insert(array_key@, result) =~= before);
        }
    }
    Ok(Value::Object(doc))
}

} // verus!
