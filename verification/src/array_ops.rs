//! Surgery on the array under a named field of a document: change the first
//! element that matches, change many by a table, delete one, put one in.

use crate::depth::{validate_depth, within_depth, MAX_JSONB_DEPTH};
use crate::error::{outcome, Argument, Error};
use crate::merge::{merge_into, merge_maps};
use crate::order::{
    lemma_value_order_antisymmetric, lemma_value_order_transitive, order_of, value_order,
};
use crate::search::{
    find_element_by_match, first_index, first_match, lemma_first_index, lemma_first_index_found,
    lemma_first_index_none, position,
};
use crate::value::{
    items_view, lemma_fields_map, lemma_items_view, put_item, take_item, text_of, view_of_ref,
    Json, Object, Value,
};
use std::collections::HashMap;
use vstd::prelude::*;

verus! {

/// The document with `value` under `field`, where the document is an object.
pub open spec fn with_field(target: Json, field: Seq<char>, value: Json) -> Json {
    match target {
        Json::Object(t) => Json::Object(t.insert(field, value)),
        _ => target,
    }
}

/// The element with the fields `updates` merged into it, where it is an
/// object.
pub open spec fn patched(element: Json, updates: Map<Seq<char>, Json>) -> Json {
    match element {
        Json::Object(m) => Json::Object(merge_maps(m, updates)),
        _ => element,
    }
}

/// What updating the first match gives. The field has to hold an array, and
/// `updates` has to keep within the nesting bound and be an object. Without
/// a match the document stays as it is.
pub open spec fn array_update_where(
    target: Json,
    field: Seq<char>,
    key: Seq<char>,
    value: Json,
    updates: Json,
) -> Result<Json, Error> {
    match target.get(field) {
        None => Err(Error::MissingArray),
        Some(Json::Array(items)) => if !within_depth(updates, MAX_JSONB_DEPTH as nat) {
            Err(Error::DepthExceeded { max_depth: MAX_JSONB_DEPTH })
        } else {
            match updates {
                Json::Object(u) => match first_match(items, key, value) {
                    Some(i) => Ok(
                        with_field(
                            target,
                            field,
                            Json::Array(items.update(i, patched(items[i], u))),
                        ),
                    ),
                    None => Ok(target),
                },
                _ => Err(Error::NotAnObject { argument: Argument::Updates, found: updates.kind() }),
            }
        },
        Some(other) => Err(Error::NotAnArray { found: other.kind() }),
    }
}

/// Merges `updates` into the first element that holds `match_value` under
/// `match_key`, in the array under `array_path`.
pub(crate) fn update_first(
    target: Value,
    array_path: &str,
    match_key: &str,
    match_value: &Value,
    updates: &Value,
) -> (r: Result<Value, Error>)
    ensures
        outcome(r) == array_update_where(
            target@,
            array_path@,
            match_key@,
            match_value@,
            updates@,
        ),
{
    let mut doc = match target {
        Value::Object(doc) => doc,
        _ => {
            return Err(Error::MissingArray);
        },
    };
    let at = match doc.index_of(array_path) {
        Some(at) => at,
        None => {
            return Err(Error::MissingArray);
        },
    };
    let ghost before = doc@;
    let _ = doc.len();
    proof {
        lemma_fields_map(doc.fields());
    }
    let mut items = match doc.take_array(at) {
        Ok(items) => items,
        Err(found) => {
            return Err(Error::NotAnArray { found });
        },
    };
    match validate_depth(updates, MAX_JSONB_DEPTH) {
        Ok(()) => {},
        Err(e) => {
            return Err(Error::DepthExceeded { max_depth: e.max_depth });
        },
    }
    let patch = match updates {
        Value::Object(patch) => patch,
        _ => {
            return Err(Error::NotAnObject { argument: Argument::Updates, found: updates.kind() });
        },
    };
    let ghost elements = items_view(items@);
    proof {
        lemma_items_view(items@);
    }
    match find_element_by_match(items.as_slice(), match_key, match_value) {
        Some(i) => {
            let element = take_item(&mut items, i);
            let changed = match element {
                Value::Object(mut fields) => {
                    merge_into(&mut fields, patch);
                    Value::Object(fields)
                },
                other => other,
            };
            put_item(&mut items, i, changed);
            proof {
                lemma_items_view(items@);
                assert(items_view(items@) =~= elements.update(
                    i as int,
                    patched(elements[i as int], patch@),
                ));
            }
        },
        None => {},
    }
    let ghost result = Json::Array(items_view(items@));
    let _ = doc.replace_value(at, Value::Array(items));
    assert(doc@ =~= before.insert(array_path@, result));
    assert(target@ == Json::Object(before));
    assert(before[array_path@] == Json::Array(elements));
    proof {
        if first_match(elements, match_key@, match_value@) is None {
            assert(result == Json::Array(elements));
            assert(before.insert(array_path@, result) =~= before);
        }
    }
    Ok(Value::Object(doc))
}

/// Merges `updates` into the first element of the array under `array_path`
/// that holds `match_value` under `match_key`. The field has to hold an
/// array, `updates` has to keep within the nesting bound and be an object.
/// Without a match the document comes back as it was.
pub fn jsonb_array_update_where(
    target: Value,
    array_path: &str,
    match_key: &str,
    match_value: Value,
    updates: Value,
) -> (r: Result<Value, Error>)
    ensures
        outcome(r) == array_update_where(
            target@,
            array_path@,
            match_key@,
            match_value@,
            updates@,
        ),
{
    update_first(target, array_path, match_key, &match_value, &updates)
}


/// What one entry of a batch says: the integer to match and the fields to
/// merge, where the entry is an object that holds an integer under
/// `match_value` and an object under `updates`.
pub open spec fn batch_entry(entry: Json) -> Option<(i64, Map<Seq<char>, Json>)> {
    match (entry.get("match_value"@), entry.get("updates"@)) {
        (Some(wanted), Some(Json::Object(updates))) => match wanted.as_i64() {
            Some(id) => Some((id, updates)),
            None => None,
        },
        _ => None,
    }
}

/// The table that a batch stands for: from the integer to match to the
/// fields to merge. An entry that says nothing is passed over; of two entries
/// for one integer the later stands.
pub open spec fn batch_table(entries: Seq<Json>) -> Map<i64, Map<Seq<char>, Json>>
    decreases entries.len(),
{
    if entries.len() == 0 {
        Map::empty()
    } else {
        let rest = batch_table(entries.drop_last());
        match batch_entry(entries.last()) {
            Some((id, updates)) => rest.insert(id, updates),
            None => rest,
        }
    }
}

/// The element after a batch: an object that holds under `key` an integer of
/// the table gets the table's fields merged in; any other element stays.
pub open spec fn batch_patched(
    element: Json,
    key: Seq<char>,
    table: Map<i64, Map<Seq<char>, Json>>,
) -> Json {
    match element.get(key) {
        Some(field) => match field.as_i64() {
            Some(id) => if table.contains_key(id) {
                patched(element, table[id])
            } else {
                element
            },
            None => element,
        },
        None => element,
    }
}

/// What a batch update gives: the field has to hold an array, and the batch
/// has to keep within the nesting bound and be an array.
pub open spec fn array_update_where_batch(
    target: Json,
    field: Seq<char>,
    key: Seq<char>,
    batch: Json,
) -> Result<Json, Error> {
    match target.get(field) {
        None => Err(Error::MissingArray),
        Some(Json::Array(items)) => if !within_depth(batch, MAX_JSONB_DEPTH as nat) {
            Err(Error::DepthExceeded { max_depth: MAX_JSONB_DEPTH })
        } else {
            match batch {
                Json::Array(entries) => Ok(
                    with_field(
                        target,
                        field,
                        Json::Array(
                            Seq::new(
                                items.len(),
                                |i: int| batch_patched(items[i], key, batch_table(entries)),
                            ),
                        ),
                    ),
                ),
                _ => Err(Error::UpdatesNotAnArray { found: batch.kind() }),
            }
        },
        Some(other) => Err(Error::NotAnArray { found: other.kind() }),
    }
}

/// What the batch entry says, where it says anything.
fn read_entry(entry: &Value) -> (r: Option<(i64, &Object)>)
    ensures
        (match r {
            Some((id, updates)) => batch_entry(entry@) == Some((id, updates@)),
            None => batch_entry(entry@) is None,
        }),
{
    let id = match entry.get("match_value") {
        Some(wanted) => wanted.as_i64(),
        None => None,
    };
    let updates = match entry.get("updates") {
        Some(held) => held.as_object(),
        None => None,
    };
    match (id, updates) {
        (Some(id), Some(updates)) => Some((id, updates)),
        _ => None,
    }
}

/// Applies a batch of updates to the array under `array_path` in one pass,
/// after the batch has been held to the nesting bound:
/// each element that is an object and holds under `match_key` an integer of
/// the batch gets that entry's fields merged in. Entries that are not of the
/// shape `{"match_value": integer, "updates": object}` are passed over.
pub fn jsonb_array_update_where_batch(
    target: Value,
    array_path: &str,
    match_key: &str,
    updates_array: Value,
) -> (r: Result<Value, Error>)
    ensures
        outcome(r) == array_update_where_batch(
            target@,
            array_path@,
            match_key@,
            updates_array@,
        ),
{
    let mut doc = match target {
        Value::Object(doc) => doc,
        _ => {
            return Err(Error::MissingArray);
        },
    };
    let at = match doc.index_of(array_path) {
        Some(at) => at,
        None => {
            return Err(Error::MissingArray);
        },
    };
    let ghost before = doc@;
    let _ = doc.len();
    proof {
        lemma_fields_map(doc.fields());
    }
    let mut items = match doc.take_array(at) {
        Ok(items) => items,
        Err(found) => {
            return Err(Error::NotAnArray { found });
        },
    };
    match validate_depth(&updates_array, MAX_JSONB_DEPTH) {
        Ok(()) => {},
        Err(e) => {
            return Err(Error::DepthExceeded { max_depth: e.max_depth });
        },
    }
    let entries = match &updates_array {
        Value::Array(entries) => entries,
        _ => {
            return Err(Error::UpdatesNotAnArray { found: updates_array.kind() });
        },
    };
    let ghost said = items_view(entries@);
    proof {
        lemma_items_view(entries@);
        broadcast use vstd::std_specs::hash::group_hash_axioms;

    }
    let mut table: HashMap<i64, &Object> = HashMap::new();
    let mut e: usize = 0;
    assert(said.take(0) =~= Seq::empty());
    while e < entries.len()
        invariant
            e <= entries.len(),
            said == items_view(entries@),
            said.len() == entries.len(),
            forall|j: int| 0 <= j < entries.len() ==> #[trigger] said[j] == entries@[j]@,
            forall|id: i64| #[trigger]
                table@.contains_key(id) <==> batch_table(said.take(e as int)).contains_key(id),
            forall|id: i64| #[trigger]
                table@.contains_key(id) ==> table@[id]@ == batch_table(said.take(e as int))[id],
        decreases entries.len() - e,
    {
        broadcast use vstd::std_specs::hash::group_hash_axioms;

        assert(said.take(e + 1).drop_last() =~= said.take(e as int));
        assert(said.take(e + 1).last() == said[e as int]);
        assert(said[e as int] == entries@[e as int]@);
        match read_entry(&entries[e]) {
            Some((id, updates)) => {
                table.insert(id, updates);
            },
            None => {},
        }
        e += 1;
    }
    assert(said.take(e as int) =~= said);
    let ghost elements = items_view(items@);
    let ghost lookup = batch_table(said);
    proof {
        lemma_items_view(items@);
    }
    let key = match_key.to_owned();
    let mut i: usize = 0;
    while i < items.len()
        invariant
            i <= items.len(),
            key@ == match_key@,
            items.len() == elements.len(),
            said == items_view(entries@),
            said.len() == entries.len(),
            lookup == batch_table(said),
            forall|j: int| 0 <= j < entries.len() ==> #[trigger] said[j] == entries@[j]@,
            forall|id: i64| #[trigger] table@.contains_key(id) <==> lookup.contains_key(id),
            forall|id: i64| #[trigger] table@.contains_key(id) ==> table@[id]@ == lookup[id],
            forall|j: int|
                0 <= j < i ==> (#[trigger] items@[j])@ == batch_patched(
                    elements[j],
                    match_key@,
                    lookup,
                ),
            forall|j: int| i <= j < items.len() ==> (#[trigger] items@[j])@ == elements[j],
        decreases items.len() - i,
    {
        broadcast use vstd::std_specs::hash::group_hash_axioms;

        let id = match items[i].get_key(&key) {
            Some(field) => field.as_i64(),
            None => None,
        };
        let entry = match id {
            Some(id) => table.get(&id),
            None => None,
        };
        match entry {
            Some(updates) => {
                let element = take_item(&mut items, i);
                let changed = match element {
                    Value::Object(mut fields) => {
                        merge_into(&mut fields, *updates);
                        Value::Object(fields)
                    },
                    other => other,
                };
                put_item(&mut items, i, changed);
            },
            None => {},
        }
        i += 1;
    }
    proof {
        lemma_items_view(items@);
        assert(items_view(items@) =~= Seq::new(
            elements.len(),
            |i: int| batch_patched(elements[i], match_key@, lookup),
        ));
    }
    let ghost result = Json::Array(items_view(items@));
    let _ = doc.replace_value(at, Value::Array(items));
    assert(doc@ =~= before.insert(array_path@, result));
    Ok(Value::Object(doc))
}

/// What updating the first match in each of several documents gives:
/// `updates` has to be an object, and the first document that is refused
/// decides the outcome.
pub open spec fn array_update_rows(
    targets: Seq<Json>,
    field: Seq<char>,
    key: Seq<char>,
    value: Json,
    updates: Json,
) -> Result<Seq<Json>, Error>
    decreases targets.len(),
{
    if !(updates is Object) {
        Err(Error::NotAnObject { argument: Argument::Updates, found: updates.kind() })
    } else if targets.len() == 0 {
        Ok(Seq::empty())
    } else {
        match array_update_rows(targets.drop_last(), field, key, value, updates) {
            Ok(done) => match array_update_where(targets.last(), field, key, value, updates) {
                Ok(row) => Ok(done.push(row)),
                Err(e) => Err(e),
            },
            Err(e) => Err(e),
        }
    }
}

/// The view of what an update of several documents gave.
pub open spec fn rows_outcome(r: Result<Vec<Value>, Error>) -> Result<Seq<Json>, Error> {
    match r {
        Ok(rows) => Ok(items_view(rows@)),
        Err(e) => Err(e),
    }
}

/// Updates the first match in each of `targets`, in their order.
pub fn jsonb_array_update_multi_row(
    targets: Vec<Value>,
    array_path: &str,
    match_key: &str,
    match_value: Value,
    updates: Value,
) -> (r: Result<Vec<Value>, Error>)
    ensures
        rows_outcome(r) == array_update_rows(
            items_view(targets@),
            array_path@,
            match_key@,
            match_value@,
            updates@,
        ),
{
    if !updates.is_object() {
        return Err(Error::NotAnObject { argument: Argument::Updates, found: updates.kind() });
    }
    let ghost before = items_view(targets@);
    proof {
        lemma_items_view(targets@);
        assert(before.take(0) =~= Seq::empty());
    }
    let mut pending = targets;
    let mut rows: Vec<Value> = Vec::new();
    let mut i: usize = 0;
    while i < pending.len()
        invariant
            i <= pending.len(),
            pending.len() == before.len(),
            before == items_view(targets@),
            updates@ is Object,
            forall|j: int| i <= j < pending.len() ==> (#[trigger] pending@[j])@ == before[j],
            array_update_rows(
                before.take(i as int),
                array_path@,
                match_key@,
                match_value@,
                updates@,
            ) == Ok::<Seq<Json>, Error>(items_view(rows@)),
        decreases pending.len() - i,
    {
        assert(before.take(i + 1).drop_last() =~= before.take(i as int));
        assert(before.take(i + 1).last() == before[i as int]);
        let target = take_item(&mut pending, i);
        match update_first(target, array_path, match_key, &match_value, &updates) {
            Ok(row) => {
                proof {
                    let ghost done = rows@;
                    assert(done.push(row).drop_last() =~= done);
                }
                rows.push(row);
            },
            Err(e) => {
                proof {
                    lemma_rows_refused(
                        before,
                        i + 1,
                        array_path@,
                        match_key@,
                        match_value@,
                        updates@,
                    );
                }
                return Err(e);
            },
        }
        i += 1;
    }
    assert(before.take(i as int) =~= before);
    Ok(rows)
}

/// Once a document has been refused, the documents after it change nothing.
proof fn lemma_rows_refused(
    targets: Seq<Json>,
    n: int,
    field: Seq<char>,
    key: Seq<char>,
    value: Json,
    updates: Json,
)
    requires
        0 <= n <= targets.len(),
        array_update_rows(targets.take(n), field, key, value, updates) is Err,
    ensures
        array_update_rows(targets, field, key, value, updates) == array_update_rows(
            targets.take(n),
            field,
            key,
            value,
            updates,
        ),
    decreases targets.len() - n,
{
    if n < targets.len() {
        assert(targets.take(n + 1).drop_last() =~= targets.take(n));
        lemma_rows_refused(targets, n + 1, field, key, value, updates);
    } else {
        assert(targets.take(n) =~= targets);
    }
}

/// What deleting the first match gives. A document without an array under
/// the field, and an array without a match, stay as they are.
pub open spec fn array_delete_where(
    target: Json,
    field: Seq<char>,
    key: Seq<char>,
    value: Json,
) -> Json {
    match target.get(field) {
        Some(Json::Array(items)) => match first_match(items, key, value) {
            Some(i) => with_field(target, field, Json::Array(items.remove(i))),
            None => target,
        },
        _ => target,
    }
}

/// Removes the first element of the array under `array_path` that holds
/// `match_value` under `match_key`. Where there is no such array or no such
/// element, the document comes back as it was.
pub fn jsonb_array_delete_where(
    target: Value,
    array_path: &str,
    match_key: &str,
    match_value: Value,
) -> (r: Value)
    ensures
        r@ == array_delete_where(target@, array_path@, match_key@, match_value@),
{
    let mut doc = match target {
        Value::Object(doc) => doc,
        other => {
            return other;
        },
    };
    let at = match doc.index_of(array_path) {
        Some(at) => at,
        None => {
            return Value::Object(doc);
        },
    };
    let ghost before = doc@;
    let _ = doc.len();
    proof {
        lemma_fields_map(doc.fields());
    }
    let mut items = match doc.take_array(at) {
        Ok(items) => items,
        Err(_) => {
            return Value::Object(doc);
        },
    };
    let ghost elements = items_view(items@);
    proof {
        lemma_items_view(items@);
    }
    match find_element_by_match(items.as_slice(), match_key, &match_value) {
        Some(i) => {
            let _ = items.remove(i);
            proof {
                lemma_items_view(items@);
                assert(items_view(items@) =~= elements.remove(i as int));
            }
        },
        None => {},
    }
    let ghost result = Json::Array(items_view(items@));
    let _ = doc.replace_value(at, Value::Array(items));
    assert(doc@ =~= before.insert(array_path@, result));
    proof {
        if first_match(elements, match_key@, match_value@) is None {
            assert(before.insert(array_path@, result) =~= before);
        }
    }
    Value::Object(doc)
}

/// Whether a sort order asks for ascending: the word `ASC`, in upper or
/// lower case letters. Every other word asks for descending.
pub open spec fn is_ascending(order: Seq<char>) -> bool {
    &&& order.len() == 3
    &&& (order[0] == 'A' || order[0] == 'a')
    &&& (order[1] == 'S' || order[1] == 's')
    &&& (order[2] == 'C' || order[2] == 'c')
}

/// The new sort value belongs before the element: the element holds a value
/// under the sort key, and that value comes after the new one in the order
/// asked for.
pub open spec fn belongs_before(
    element: Json,
    new_val: Json,
    sort_key: Seq<char>,
    ascending: bool,
) -> bool {
    element.get(sort_key) matches Some(held) && if ascending {
        value_order(new_val, held) < 0
    } else {
        value_order(new_val, held) > 0
    }
}

/// The test for `belongs_before`.
pub open spec fn before_probe(new_val: Json, sort_key: Seq<char>, ascending: bool) -> spec_fn(
    Json,
) -> bool {
    |element: Json| belongs_before(element, new_val, sort_key, ascending)
}

/// Where a new element goes: before the first element that it belongs
/// before, and at the end where there is none or where the new element has
/// no sort value.
pub open spec fn insertion_point(
    items: Seq<Json>,
    new_val: Option<Json>,
    sort_key: Seq<char>,
    ascending: bool,
) -> int {
    match new_val {
        Some(value) => match first_index(items, before_probe(value, sort_key, ascending)) {
            Some(i) => i,
            None => items.len() as int,
        },
        None => items.len() as int,
    }
}

/// Whether the word asks for ascending order.
fn asks_ascending(order: &str) -> (r: bool)
    ensures
        r == is_ascending(order@),
{
    if order.unicode_len() != 3 {
        return false;
    }
    let a = order.get_char(0);
    let s = order.get_char(1);
    let c = order.get_char(2);
    (a == 'A' || a == 'a') && (s == 'S' || s == 's') && (c == 'C' || c == 'c')
}

/// The position at which an element with the sort value `new_val` goes into
/// `array` so that the order by `sort_key` is kept.
pub fn find_insertion_point(
    array: &[Value],
    new_val: Option<&Value>,
    sort_key: &str,
    sort_order: &str,
) -> (r: usize)
    ensures
        r == insertion_point(
            items_view(array@),
            view_of_ref(new_val),
            sort_key@,
            is_ascending(sort_order@),
        ),
        r <= array.len(),
{
    proof {
        lemma_items_view(array@);
    }
    let value = match new_val {
        Some(v) => v,
        None => {
            return array.len();
        },
    };
    let ascending = asks_ascending(sort_order);
    let ghost items = items_view(array@);
    let ghost wanted = before_probe(value@, sort_key@, ascending);
    let key = sort_key.to_owned();
    let mut i: usize = 0;
    while i < array.len()
        invariant
            i <= array.len(),
            key@ == sort_key@,
            items == items_view(array@),
            items.len() == array.len(),
            new_val == Some(value),
            ascending == is_ascending(sort_order@),
            wanted == before_probe(value@, sort_key@, ascending),
            forall|j: int| 0 <= j < array.len() ==> #[trigger] items[j] == array@[j]@,
            forall|j: int| 0 <= j < i ==> !wanted(#[trigger] items[j]),
        decreases array.len() - i,
    {
        assert(items[i as int] == array@[i as int]@);
        let hit = match array[i].get_key(&key) {
            Some(held) => {
                let sign = order_of(value, held);
                if ascending {
                    sign < 0
                } else {
                    sign > 0
                }
            },
            None => false,
        };
        if hit {
            proof {
                lemma_first_index_found(items, wanted, i as int);
            }
            return i;
        }
        i += 1;
    }
    proof {
        lemma_first_index_none(items, wanted);
    }
    array.len()
}

/// The array with the new element put in: at its insertion point where a
/// sort key is given, at the end otherwise.
pub open spec fn inserted(
    items: Seq<Json>,
    new_element: Json,
    sort_key: Option<Seq<char>>,
    ascending: bool,
) -> Seq<Json> {
    match sort_key {
        Some(key) => items.insert(
            insertion_point(items, new_element.get(key), key, ascending),
            new_element,
        ),
        None => items.push(new_element),
    }
}

/// What putting an element into the array under a field gives. The document
/// has to be an object. A field that is missing stands for an empty array;
/// one that holds anything but an array is refused.
pub open spec fn array_insert_where(
    target: Json,
    field: Seq<char>,
    new_element: Json,
    sort_key: Option<Seq<char>>,
    ascending: bool,
) -> Result<Json, Error> {
    match target {
        Json::Object(t) => {
            let held = if t.contains_key(field) {
                t[field]
            } else {
                Json::Array(Seq::empty())
            };
            match held {
                Json::Array(items) => Ok(
                    Json::Object(
                        t.insert(
                            field,
                            Json::Array(inserted(items, new_element, sort_key, ascending)),
                        ),
                    ),
                ),
                _ => Err(Error::NotAnArray { found: held.kind() }),
            }
        },
        _ => Err(Error::NotAnObject { argument: Argument::Target, found: target.kind() }),
    }
}

/// The order that the caller's words ask for: ascending where no word is
/// given.
pub open spec fn order_asked(sort_order: Option<Seq<char>>) -> bool {
    match sort_order {
        Some(word) => is_ascending(word),
        None => true,
    }
}

/// Puts `new_element` into the array under `array_path`, which is created
/// where it is missing. With a `sort_key` the element goes before the first
/// element that comes after it in the order asked for (`ASC`, the default, or
/// anything else for descending); without one, or where the new element has
/// no value under the sort key, it goes to the end.
pub fn jsonb_array_insert_where(
    target: Value,
    array_path: &str,
    new_element: Value,
    sort_key: Option<&str>,
    sort_order: Option<&str>,
) -> (r: Result<Value, Error>)
    ensures
        outcome(r) == array_insert_where(
            target@,
            array_path@,
            new_element@,
            text_of(sort_key),
            order_asked(text_of(sort_order)),
        ),
{
    let mut doc = match target {
        Value::Object(doc) => doc,
        _ => {
            return Err(Error::NotAnObject { argument: Argument::Target, found: target.kind() });
        },
    };
    let ghost before = doc@;
    let place = doc.index_of(array_path);
    let mut items = match place {
        Some(at) => {
            let _ = doc.len();
            proof {
                lemma_fields_map(doc.fields());
            }
            match doc.take_array(at) {
                Ok(items) => items,
                Err(found) => {
                    return Err(Error::NotAnArray { found });
                },
            }
        },
        None => Vec::new(),
    };
    let ghost elements = items_view(items@);
    proof {
        lemma_items_view(items@);
        assert(place is None ==> elements =~= Seq::empty());
    }
    match sort_key {
        Some(key) => {
            let order = match sort_order {
                Some(word) => word,
                None => "ASC",
            };
            proof {
                reveal_strlit("ASC");
            }
            let at = find_insertion_point(items.as_slice(), new_element.get(key), key, order);
            items.insert(at, new_element);
            proof {
                lemma_items_view(items@);
                assert(items_view(items@) =~= elements.insert(at as int, new_element@));
            }
        },
        None => {
            items.push(new_element);
            proof {
                lemma_items_view(items@);
                assert(items_view(items@) =~= elements.push(new_element@));
            }
        },
    }
    let ghost result = Json::Array(items_view(items@));
    match place {
        Some(at) => {
            let _ = doc.replace_value(at, Value::Array(items));
            assert(doc@ =~= before.insert(array_path@, result));
        },
        None => {
            doc.insert(array_path.to_owned(), Value::Array(items));
        },
    }
    Ok(Value::Object(doc))
}


/// Two sort values stand in the order asked for: the first is not after the
/// second (ascending), or not before it (descending).
pub open spec fn in_order(first: Json, second: Json, ascending: bool) -> bool {
    if ascending {
        value_order(first, second) <= 0
    } else {
        value_order(first, second) >= 0
    }
}

/// The elements that hold a value under `sort_key` stand in the order asked
/// for: non-decreasing for ascending, non-increasing for descending.
pub open spec fn sorted_by(items: Seq<Json>, sort_key: Seq<char>, ascending: bool) -> bool {
    forall|i: int, j: int|
        0 <= i < j < items.len() && (#[trigger] items[i]).get(sort_key) is Some && (
        #[trigger] items[j]).get(sort_key) is Some ==> in_order(
            items[i].get(sort_key)->0,
            items[j].get(sort_key)->0,
            ascending,
        )
}

/// Putting an element into a sorted array by its sort key leaves the array
/// sorted, in either direction.
pub proof fn lemma_insert_keeps_sorted(
    items: Seq<Json>,
    new_element: Json,
    sort_key: Seq<char>,
    ascending: bool,
)
    requires
        sorted_by(items, sort_key, ascending),
    ensures
        sorted_by(inserted(items, new_element, Some(sort_key), ascending), sort_key, ascending),
{
    let n = items.len() as int;
    let at = insertion_point(items, new_element.get(sort_key), sort_key, ascending);
    let after = items.insert(at, new_element);
    match new_element.get(sort_key) {
        None => {
            assert(at == n);
        },
        Some(value) => {
            let wanted = before_probe(value, sort_key, ascending);
            lemma_first_index(items, wanted);
            assert(0 <= at <= n);
            assert forall|i: int, j: int|
                0 <= i < j < after.len() && (#[trigger] after[i]).get(sort_key) is Some && (
                #[trigger] after[j]).get(sort_key) is Some implies in_order(
                after[i].get(sort_key)->0,
                after[j].get(sort_key)->0,
                ascending,
            ) by {
                let first = after[i].get(sort_key)->0;
                let second = after[j].get(sort_key)->0;
                if i == at {
                    // the new element, then one that stood at or after its place
                    let here = items[at];
                    let there = items[j - 1];
                    assert(after[j] == there);
                    assert(wanted(here));
                    let held = here.get(sort_key)->0;
                    if j - 1 > at {
                        assert(in_order(held, second, ascending));
                    }
                    lemma_value_order_antisymmetric(value, held);
                    lemma_value_order_antisymmetric(held, second);
                    lemma_value_order_antisymmetric(value, second);
                    if ascending {
                        if j - 1 > at {
                            lemma_value_order_transitive(value, held, second);
                        }
                    } else {
                        if j - 1 > at {
                            lemma_value_order_transitive(second, held, value);
                        }
                    }
                } else if j == at {
                    // one that stood before its place, then the new element
                    let there = items[i];
                    assert(after[i] == there);
                    assert(!wanted(there));
                    lemma_value_order_antisymmetric(value, first);
                } else {
                    let a = if i < at {
                        i
                    } else {
                        i - 1
                    };
                    let b = if j < at {
                        j
                    } else {
                        j - 1
                    };
                    assert(after[i] == items[a] && after[j] == items[b]);
                }
            }
        },
    }
}

/// The array after each of `news` has been put in by the sort key, one after
/// the other.
pub open spec fn inserted_all(
    items: Seq<Json>,
    news: Seq<Json>,
    sort_key: Seq<char>,
    ascending: bool,
) -> Seq<Json>
    decreases news.len(),
{
    if news.len() == 0 {
        items
    } else {
        inserted(
            inserted_all(items, news.drop_last(), sort_key, ascending),
            news.last(),
            Some(sort_key),
            ascending,
        )
    }
}

/// Whatever elements are put into a sorted array by the sort key, one after
/// the other, the array stays sorted: non-decreasing for ascending,
/// non-increasing for descending, over the elements that hold the sort key.
pub proof fn lemma_inserts_keep_sorted(
    items: Seq<Json>,
    news: Seq<Json>,
    sort_key: Seq<char>,
    ascending: bool,
)
    requires
        sorted_by(items, sort_key, ascending),
    ensures
        sorted_by(inserted_all(items, news, sort_key, ascending), sort_key, ascending),
    decreases news.len(),
{
    if news.len() > 0 {
        let earlier = news.drop_last();
        lemma_inserts_keep_sorted(items, earlier, sort_key, ascending);
        lemma_insert_keeps_sorted(
            inserted_all(items, earlier, sort_key, ascending),
            news.last(),
            sort_key,
            ascending,
        );
    }
}

/// An array without elements is sorted.
pub proof fn lemma_empty_is_sorted(sort_key: Seq<char>, ascending: bool)
    ensures
        sorted_by(Seq::empty(), sort_key, ascending),
{
}

/// Where a new element goes into a sorted array: no element before its
/// place comes after it, the element at its place comes strictly after it,
/// and no element from its place on comes before it.
pub proof fn lemma_insertion_point_splits(
    items: Seq<Json>,
    new_val: Json,
    sort_key: Seq<char>,
    ascending: bool,
)
    requires
        sorted_by(items, sort_key, ascending),
    ensures
        ({
            let at = insertion_point(items, Some(new_val), sort_key, ascending);
            &&& 0 <= at <= items.len()
            &&& forall|j: int|
                0 <= j < at && (#[trigger] items[j]).get(sort_key) is Some ==> in_order(
                    items[j].get(sort_key)->0,
                    new_val,
                    ascending,
                )
            &&& at < items.len() ==> belongs_before(items[at], new_val, sort_key, ascending)
            &&& forall|j: int|
                at <= j < items.len() && (#[trigger] items[j]).get(sort_key) is Some ==> in_order(
                    new_val,
                    items[j].get(sort_key)->0,
                    ascending,
                )
        }),
{
    let wanted = before_probe(new_val, sort_key, ascending);
    lemma_first_index(items, wanted);
    let at = insertion_point(items, Some(new_val), sort_key, ascending);
    assert forall|j: int|
        0 <= j < at && (#[trigger] items[j]).get(sort_key) is Some implies in_order(
        items[j].get(sort_key)->0,
        new_val,
        ascending,
    ) by {
        assert(!wanted(items[j]));
        lemma_value_order_antisymmetric(new_val, items[j].get(sort_key)->0);
    }
    assert forall|j: int|
        at <= j < items.len() && (#[trigger] items[j]).get(sort_key) is Some implies in_order(
        new_val,
        items[j].get(sort_key)->0,
        ascending,
    ) by {
        assert(wanted(items[at]));
        let held = items[at].get(sort_key)->0;
        let later = items[j].get(sort_key)->0;
        lemma_value_order_antisymmetric(new_val, held);
        lemma_value_order_antisymmetric(held, later);
        lemma_value_order_antisymmetric(new_val, later);
        if j > at {
            assert(in_order(held, later, ascending));
            if ascending {
                lemma_value_order_transitive(new_val, held, later);
            } else {
                lemma_value_order_transitive(later, held, new_val);
            }
        }
    }
}

/// Every element holds a value under `sort_key`, and each comes strictly
/// before every later one in the order asked for.
pub open spec fn strictly_sorted_by(
    items: Seq<Json>,
    sort_key: Seq<char>,
    ascending: bool,
) -> bool {
    &&& forall|i: int| 0 <= i < items.len() ==> (#[trigger] items[i]).get(sort_key) is Some
    &&& forall|i: int, j: int|
        0 <= i < j < items.len() ==> if ascending {
            value_order((#[trigger] items[i]).get(sort_key)->0, (#[trigger] items[j]).get(
                sort_key,
            )->0) < 0
        } else {
            value_order(items[i].get(sort_key)->0, items[j].get(sort_key)->0) > 0
        }
}

/// In an array whose sort values are strictly in order, deleting the first
/// match and putting the deleted element back in by the sort key gives the
/// document as it was.
pub proof fn lemma_delete_then_insert_restores(
    target: Json,
    field: Seq<char>,
    key: Seq<char>,
    value: Json,
    sort_key: Seq<char>,
    ascending: bool,
)
    requires
        target.get(field) matches Some(Json::Array(items)) && first_match(items, key, value)
            is Some && strictly_sorted_by(items, sort_key, ascending),
    ensures
        ({
            let items = target.get(field)->0->Array_0;
            let i = first_match(items, key, value)->0;
            array_insert_where(
                array_delete_where(target, field, key, value),
                field,
                items[i],
                Some(sort_key),
                ascending,
            ) == Ok::<Json, Error>(target)
        }),
{
    let items = target.get(field)->0->Array_0;
    lemma_first_index(items, crate::search::match_probe(key, value));
    let i = first_match(items, key, value)->0;
    let element = items[i];
    let rest = items.remove(i);
    let new_val = element.get(sort_key)->0;
    let wanted = before_probe(new_val, sort_key, ascending);
    assert forall|j: int| 0 <= j < i implies !wanted(#[trigger] rest[j]) by {
        assert(rest[j] == items[j]);
        lemma_value_order_antisymmetric(items[j].get(sort_key)->0, new_val);
    }
    if i < rest.len() {
        assert(rest[i] == items[i + 1]);
        assert(wanted(rest[i]));
        lemma_first_index_found(rest, wanted, i);
    } else {
        lemma_first_index_none(rest, wanted);
    }
    assert(insertion_point(rest, Some(new_val), sort_key, ascending) == i);
    assert(rest.insert(i, element) =~= items);
    let t = target->Object_0;
    assert(t.insert(field, Json::Array(rest)).insert(field, Json::Array(items)) =~= t);
}

/// Deleting the first match and putting the deleted element back in leaves
/// the array as it was but for the place of that element, and the rest of
/// the document as it was.
pub proof fn lemma_delete_then_insert(
    target: Json,
    field: Seq<char>,
    key: Seq<char>,
    value: Json,
    sort_key: Option<Seq<char>>,
    ascending: bool,
)
    requires
        target.get(field) matches Some(Json::Array(items)) && first_match(items, key, value)
            is Some,
    ensures
        ({
            let items = target.get(field)->0->Array_0;
            let i = first_match(items, key, value)->0;
            let deleted = array_delete_where(target, field, key, value);
            &&& deleted.get(field) == Some(Json::Array(items.remove(i)))
            &&& array_insert_where(deleted, field, items[i], sort_key, ascending) matches Ok(back)
            &&& back.get(field) matches Some(Json::Array(again))
            &&& again.len() == items.len()
            &&& exists|at: int|
                0 <= at < again.len() && again[at] == items[i] && #[trigger] again.remove(at)
                    == items.remove(i)
            &&& forall|other: Seq<char>| other != field ==> back.get(other) == target.get(other)
        }),
{
    let items = target.get(field)->0->Array_0;
    let wanted = crate::search::match_probe(key, value);
    lemma_first_index(items, wanted);
    let i = first_match(items, key, value)->0;
    let rest = items.remove(i);
    let deleted = array_delete_where(target, field, key, value);
    let back = array_insert_where(deleted, field, items[i], sort_key, ascending)->Ok_0;
    let again = back.get(field)->0->Array_0;
    match sort_key {
        Some(k) => {
            let at = insertion_point(rest, items[i].get(k), k, ascending);
            if items[i].get(k) is Some {
                lemma_first_index(rest, before_probe(items[i].get(k)->0, k, ascending));
            }
            assert(again == rest.insert(at, items[i]));
            assert(again.remove(at) =~= rest);
        },
        None => {
            assert(again == rest.push(items[i]));
            assert(again.remove(rest.len() as int) =~= rest);
        },
    }
}

} // verus!
