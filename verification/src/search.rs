//! Finding the element of an array that a key and a value single out.

use crate::value::{items_view, lemma_items_view, Json, Value};
use vstd::prelude::*;

verus! {

/// Arrays shorter than this are scanned one element at a time.
pub const SMALL_ARRAY: usize = 32;

/// The number of elements that the scan of a long array takes in one step.
pub const CHUNK: usize = 8;

/// `i` is the first position in `items` at which `wanted` holds.
pub open spec fn is_first_index(items: Seq<Json>, wanted: spec_fn(Json) -> bool, i: int) -> bool {
    &&& 0 <= i < items.len()
    &&& wanted(items[i])
    &&& forall|j: int| 0 <= j < i ==> !wanted(#[trigger] items[j])
}

/// The first position in `items` at which `wanted` holds.
pub open spec fn first_index(items: Seq<Json>, wanted: spec_fn(Json) -> bool) -> Option<int> {
    if exists|i: int| is_first_index(items, wanted, i) {
        Some(choose|i: int| is_first_index(items, wanted, i))
    } else {
        None
    }
}

/// A position that is first is the one that `first_index` gives.
pub proof fn lemma_first_index_found(items: Seq<Json>, wanted: spec_fn(Json) -> bool, i: int)
    requires
        is_first_index(items, wanted, i),
    ensures
        first_index(items, wanted) == Some(i),
{
    let c = choose|c: int| is_first_index(items, wanted, c);
    if c < i {
        assert(!wanted(items[c]));
    }
    if i < c {
        assert(!wanted(items[i]));
    }
}

/// Where `wanted` holds nowhere, `first_index` gives nothing.
pub proof fn lemma_first_index_none(items: Seq<Json>, wanted: spec_fn(Json) -> bool)
    requires
        forall|j: int| 0 <= j < items.len() ==> !wanted(#[trigger] items[j]),
    ensures
        first_index(items, wanted) is None,
{
    if exists|i: int| is_first_index(items, wanted, i) {
        let c = choose|c: int| is_first_index(items, wanted, c);
        assert(!wanted(items[c]));
    }
}

/// Where `wanted` holds somewhere, it holds somewhere first.
pub proof fn lemma_first_index_exists(items: Seq<Json>, wanted: spec_fn(Json) -> bool, k: int)
    requires
        0 <= k < items.len(),
        wanted(items[k]),
    ensures
        first_index(items, wanted) matches Some(i) && i <= k && is_first_index(items, wanted, i),
    decreases k,
{
    if forall|j: int| 0 <= j < k ==> !wanted(#[trigger] items[j]) {
        lemma_first_index_found(items, wanted, k);
    } else {
        let j = choose|j: int| 0 <= j < k && wanted(#[trigger] items[j]);
        lemma_first_index_exists(items, wanted, j);
    }
}

/// What `first_index` gives is the first position at which `wanted` holds,
/// or nothing where it holds nowhere.
pub proof fn lemma_first_index(items: Seq<Json>, wanted: spec_fn(Json) -> bool)
    ensures
        (match first_index(items, wanted) {
            Some(i) => is_first_index(items, wanted, i),
            None => forall|j: int| 0 <= j < items.len() ==> !wanted(#[trigger] items[j]),
        }),
{
    if first_index(items, wanted) is None {
        assert forall|j: int| 0 <= j < items.len() implies !wanted(#[trigger] items[j]) by {
            if wanted(items[j]) {
                lemma_first_index_exists(items, wanted, j);
            }
        }
    }
}

/// The element holds the integer `id` under `key`.
pub open spec fn holds_id(element: Json, key: Seq<char>, id: i64) -> bool {
    element.get(key) matches Some(field) && field.as_i64() == Some(id)
}

/// The element holds `value` under `key`. A value that is a signed 64-bit
/// integer is compared as that integer, any other value as a document.
pub open spec fn field_matches(element: Json, key: Seq<char>, value: Json) -> bool {
    match value.as_i64() {
        Some(id) => holds_id(element, key, id),
        None => element.get(key) == Some(value),
    }
}

/// The test for holding the integer `id` under `key`.
pub open spec fn id_probe(key: Seq<char>, id: i64) -> spec_fn(Json) -> bool {
    |element: Json| holds_id(element, key, id)
}

/// The test for holding `value` under `key`.
pub open spec fn match_probe(key: Seq<char>, value: Json) -> spec_fn(Json) -> bool {
    |element: Json| field_matches(element, key, value)
}

/// The first element of `items` that holds `value` under `key`.
pub open spec fn first_match(items: Seq<Json>, key: Seq<char>, value: Json) -> Option<int> {
    first_index(items, match_probe(key, value))
}

/// The position as the number it is.
pub open spec fn position(r: Option<usize>) -> Option<int> {
    match r {
        Some(i) => Some(i as int),
        None => None,
    }
}

/// Whether `element` holds the integer `id` under `key`.
fn element_holds_id(element: &Value, key: &String, id: i64) -> (r: bool)
    ensures
        r == holds_id(element@, key@, id),
{
    match element.get_key(key) {
        Some(field) => match field.as_i64() {
            Some(n) => n == id,
            None => false,
        },
        None => false,
    }
}

/// The first element of `array` that holds the integer `id` under `key`.
/// Short arrays are scanned element by element, long ones in chunks of
/// `CHUNK` with a scan of what is left over; the result is the same.
pub fn find_by_int_id_optimized(array: &[Value], key: &str, id: i64) -> (r: Option<usize>)
    ensures
        position(r) == first_index(items_view(array@), id_probe(key@, id)),
{
    let ghost items = items_view(array@);
    let ghost wanted = id_probe(key@, id);
    proof {
        lemma_items_view(array@);
    }
    let owned = key.to_owned();
    let n = array.len();
    let mut base: usize = 0;
    if n >= SMALL_ARRAY {
        while n - base >= CHUNK
            invariant
                base <= n,
                n == array.len(),
                items == items_view(array@),
                items.len() == n,
                owned@ == key@,
                wanted == id_probe(key@, id),
                forall|j: int| 0 <= j < n ==> #[trigger] items[j] == array@[j]@,
                forall|j: int| 0 <= j < base ==> !wanted(#[trigger] items[j]),
            decreases n - base,
        {
            let mut k: usize = 0;
            while k < CHUNK
                invariant
                    k <= CHUNK,
                    base + CHUNK <= n,
                    n == array.len(),
                    items == items_view(array@),
                    items.len() == n,
                    owned@ == key@,
                wanted == id_probe(key@, id),
                    forall|j: int| 0 <= j < n ==> #[trigger] items[j] == array@[j]@,
                    forall|j: int| 0 <= j < base + k ==> !wanted(#[trigger] items[j]),
                decreases CHUNK - k,
            {
                assert(items[base + k] == array@[base + k]@);
                if element_holds_id(&array[base + k], &owned, id) {
                    proof {
                        lemma_first_index_found(items, wanted, (base + k) as int);
                    }
                    return Some(base + k);
                }
                k += 1;
            }
            base += CHUNK;
        }
    }
    while base < n
        invariant
            base <= n,
            n == array.len(),
            items == items_view(array@),
            items.len() == n,
            owned@ == key@,
                wanted == id_probe(key@, id),
            forall|j: int| 0 <= j < n ==> #[trigger] items[j] == array@[j]@,
            forall|j: int| 0 <= j < base ==> !wanted(#[trigger] items[j]),
        decreases n - base,
    {
        assert(items[base as int] == array@[base as int]@);
        if element_holds_id(&array[base], &owned, id) {
            proof {
                lemma_first_index_found(items, wanted, base as int);
            }
            return Some(base);
        }
        base += 1;
    }
    proof {
        lemma_first_index_none(items, wanted);
    }
    None
}

/// The first element of `array` that holds `value` under `key`.
pub fn find_element_by_match(array: &[Value], key: &str, value: &Value) -> (r: Option<usize>)
    ensures
        position(r) == first_match(items_view(array@), key@, value@),
{
    match value.as_i64() {
        Some(id) => {
            assert(id_probe(key@, id) =~= match_probe(key@, value@));
            find_by_int_id_optimized(array, key, id)
        },
        None => {
            let ghost items = items_view(array@);
            let ghost wanted = match_probe(key@, value@);
            proof {
                lemma_items_view(array@);
            }
            let owned = key.to_owned();
            let mut i: usize = 0;
            while i < array.len()
                invariant
                    i <= array.len(),
                    items == items_view(array@),
                    items.len() == array.len(),
                    value@.as_i64() is None,
                    owned@ == key@,
                    wanted == match_probe(key@, value@),
                    forall|j: int| 0 <= j < array.len() ==> #[trigger] items[j] == array@[j]@,
                    forall|j: int| 0 <= j < i ==> !wanted(#[trigger] items[j]),
                decreases array.len() - i,
            {
                assert(items[i as int] == array@[i as int]@);
                let hit = match array[i].get_key(&owned) {
                    Some(field) => field.same(value),
                    None => false,
                };
                if hit {
                    proof {
                        lemma_first_index_found(items, wanted, i as int);
                    }
                    return Some(i);
                }
                i += 1;
            }
            proof {
                lemma_first_index_none(items, wanted);
            }
            None
        },
    }
}

} // verus!
