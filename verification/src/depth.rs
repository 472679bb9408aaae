//! The depth guard: a bound on how deeply a document nests, checked before
//! any recursive work is done on it.

use crate::text::{decimal, decimal_text};
use crate::value::{is_key_at, lemma_fields_map, lemma_items_view, Json, Value};
use vstd::prelude::*;
use vstd::string::StringExecFns;

verus! {

/// The nesting bound that callers apply to documents they did not build.
pub const MAX_JSONB_DEPTH: usize = 1000;

/// A document nests deeper than the bound it was held to.
#[derive(Debug)]
pub struct DepthExceeded {
    /// The bound that was exceeded.
    pub max_depth: usize,
}

impl DepthExceeded {
    /// What the message says: the bound, twice.
    pub open spec fn message_spec(max_depth: nat) -> Seq<char> {
        "JSONB nesting too deep (max "@ + decimal(max_depth) + ", found >"@ + decimal(max_depth)
            + ")"@
    }

    /// The message for the caller.
    pub fn message(&self) -> (r: String)
        ensures
            r@ == Self::message_spec(self.max_depth as nat),
    {
        let bound = decimal_text(self.max_depth as u64);
        let r = String::from_str("JSONB nesting too deep (max ");
        let r = r.concat(bound.as_str());
        let r = r.concat(", found >");
        let r = r.concat(bound.as_str());
        r.concat(")")
    }
}

/// No node of `j` lies more than `d` levels below its root. The root is at
/// level 0, and each array or object puts its members one level further down.
/// (The fields of a document are finitely many; of fields without end, which
/// no document has, nothing is asked.)
pub open spec fn within_depth(j: Json, d: nat) -> bool
    decreases j,
{
    match j {
        Json::Array(items) => {
            &&& items.len() > 0 ==> d > 0
            &&& forall|i: int|
                0 <= i < items.len() ==> within_depth(#[trigger] items[i], (d - 1) as nat)
        },
        Json::Object(m) => m.dom().finite() ==> {
            &&& m.dom().len() > 0 ==> d > 0
            &&& forall|k: Seq<char>|
                m.contains_key(k) ==> within_depth(#[trigger] m[k], (d - 1) as nat)
        },
        _ => true,
    }
}

/// `d` is the level of the deepest node of `j`.
pub open spec fn is_max_depth(j: Json, d: nat) -> bool {
    within_depth(j, d) && (d > 0 ==> !within_depth(j, (d - 1) as nat))
}

/// A document that keeps within one bound keeps within every larger one.
pub proof fn lemma_within_depth_monotonic(j: Json, d: nat, e: nat)
    requires
        within_depth(j, d),
        d <= e,
    ensures
        within_depth(j, e),
    decreases j,
{
    match j {
        Json::Array(items) => {
            assert forall|i: int| 0 <= i < items.len() implies within_depth(
                #[trigger] items[i],
                (e - 1) as nat,
            ) by {
                lemma_within_depth_monotonic(items[i], (d - 1) as nat, (e - 1) as nat);
            }
        },
        Json::Object(m) => {
            if m.dom().finite() {
                assert forall|k: Seq<char>| m.contains_key(k) implies within_depth(
                    #[trigger] m[k],
                    (e - 1) as nat,
                ) by {
                    assert(m.dom().len() > 0) by {
                        if m.dom().len() == 0 {
                            m.dom().lemma_len0_is_empty();
                        }
                    }
                    lemma_within_depth_monotonic(m[k], (d - 1) as nat, (e - 1) as nat);
                }
            }
        },
        _ => {},
    }
}

/// A document has one deepest level.
pub proof fn lemma_max_depth_unique(j: Json, d: nat, e: nat)
    requires
        is_max_depth(j, d),
        is_max_depth(j, e),
    ensures
        d == e,
{
    if d < e {
        lemma_within_depth_monotonic(j, d, (e - 1) as nat);
    }
    if e < d {
        lemma_within_depth_monotonic(j, e, (d - 1) as nat);
    }
}

/// A document keeps within a bound exactly when its deepest level does: a
/// document nested to the bound passes, one nested a level deeper does not.
pub proof fn lemma_depth_threshold(j: Json, deepest: nat, bound: nat)
    requires
        is_max_depth(j, deepest),
    ensures
        within_depth(j, bound) <==> deepest <= bound,
{
    if deepest <= bound {
        lemma_within_depth_monotonic(j, deepest, bound);
    } else if within_depth(j, bound) {
        lemma_within_depth_monotonic(j, bound, (deepest - 1) as nat);
    }
}

/// Whether no node of `val` lies more than `budget` levels below its root.
fn fits(val: &Value, budget: usize) -> (r: bool)
    ensures
        r == within_depth(val@, budget as nat),
    decreases val@,
{
    match val {
        Value::Array(items) => {
            let ghost view = crate::value::items_view(items@);
            proof {
                lemma_items_view(items@);
            }
            if items.len() > 0 && budget == 0 {
                return false;
            }
            let mut i: usize = 0;
            while i < items.len()
                invariant
                    i <= items.len(),
                    val@ == Json::Array(view),
                    view.len() == items.len(),
                    items.len() > 0 ==> budget > 0,
                    forall|j: int| 0 <= j < items.len() ==> #[trigger] view[j] == items@[j]@,
                    forall|j: int|
                        0 <= j < i ==> within_depth(#[trigger] view[j], (budget - 1) as nat),
                decreases items.len() - i,
            {
                assert(view[i as int] == items@[i as int]@);
                assert(decreases_to!(val@ => val@->Array_0));
                if !fits(&items[i], budget - 1) {
                    return false;
                }
                i += 1;
            }
            true
        },
        Value::Object(o) => {
            let n = o.len();
            let ghost fields = o.fields();
            proof {
                lemma_fields_map(fields);
            }
            if n > 0 && budget == 0 {
                return false;
            }
            let mut i: usize = 0;
            while i < n
                invariant
                    i <= n,
                    n == fields.len(),
                    fields == o.fields(),
                    val@ == Json::Object(o@),
                    o@.dom().finite(),
                    o@.dom().len() == n,
                    n > 0 ==> budget > 0,
                    forall|k: Seq<char>| #[trigger]
                        o@.contains_key(k) <==> exists|j: int| is_key_at(fields, k, j),
                    forall|j: int|
                        0 <= j < i ==> within_depth(
                            #[trigger] o@[fields[j].0],
                            (budget - 1) as nat,
                        ),
                decreases n - i,
            {
                let child = o.value_at(i);
                assert(is_key_at(fields, fields[i as int].0, i as int));
                assert(decreases_to!(val@ => val@->Object_0));
                if !fits(child, budget - 1) {
                    return false;
                }
                i += 1;
            }
            proof {
                assert forall|k: Seq<char>| o@.contains_key(k) implies within_depth(
                    #[trigger] o@[k],
                    (budget - 1) as nat,
                ) by {
                    let j = choose|j: int| is_key_at(fields, k, j);
                    assert(o@[fields[j].0] == o@[k]);
                }
            }
            true
        },
        _ => true,
    }
}

/// Checks that no node of `val` lies more than `max_depth` levels below its
/// root.
pub fn validate_depth(val: &Value, max_depth: usize) -> (r: Result<(), DepthExceeded>)
    ensures
        r is Ok <==> within_depth(val@, max_depth as nat),
        r matches Err(e) ==> e.max_depth == max_depth,
{
    if fits(val, max_depth) {
        Ok(())
    } else {
        Err(DepthExceeded { max_depth })
    }
}

/// The level of the deepest node of `val`: 0 for a scalar and for an empty
/// array or object. A depth that does not fit the result type comes back as
/// the largest value of that type.
pub fn get_max_depth(val: &Value) -> (r: usize)
    ensures
        r < usize::MAX ==> is_max_depth(val@, r as nat),
        r == usize::MAX ==> !within_depth(val@, (usize::MAX - 1) as nat),
    decreases val@,
{
    match val {
        Value::Array(items) => {
            let ghost view = crate::value::items_view(items@);
            proof {
                lemma_items_view(items@);
            }
            let mut deepest: usize = 0;
            let mut i: usize = 0;
            while i < items.len()
                invariant
                    i <= items.len(),
                    val@ == Json::Array(view),
                    view.len() == items.len(),
                    forall|j: int| 0 <= j < items.len() ==> #[trigger] view[j] == items@[j]@,
                    (i > 0) == (deepest > 0),
                    deepest < usize::MAX ==> forall|j: int|
                        0 <= j < i ==> within_depth(#[trigger] view[j], (deepest - 1) as nat),
                    deepest > 1 ==> exists|j: int|
                        0 <= j < i && !within_depth(#[trigger] view[j], (deepest - 2) as nat),
                decreases items.len() - i,
            {
                assert(view[i as int] == items@[i as int]@);
                assert(decreases_to!(val@ => val@->Array_0));
                let below = get_max_depth(&items[i]);
                let here = below.saturating_add(1);
                proof {
                    lemma_member_depth(view[i as int], below, here);
                }
                if here > deepest {
                    proof {
                        if here < usize::MAX {
                            assert forall|j: int| 0 <= j < i + 1 implies within_depth(
                                #[trigger] view[j],
                                (here - 1) as nat,
                            ) by {
                                if j < i {
                                    lemma_within_depth_monotonic(
                                        view[j],
                                        (deepest - 1) as nat,
                                        (here - 1) as nat,
                                    );
                                }
                            }
                        }
                    }
                    deepest = here;
                } else {
                    proof {
                        if deepest < usize::MAX {
                            lemma_within_depth_monotonic(
                                view[i as int],
                                below as nat,
                                (deepest - 1) as nat,
                            );
                        }
                    }
                }
                i += 1;
            }
            proof {
                if deepest > 1 {
                    let j = choose|j: int|
                        0 <= j < i && !within_depth(#[trigger] view[j], (deepest - 2) as nat);
                    assert(view[j] == val@->Array_0[j]);
                    assert(!within_depth(val@, (deepest - 1) as nat));
                }
            }
            deepest
        },
        Value::Object(o) => {
            let n = o.len();
            let ghost fields = o.fields();
            proof {
                lemma_fields_map(fields);
            }
            let mut deepest: usize = 0;
            let mut i: usize = 0;
            while i < n
                invariant
                    i <= n,
                    n == fields.len(),
                    fields == o.fields(),
                    val@ == Json::Object(o@),
                    o@.dom().finite(),
                    o@.dom().len() == n,
                    forall|k: Seq<char>| #[trigger]
                        o@.contains_key(k) <==> exists|j: int| is_key_at(fields, k, j),
                    (i > 0) == (deepest > 0),
                    deepest < usize::MAX ==> forall|j: int|
                        0 <= j < i ==> within_depth(
                            #[trigger] o@[fields[j].0],
                            (deepest - 1) as nat,
                        ),
                    deepest > 1 ==> exists|j: int|
                        0 <= j < i && !within_depth(
                            #[trigger] o@[fields[j].0],
                            (deepest - 2) as nat,
                        ),
                decreases n - i,
            {
                let child = o.value_at(i);
                assert(is_key_at(fields, fields[i as int].0, i as int));
                assert(decreases_to!(val@ => val@->Object_0));
                let below = get_max_depth(child);
                let here = below.saturating_add(1);
                proof {
                    lemma_member_depth(o@[fields[i as int].0], below, here);
                }
                if here > deepest {
                    proof {
                        if here < usize::MAX {
                            assert forall|j: int| 0 <= j < i + 1 implies within_depth(
                                #[trigger] o@[fields[j].0],
                                (here - 1) as nat,
                            ) by {
                                if j < i {
                                    lemma_within_depth_monotonic(
                                        o@[fields[j].0],
                                        (deepest - 1) as nat,
                                        (here - 1) as nat,
                                    );
                                }
                            }
                        }
                    }
                    deepest = here;
                } else {
                    proof {
                        if deepest < usize::MAX {
                            lemma_within_depth_monotonic(
                                o@[fields[i as int].0],
                                below as nat,
                                (deepest - 1) as nat,
                            );
                        }
                    }
                }
                i += 1;
            }
            proof {
                if deepest < usize::MAX {
                    assert forall|k: Seq<char>| o@.contains_key(k) implies within_depth(
                        #[trigger] o@[k],
                        (deepest - 1) as nat,
                    ) by {
                        let j = choose|j: int| is_key_at(fields, k, j);
                        assert(o@[fields[j].0] == o@[k]);
                    }
                }
                if deepest > 1 {
                    let j = choose|j: int|
                        0 <= j < i && !within_depth(
                            #[trigger] o@[fields[j].0],
                            (deepest - 2) as nat,
                        );
                    assert(is_key_at(fields, fields[j].0, j));
                    assert(o@.contains_key(fields[j].0));
                    assert(o@[fields[j].0] == val@->Object_0[fields[j].0]);
                    assert(!within_depth(val@, (deepest - 1) as nat));
                }
            }
            deepest
        },
        _ => 0,
    }
}

/// What the depth found for a member says of the level one above it.
proof fn lemma_member_depth(member: Json, below: usize, here: usize)
    requires
        below < usize::MAX ==> is_max_depth(member, below as nat),
        below == usize::MAX ==> !within_depth(member, (usize::MAX - 1) as nat),
        here == (if below < usize::MAX {
            below + 1
        } else {
            usize::MAX as int
        }),
    ensures
        here > 0,
        here < usize::MAX ==> within_depth(member, (here - 1) as nat),
        here > 1 ==> !within_depth(member, (here - 2) as nat),
{
    if below == usize::MAX && within_depth(member, (usize::MAX - 2) as nat) {
        lemma_within_depth_monotonic(member, (usize::MAX - 2) as nat, (usize::MAX - 1) as nat);
    }
}

} // verus!
