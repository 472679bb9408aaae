//! The order in which values are sorted when an element is put into a sorted
//! array.

use crate::rank::lemma_integer_rank_monotonic;
use crate::value::{Json, Number, NumberView, Value};
use vstd::prelude::*;
use vstd::utf8::encode_utf8;

verus! {

/// -1, 0 or 1 as `n` is negative, zero or positive.
pub open spec fn sign(n: int) -> int {
    if n < 0 {
        -1int
    } else if n > 0 {
        1int
    } else {
        0int
    }
}

/// The order of two byte strings: by the first byte in which they differ,
/// and a proper prefix before what it is a prefix of. The result is -1, 0 or
/// 1.
pub open spec fn bytes_order(a: Seq<u8>, b: Seq<u8>) -> int
    decreases a.len(),
{
    if a.len() == 0 {
        if b.len() == 0 {
            0int
        } else {
            -1int
        }
    } else if b.len() == 0 {
        1int
    } else if a[0] < b[0] {
        -1int
    } else if a[0] > b[0] {
        1int
    } else {
        bytes_order(a.skip(1), b.skip(1))
    }
}

/// The order of two numbers: as integers where both are signed 64-bit
/// integers, by the ranks of their floating values otherwise.
pub open spec fn number_order(a: NumberView, b: NumberView) -> int {
    match (a.as_i64(), b.as_i64()) {
        (Some(x), Some(y)) => sign(x - y),
        _ => sign(a.rank() - b.rank()),
    }
}

/// The place of a value's kind among the kinds: null first, then booleans,
/// numbers and strings; arrays and objects last, and not told apart.
pub open spec fn kind_rank(j: Json) -> int {
    match j {
        Json::Null => 0int,
        Json::Bool(_) => 1int,
        Json::Number(_) => 2int,
        Json::String(_) => 3int,
        Json::Array(_) => 4int,
        Json::Object(_) => 4int,
    }
}

/// The order of two values, as -1, 0 or 1.
///
/// Two numbers, two strings (byte by byte in UTF-8) and two booleans (false
/// first) are ordered among themselves. Values of different kinds are ordered
/// by their kinds, and so are values of a kind that has no order of its own:
/// two nulls are equal, and so are any two of arrays and objects.
pub open spec fn value_order(a: Json, b: Json) -> int {
    match (a, b) {
        (Json::Number(x), Json::Number(y)) => number_order(x, y),
        (Json::String(x), Json::String(y)) => bytes_order(encode_utf8(x), encode_utf8(y)),
        (Json::Bool(x), Json::Bool(y)) => if x == y {
            0int
        } else if y {
            -1int
        } else {
            1int
        },
        _ => sign(kind_rank(a) - kind_rank(b)),
    }
}

/// Swapping two byte strings turns their order round.
pub proof fn lemma_bytes_order_antisymmetric(a: Seq<u8>, b: Seq<u8>)
    ensures
        bytes_order(b, a) == -bytes_order(a, b),
    decreases a.len(),
{
    if a.len() > 0 && b.len() > 0 && a[0] == b[0] {
        lemma_bytes_order_antisymmetric(a.skip(1), b.skip(1));
    }
}

/// The order of byte strings is transitive.
pub proof fn lemma_bytes_order_transitive(a: Seq<u8>, b: Seq<u8>, c: Seq<u8>)
    requires
        bytes_order(a, b) <= 0,
        bytes_order(b, c) <= 0,
    ensures
        bytes_order(a, c) <= 0,
        bytes_order(a, b) < 0 || bytes_order(b, c) < 0 ==> bytes_order(a, c) < 0,
    decreases a.len(),
{
    if a.len() > 0 && b.len() > 0 && c.len() > 0 && a[0] == b[0] && b[0] == c[0] {
        lemma_bytes_order_transitive(a.skip(1), b.skip(1), c.skip(1));
    }
}

/// Swapping two values turns their order round.
pub proof fn lemma_value_order_antisymmetric(a: Json, b: Json)
    ensures
        value_order(b, a) == -value_order(a, b),
{
    match (a, b) {
        (Json::String(x), Json::String(y)) => {
            lemma_bytes_order_antisymmetric(encode_utf8(x), encode_utf8(y));
        },
        _ => {},
    }
}

/// Of two numbers that are signed 64-bit integers, the smaller has no larger
/// rank.
proof fn lemma_ranks_agree(a: Json, b: Json)
    ensures
        (a matches Json::Number(x) && b matches Json::Number(y) && x.as_i64() matches Some(p)
            && y.as_i64() matches Some(q) && p <= q) ==> a->Number_0.rank() <= b->Number_0.rank(),
{
    match (a, b) {
        (Json::Number(x), Json::Number(y)) => match (x.as_i64(), y.as_i64()) {
            (Some(p), Some(q)) => {
                if p <= q {
                    lemma_integer_rank_monotonic(p as int, q as int);
                }
            },
            _ => {},
        },
        _ => {},
    }
}

/// Of three values in a row, the first not after the second and the second
/// not after the third, with one of the two steps strict, the first is not
/// after the third.
pub proof fn lemma_value_order_transitive(a: Json, b: Json, c: Json)
    requires
        value_order(a, b) <= 0,
        value_order(b, c) <= 0,
        value_order(a, b) < 0 || value_order(b, c) < 0,
    ensures
        value_order(a, c) <= 0,
{
    lemma_ranks_agree(a, b);
    lemma_ranks_agree(b, a);
    lemma_ranks_agree(b, c);
    lemma_ranks_agree(c, b);
    lemma_ranks_agree(a, c);
    lemma_ranks_agree(c, a);
    match (a, b, c) {
        (Json::String(x), Json::String(y), Json::String(z)) => {
            lemma_bytes_order_transitive(encode_utf8(x), encode_utf8(y), encode_utf8(z));
        },
        _ => {},
    }
}

/// The order of two byte strings, as -1, 0 or 1.
pub fn compare_bytes(a: &[u8], b: &[u8]) -> (r: i8)
    ensures
        r == bytes_order(a@, b@),
        -1 <= r <= 1,
{
    let mut i: usize = 0;
    assert(a@.skip(0) =~= a@ && b@.skip(0) =~= b@);
    while i < a.len() && i < b.len()
        invariant
            i <= a.len(),
            i <= b.len(),
            bytes_order(a@, b@) == bytes_order(a@.skip(i as int), b@.skip(i as int)),
        decreases a.len() - i,
    {
        assert(a@.skip(i as int)[0] == a@[i as int]);
        assert(b@.skip(i as int)[0] == b@[i as int]);
        assert(a@.skip(i as int).skip(1) =~= a@.skip(i + 1));
        assert(b@.skip(i as int).skip(1) =~= b@.skip(i + 1));
        if a[i] < b[i] {
            return -1;
        }
        if a[i] > b[i] {
            return 1;
        }
        i += 1;
    }
    if i < b.len() {
        -1
    } else if i < a.len() {
        1
    } else {
        0
    }
}

/// The order of two numbers, as -1, 0 or 1.
pub fn compare_numbers(a: &Number, b: &Number) -> (r: i8)
    ensures
        r == number_order(a@, b@),
        -1 <= r <= 1,
{
    match (a.as_i64(), b.as_i64()) {
        (Some(x), Some(y)) => {
            if x < y {
                -1
            } else if x > y {
                1
            } else {
                0
            }
        },
        _ => {
            let left = a.rank();
            let right = b.rank();
            if left < right {
                -1
            } else if left > right {
                1
            } else {
                0
            }
        },
    }
}

/// The place of a value's kind among the kinds.
fn kind_place(v: &Value) -> (r: i8)
    ensures
        r == kind_rank(v@),
{
    match v {
        Value::Null => 0,
        Value::Bool(_) => 1,
        Value::Number(_) => 2,
        Value::String(_) => 3,
        Value::Array(_) => 4,
        Value::Object(_) => 4,
    }
}

/// The order of two values, as -1, 0 or 1.
pub fn order_of(a: &Value, b: &Value) -> (r: i8)
    ensures
        r == value_order(a@, b@),
        -1 <= r <= 1,
{
    match (a, b) {
        (Value::Number(x), Value::Number(y)) => compare_numbers(x, y),
        (Value::String(x), Value::String(y)) => compare_bytes(
            x.as_str().as_bytes(),
            y.as_str().as_bytes(),
        ),
        (Value::Bool(x), Value::Bool(y)) => {
            if *x == *y {
                0
            } else if *y {
                -1
            } else {
                1
            }
        },
        _ => {
            let left = kind_place(a);
            let right = kind_place(b);
            if left < right {
                -1
            } else if left > right {
                1
            } else {
                0
            }
        },
    }
}

} // verus!
