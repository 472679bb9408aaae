//! The rank of a number's floating value: an integer that is smaller, equal
//! or larger as the floating value is. Ranks stand in for floating values
//! wherever numbers are ordered; no floating-point arithmetic is done.
//!
//! The rank of a floating value is its binary encoding, read as a sign and
//! a magnitude. The rank of an integer is that of the floating value nearest
//! to it: the integer rounded to 53 binary digits, to the even neighbour
//! where two are equally near.

use vstd::prelude::*;

verus! {

/// Two to the power 52: the weight of the exponent in a rank.
pub const TWO_52: u64 = 0x10_0000_0000_0000;

/// Two to the power 53: below it every integer is a floating value.
pub const TWO_53: u64 = 0x20_0000_0000_0000;

/// The exponent that stands in the rank of an integer of 53 binary digits.
pub const UNIT_EXPONENT: u64 = 1075;

/// The place of a floating value, given by its 64 bits, among all floating
/// values: the bits read as a sign and a magnitude. Of two floating values
/// the smaller has the smaller rank, and the two zeros share the rank 0.
pub open spec fn float_rank(bits: u64) -> int {
    if bits < 0x8000_0000_0000_0000 {
        bits as int
    } else {
        0x8000_0000_0000_0000 - bits
    }
}

/// How far `v` is below 53 binary digits.
pub open spec fn room(v: nat) -> nat {
    if v < TWO_52 {
        (TWO_52 - v) as nat
    } else {
        0
    }
}

/// The rank of `v` times two to the power `e - 1075`, for a `v` of at most
/// 53 binary digits: `v` is doubled, and `e` lowered, until `v` has 53
/// digits.
pub open spec fn scaled_up(v: nat, e: int) -> int
    decreases room(v),
{
    if v == 0 || v >= TWO_52 {
        e * TWO_52 + (v - TWO_52)
    } else {
        scaled_up(2 * v, e - 1)
    }
}

/// The rank of the floating value nearest to `v` times two to the power
/// `e - 1075`, where binary digits have been cut off below `v` already:
/// `guard` is the last digit cut off, `sticky` whether any digit before it
/// was a one. `v` is halved, and `e` raised, until `v` has 53 digits; then it
/// is rounded up where what was cut off is more than a half, or is a half
/// and `v` is odd.
pub open spec fn scaled_down(v: nat, e: int, guard: bool, sticky: bool) -> int
    decreases v,
{
    if v < TWO_53 {
        let up: int = if guard && (sticky || v % 2 == 1) {
            1
        } else {
            0
        };
        e * TWO_52 + (v + up - TWO_52)
    } else {
        scaled_down(v / 2, e + 1, v % 2 == 1, sticky || guard)
    }
}

/// The rank of the floating value nearest to the natural number `v`.
pub open spec fn nearest_rank(v: nat) -> int {
    if v == 0 {
        0
    } else if v < TWO_53 {
        scaled_up(v, UNIT_EXPONENT as int)
    } else {
        scaled_down(v, UNIT_EXPONENT as int, false, false)
    }
}

/// The rank of the floating value nearest to the integer `value`.
pub open spec fn integer_rank(value: int) -> int {
    if value < 0 {
        -nearest_rank((-value) as nat)
    } else {
        nearest_rank(value as nat)
    }
}

/// What is cut off below `v`, as a number from 0 to 3: nothing, less than a
/// half, a half, more than a half.
spec fn cut(guard: bool, sticky: bool) -> int {
    (if guard {
        2int
    } else {
        0int
    }) + (if sticky {
        1int
    } else {
        0int
    })
}

/// `scaled_up` keeps within the ranks of its exponent.
proof fn lemma_scaled_up_bounds(v: nat, e: int)
    requires
        0 < v < TWO_53,
    ensures
        scaled_up(v, e) < (e + 1) * TWO_52,
        v >= TWO_52 ==> scaled_up(v, e) >= e * TWO_52,
    decreases room(v),
{
    if v < TWO_52 {
        lemma_scaled_up_bounds(2 * v, e - 1);
    }
}

/// `scaled_up` grows with `v`.
proof fn lemma_scaled_up_monotonic(a: nat, b: nat, e: int)
    requires
        0 < a <= b < TWO_53,
    ensures
        scaled_up(a, e) <= scaled_up(b, e),
    decreases room(a),
{
    if a >= TWO_52 {
    } else if b >= TWO_52 {
        lemma_scaled_up_bounds(2 * a, e - 1);
    } else {
        lemma_scaled_up_monotonic(2 * a, 2 * b, e - 1);
    }
}

/// `scaled_down` does not fall below the ranks of its exponent.
proof fn lemma_scaled_down_bounds(v: nat, e: int, guard: bool, sticky: bool)
    requires
        v >= TWO_52,
    ensures
        scaled_down(v, e, guard, sticky) >= e * TWO_52,
        v >= TWO_53 ==> scaled_down(v, e, guard, sticky) >= (e + 1) * TWO_52,
        v < TWO_53 ==> scaled_down(v, e, guard, sticky) <= (e + 1) * TWO_52,
    decreases v,
{
    if v >= TWO_53 {
        lemma_scaled_down_bounds(v / 2, e + 1, v % 2 == 1, sticky || guard);
    }
}

/// `scaled_down` grows with `v` and with what is cut off below it.
proof fn lemma_scaled_down_monotonic(
    a: nat,
    guard_a: bool,
    sticky_a: bool,
    b: nat,
    guard_b: bool,
    sticky_b: bool,
    e: int,
)
    requires
        TWO_52 <= a,
        4 * a + cut(guard_a, sticky_a) <= 4 * b + cut(guard_b, sticky_b),
    ensures
        scaled_down(a, e, guard_a, sticky_a) <= scaled_down(b, e, guard_b, sticky_b),
    decreases b,
{
    if b < TWO_53 {
    } else if a < TWO_53 {
        lemma_scaled_down_bounds(a, e, guard_a, sticky_a);
        lemma_scaled_down_bounds(b, e, guard_b, sticky_b);
    } else {
        lemma_scaled_down_monotonic(
            a / 2,
            a % 2 == 1,
            sticky_a || guard_a,
            b / 2,
            b % 2 == 1,
            sticky_b || guard_b,
            e + 1,
        );
    }
}

/// Of two natural numbers the smaller has no larger rank.
pub proof fn lemma_nearest_rank_monotonic(a: nat, b: nat)
    requires
        a <= b,
    ensures
        0 <= nearest_rank(a) <= nearest_rank(b),
{
    let e = UNIT_EXPONENT as int;
    if b > 0 {
        if b < TWO_53 {
            lemma_scaled_up_bounds(b, e);
            lemma_scaled_up_positive(b, e);
        } else {
            lemma_scaled_down_bounds(b, e, false, false);
        }
    }
    if a == 0 {
    } else if b < TWO_53 {
        lemma_scaled_up_monotonic(a, b, e);
        lemma_scaled_up_positive(a, e);
    } else if a < TWO_53 {
        lemma_scaled_up_bounds(a, e);
        lemma_scaled_up_positive(a, e);
        lemma_scaled_down_bounds(b, e, false, false);
    } else {
        lemma_scaled_down_monotonic(a, false, false, b, false, false, e);
        lemma_scaled_down_bounds(a, e, false, false);
    }
}

/// The number of doublings that bring `v` up to 53 binary digits.
spec fn doublings(v: nat) -> nat
    decreases room(v),
{
    if v == 0 || v >= TWO_52 {
        0
    } else {
        1 + doublings(2 * v)
    }
}

/// The larger number needs no more doublings.
proof fn lemma_doublings_fewer(a: nat, b: nat)
    requires
        0 < a <= b,
    ensures
        doublings(b) <= doublings(a),
    decreases room(a),
{
    if b < TWO_52 {
        lemma_doublings_fewer(2 * a, 2 * b);
    }
}

/// The number one needs 52 doublings.
proof fn lemma_doublings_of_one()
    ensures
        doublings(1) == 52,
{
    reveal_with_fuel(doublings, 54);
}

/// Each doubling lowers the exponent in the rank by one.
proof fn lemma_scaled_up_floor(v: nat, e: int)
    requires
        0 < v,
    ensures
        scaled_up(v, e) >= (e - doublings(v)) * TWO_52,
    decreases room(v),
{
    if v < TWO_52 {
        lemma_scaled_up_floor(2 * v, e - 1);
    }
}

/// The rank of a positive integer is positive.
proof fn lemma_scaled_up_positive(v: nat, e: int)
    requires
        0 < v < TWO_53,
        e >= 53,
    ensures
        scaled_up(v, e) > 0,
{
    lemma_scaled_up_floor(v, e);
    lemma_doublings_fewer(1, v);
    lemma_doublings_of_one();
}

/// Of two integers the smaller has no larger rank.
pub proof fn lemma_integer_rank_monotonic(a: int, b: int)
    requires
        a <= b,
    ensures
        integer_rank(a) <= integer_rank(b),
{
    if a >= 0 {
        lemma_nearest_rank_monotonic(a as nat, b as nat);
    } else if b < 0 {
        lemma_nearest_rank_monotonic((-b) as nat, (-a) as nat);
    } else {
        lemma_nearest_rank_monotonic(0, (-a) as nat);
        lemma_nearest_rank_monotonic(0, b as nat);
    }
}

/// The number of halvings that bring `v` down to 53 binary digits.
spec fn halvings(v: nat) -> nat
    decreases v,
{
    if v < TWO_53 {
        0
    } else {
        1 + halvings(v / 2)
    }
}

/// The smaller number needs no more halvings.
proof fn lemma_halvings_fewer(a: nat, b: nat)
    requires
        a <= b,
    ensures
        halvings(a) <= halvings(b),
    decreases b,
{
    if a >= TWO_53 {
        lemma_halvings_fewer(a / 2, b / 2);
    }
}

/// The largest number of 64 binary digits needs 11 halvings.
proof fn lemma_halvings_of_most()
    ensures
        halvings(0xffff_ffff_ffff_ffff) == 11,
{
    reveal_with_fuel(halvings, 13);
}

/// The rank of the floating value with these bits.
pub fn rank_of_float(bits: u64) -> (r: i64)
    ensures
        r == float_rank(bits),
{
    if bits < 0x8000_0000_0000_0000 {
        bits as i64
    } else {
        -((bits - 0x8000_0000_0000_0000) as i64)
    }
}

/// The rank of the floating value nearest to `v`.
pub fn rank_of_natural(v: u64) -> (r: i64)
    ensures
        r == nearest_rank(v as nat),
{
    if v == 0 {
        return 0;
    }
    let mut m: u64 = v;
    let mut e: i64 = 1075;
    if v < TWO_53 {
        proof {
            lemma_doublings_fewer(1, v as nat);
            lemma_doublings_of_one();
        }
        while m < TWO_52
            invariant
                0 < m < TWO_53,
                scaled_up(v as nat, 1075) == scaled_up(m as nat, e as int),
                e - doublings(m as nat) == 1075 - doublings(v as nat),
                doublings(v as nat) <= 52,
            decreases room(m as nat),
        {
            m = m * 2;
            e = e - 1;
        }
        e * (TWO_52 as i64) + ((m - TWO_52) as i64)
    } else {
        let mut guard = false;
        let mut sticky = false;
        proof {
            lemma_halvings_fewer(v as nat, 0xffff_ffff_ffff_ffff);
            lemma_halvings_of_most();
        }
        while m >= TWO_53
            invariant
                m >= TWO_52,
                scaled_down(v as nat, 1075, false, false) == scaled_down(
                    m as nat,
                    e as int,
                    guard,
                    sticky,
                ),
                e + halvings(m as nat) == 1075 + halvings(v as nat),
                halvings(v as nat) <= 11,
            decreases m,
        {
            sticky = sticky || guard;
            guard = m % 2 == 1;
            m = m / 2;
            e = e + 1;
        }
        let up: u64 = if guard && (sticky || m % 2 == 1) {
            1
        } else {
            0
        };
        e * (TWO_52 as i64) + ((m + up - TWO_52) as i64)
    }
}

/// The rank of the floating value nearest to `value`.
pub fn rank_of_integer(value: i64) -> (r: i64)
    ensures
        r == integer_rank(value as int),
{
    if value >= 0 {
        rank_of_natural(value as u64)
    } else {
        let magnitude: u64 = if value == i64::MIN {
            0x8000_0000_0000_0000
        } else {
            (-value) as u64
        };
        proof {
            lemma_nearest_rank_monotonic(magnitude as nat, magnitude as nat);
        }
        -rank_of_natural(magnitude)
    }
}

} // verus!
