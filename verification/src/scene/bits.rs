//! Single-precision numbers as the bit patterns they are stored in.
//!
//! The library carries coordinates, colours and weights without computing with them, and asks of
//! them only what their bits answer: whether two are the same number, and which is the larger.

use vstd::prelude::*;

verus! {

/// A stored single-precision number.
pub type Bits = u32;

/// The bits of 0.0.
pub const ZERO: Bits = 0;

/// The bits of 1.0.
pub const ONE: Bits = 0x3F80_0000;

/// The bits of a number without its sign.
pub open spec fn magnitude(a: Bits) -> int {
    if a >= 0x8000_0000 {
        a - 0x8000_0000
    } else {
        a as int
    }
}

/// Whether a number is negative, counting the negative zero.
pub open spec fn signed(a: Bits) -> bool {
    a >= 0x8000_0000
}

/// Whether the bits are not a number.
pub open spec fn not_a_number(a: Bits) -> bool {
    magnitude(a) > 0x7F80_0000
}

/// Whether two stored numbers are equal: nothing equals what is not a number, and the two zeroes
/// equal each other.
pub open spec fn equal(a: Bits, b: Bits) -> bool {
    &&& !not_a_number(a)
    &&& !not_a_number(b)
    &&& a == b || (magnitude(a) == 0 && magnitude(b) == 0)
}

/// Where a stored number stands among all of them: an integer that orders as the numbers do, with
/// the negative zero below the positive one and what is not a number beyond the infinities.
pub open spec fn rank(a: Bits) -> int {
    if signed(a) {
        -1 - magnitude(a)
    } else {
        magnitude(a)
    }
}

/// Whether one stored number is greater than another.
pub open spec fn greater(a: Bits, b: Bits) -> bool {
    &&& !not_a_number(a)
    &&& !not_a_number(b)
    &&& !(magnitude(a) == 0 && magnitude(b) == 0)
    &&& rank(a) > rank(b)
}

/// Whether the bits are not a number.
pub fn is_nan(a: Bits) -> (r: bool)
    ensures
        r == not_a_number(a),
{
    if a >= 0x8000_0000 {
        a - 0x8000_0000 > 0x7F80_0000
    } else {
        a > 0x7F80_0000
    }
}

/// Whether the bits are either zero.
fn is_zero(a: Bits) -> (r: bool)
    ensures
        r == (magnitude(a) == 0),
{
    a == 0 || a == 0x8000_0000
}

/// Whether two stored numbers are equal.
pub fn eq(a: Bits, b: Bits) -> (r: bool)
    ensures
        r == equal(a, b),
{
    !is_nan(a) && !is_nan(b) && (a == b || (is_zero(a) && is_zero(b)))
}

/// Whether two pairs of stored numbers are equal.
pub open spec fn equal2(a: [Bits; 2], b: [Bits; 2]) -> bool {
    equal(a@[0], b@[0]) && equal(a@[1], b@[1])
}

/// Whether two triples of stored numbers are equal.
pub open spec fn equal3(a: [Bits; 3], b: [Bits; 3]) -> bool {
    equal(a@[0], b@[0]) && equal(a@[1], b@[1]) && equal(a@[2], b@[2])
}

/// Whether two pairs of stored numbers are equal.
pub fn eq2(a: [Bits; 2], b: [Bits; 2]) -> (r: bool)
    ensures
        r == equal2(a, b),
{
    eq(a[0], b[0]) && eq(a[1], b[1])
}

/// Whether two triples of stored numbers are equal.
pub fn eq3(a: [Bits; 3], b: [Bits; 3]) -> (r: bool)
    ensures
        r == equal3(a, b),
{
    eq(a[0], b[0]) && eq(a[1], b[1]) && eq(a[2], b[2])
}

/// Whether one stored number stands before another among all of them.
pub fn ranks_below(a: Bits, b: Bits) -> (r: bool)
    ensures
        r == (rank(a) < rank(b)),
{
    if a >= 0x8000_0000 {
        b < 0x8000_0000 || b < a
    } else {
        b < 0x8000_0000 && a < b
    }
}

/// Whether one stored number is greater than another.
pub fn is_greater(a: Bits, b: Bits) -> (r: bool)
    ensures
        r == greater(a, b),
{
    !is_nan(a) && !is_nan(b) && !(is_zero(a) && is_zero(b)) && ranks_below(b, a)
}

/// **Of two numbers that are numbers, one is greater or they are equal**, and never both.
pub proof fn law_numbers_are_ordered(a: Bits, b: Bits)
    requires
        !not_a_number(a),
        !not_a_number(b),
    ensures
        greater(a, b) || greater(b, a) || equal(a, b),
        !(greater(a, b) && greater(b, a)),
        !(greater(a, b) && equal(a, b)),
{
}

/// **Being greater is transitive.**
pub proof fn law_greater_is_transitive(a: Bits, b: Bits, c: Bits)
    requires
        greater(a, b),
        greater(b, c),
    ensures
        greater(a, c),
{
}

} // verus!
