//! Stored numbers rounded to whole ones.

use super::bits::{is_nan, magnitude, not_a_number, signed, Bits};
use vstd::arithmetic::power2::{lemma_pow2_pos, lemma_pow2_unfold, pow2};
use vstd::prelude::*;

verus! {

/// Two to a power.
pub(crate) fn power_of_two(n: u32) -> (r: u64)
    requires
        n <= 32,
    ensures
        r == pow2(n as nat),
        0 < r <= 0x1_0000_0000,
{
    let mut r: u64 = 1;
    let mut i: u32 = 0;
    proof {
        vstd::arithmetic::power2::lemma2_to64();
    }
    while i < n
        invariant
            i <= n <= 32,
            r == pow2(i as nat),
            pow2(32) == 0x1_0000_0000,
        decreases n - i,
    {
        proof {
            lemma_pow2_unfold((i + 1) as nat);
            if i + 1 < 32 {
                vstd::arithmetic::power2::lemma_pow2_strictly_increases((i + 1) as nat, 32);
            }
        }
        r = r * 2;
        i = i + 1;
    }
    proof {
        lemma_pow2_pos(n as nat);
        if n < 32 {
            vstd::arithmetic::power2::lemma_pow2_strictly_increases(n as nat, 32);
        }
    }
    r
}

/// How many eighths a stored number is, to the nearest whole one with a half going away from zero,
/// and kept within thirty-two bits. What is no number is none.
pub open spec fn eighths(a: Bits) -> int {
    let m = magnitude(a);
    let exponent = m / 0x80_0000;
    let digits = m % 0x80_0000 + 0x80_0000;
    if not_a_number(a) || exponent < 123 {
        0
    } else if exponent >= 156 {
        if signed(a) {
            i32::MIN as int
        } else {
            i32::MAX as int
        }
    } else {
        let whole = if exponent < 147 {
            let unit = pow2((147 - exponent) as nat) as int;
            (digits + unit / 2) / unit
        } else {
            digits * pow2((exponent - 147) as nat)
        };
        if signed(a) {
            if whole > 0x8000_0000 {
                i32::MIN as int
            } else {
                -whole
            }
        } else if whole > i32::MAX {
            i32::MAX as int
        } else {
            whole
        }
    }
}

/// How many eighths a stored number is, to the nearest whole one.
pub fn to_eighths(a: Bits) -> (r: i32)
    ensures
        r == eighths(a),
{
    let negative: bool = a >= 0x8000_0000;
    let m: u32 = if negative { a - 0x8000_0000 } else { a };
    let exponent: u32 = m / 0x80_0000;
    if is_nan(a) || exponent < 123 {
        return 0;
    }
    if exponent >= 156 {
        return if negative { i32::MIN } else { i32::MAX };
    }
    let digits: u64 = (m % 0x80_0000) as u64 + 0x80_0000;
    let whole: u64 = if exponent < 147 {
        let unit: u64 = power_of_two(147 - exponent);
        proof {
            assert((digits + unit / 2) / unit as int <= digits + unit / 2) by (nonlinear_arith)
                requires
                    unit >= 1,
                    digits >= 1,
            ;
        }
        (digits + unit / 2) / unit
    } else {
        let unit: u64 = power_of_two(exponent - 147);
        proof {
            vstd::arithmetic::power2::lemma2_to64();
            if exponent - 147 < 8 {
                vstd::arithmetic::power2::lemma_pow2_strictly_increases(
                    (exponent - 147) as nat,
                    8,
                );
            }
            assert(digits * unit <= 0x100_0000 * 256) by (nonlinear_arith)
                requires
                    digits <= 0x100_0000,
                    unit <= 256,
            ;
        }
        digits * unit
    };
    if negative {
        if whole > 0x8000_0000 {
            i32::MIN
        } else {
            (-(whole as i64)) as i32
        }
    } else if whole > 0x7FFF_FFFF {
        i32::MAX
    } else {
        whole as i32
    }
}

/// **What is counted in eighths is within half of one of the number counted**, away from the ends
/// of the range.
pub proof fn law_eighths_are_nearest(a: Bits)
    requires
        !not_a_number(a),
        123 <= magnitude(a) / 0x80_0000 < 147,
    ensures
        ({
            let unit = pow2((147 - magnitude(a) / 0x80_0000) as nat) as int;
            let digits = magnitude(a) % 0x80_0000 + 0x80_0000;
            let count = if signed(a) {
                -eighths(a)
            } else {
                eighths(a)
            };
            -unit <= 2 * (digits - count * unit) <= unit
        }),
{
    let exponent = magnitude(a) / 0x80_0000;
    let unit = pow2((147 - exponent) as nat) as int;
    let digits = magnitude(a) % 0x80_0000 + 0x80_0000;
    let count = (digits + unit / 2) / unit;
    lemma_pow2_unfold((147 - exponent) as nat);
    lemma_pow2_pos((146 - exponent) as nat);
    assert(unit % 2 == 0);
    assert(count * unit <= digits + unit / 2 < (count + 1) * unit) by (nonlinear_arith)
        requires
            unit > 0,
            count == (digits + unit / 2) / unit,
    ;
    assert((count + 1) * unit == count * unit + unit) by (nonlinear_arith);
    assert(count <= digits + unit / 2) by (nonlinear_arith)
        requires
            unit >= 1,
            digits >= 0,
            count == (digits + unit / 2) / unit,
    ;
    assert(unit <= 0x100_0000) by {
        vstd::arithmetic::power2::lemma2_to64();
        if 147 - exponent < 24 {
            vstd::arithmetic::power2::lemma_pow2_strictly_increases((147 - exponent) as nat, 24);
        }
    }
}

} // verus!
