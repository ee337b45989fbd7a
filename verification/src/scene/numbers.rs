//! Whole numbers as single-precision ones.

use super::bits::Bits;
use vstd::arithmetic::power2::{lemma2_to64, lemma_pow2_pos, lemma_pow2_unfold, pow2};
use vstd::prelude::*;

verus! {

/// How many binary digits `m` has beyond the twenty-four a single-precision number keeps.
pub open spec fn excess(m: nat) -> nat
    decreases m,
{
    if m < 0x100_0000 {
        0
    } else {
        1 + excess(m / 2)
    }
}

/// How many binary digits `m` is short of twenty-four.
pub open spec fn shortfall(m: nat) -> nat
    decreases 0x100_0000 - m,
{
    if m == 0 || m >= 0x80_0000 {
        0
    } else {
        1 + shortfall(2 * m)
    }
}

/// How many of `unit` come nearest to `m`, an exact half going to the even count.
pub open spec fn nearest(m: nat, unit: nat) -> nat {
    let q = m / unit;
    let r = m % unit;
    if 2 * r > unit || (2 * r == unit && q % 2 == 1) {
        q + 1
    } else {
        q
    }
}

/// `m` rounded to twenty-four binary digits.
pub open spec fn rounded(m: nat) -> nat {
    nearest(m, pow2(excess(m))) * pow2(excess(m))
}

/// The bits of a number of twenty-four binary digits or fewer, times two to the power `scale`.
pub open spec fn encoded(negative: bool, m: nat, scale: int) -> int {
    if m == 0 {
        0
    } else {
        let d = shortfall(m);
        (if negative {
            0x8000_0000int
        } else {
            0int
        }) + (150 - d + scale) * 0x80_0000 + (m * pow2(d) - 0x80_0000)
    }
}

/// The size of a whole number.
pub open spec fn size_of(n: int) -> nat {
    if n < 0 {
        (-n) as nat
    } else {
        n as nat
    }
}

/// A whole number as the single-precision number nearest to it, an exact half going to even.
pub open spec fn float_of(n: int) -> int {
    let m = size_of(n);
    let k = excess(m);
    let q = nearest(m, pow2(k));
    if q == 0x100_0000 {
        encoded(n < 0, 0x80_0000, (k + 1) as int)
    } else {
        encoded(n < 0, q, k as int)
    }
}

/// What a whole number is after it is rounded to single precision.
pub open spec fn rounded_int(n: int) -> int {
    if n < 0 {
        -(rounded(size_of(n)) as int)
    } else {
        rounded(size_of(n)) as int
    }
}

/// A number of too many digits loses exactly that many to leave twenty-four.
proof fn lemma_excess(m: nat, k: nat)
    requires
        m >= 0x80_0000,
        0x80_0000 * pow2(k) <= m < 0x100_0000 * pow2(k),
    ensures
        excess(m) == k,
    decreases k,
{
    lemma2_to64();
    if k > 0 {
        lemma_pow2_unfold(k);
        let p = pow2((k - 1) as nat) as int;
        let half = m as int / 2;
        lemma_pow2_pos((k - 1) as nat);
        assert(0x80_0000 * p <= half && half < 0x100_0000 * p && half >= 0x80_0000 && m
            >= 0x100_0000) by (nonlinear_arith)
            requires
                0x80_0000 * (2 * p) <= m,
                m < 0x100_0000 * (2 * p),
                half == m as int / 2,
                p >= 1,
        ;
        lemma_excess((m / 2) as nat, (k - 1) as nat);
    }
}

/// A number of too few digits takes exactly so many doublings to reach twenty-four.
proof fn lemma_shortfall(m: nat, d: nat)
    requires
        m > 0,
        0x80_0000 <= m * pow2(d) < 0x100_0000,
    ensures
        shortfall(m) == d,
    decreases d,
{
    lemma2_to64();
    if d == 0 {
        assert(m * pow2(0) == m);
    } else {
        lemma_pow2_unfold(d);
        let p = pow2((d - 1) as nat) as int;
        lemma_pow2_pos((d - 1) as nat);
        assert((2 * m) * p == m * (2 * p)) by (nonlinear_arith);
        assert(m < 0x80_0000) by (nonlinear_arith)
            requires
                m * (2 * p) < 0x100_0000,
                p >= 1,
        ;
        lemma_shortfall(2 * m, (d - 1) as nat);
    }
}

/// The bits of a number of twenty-four binary digits or fewer, times two to the power `scale`.
fn encode(negative: bool, m: u32, scale: u32) -> (r: Bits)
    requires
        m < 0x100_0000,
        scale <= 60,
    ensures
        r == encoded(negative, m as nat, scale as int),
{
    if m == 0 {
        return 0;
    }
    let mut mantissa: u32 = m;
    let mut exponent: u32 = 150;
    proof {
        lemma2_to64();
        assert(m * pow2(0) == m);
    }
    while mantissa < 0x80_0000
        invariant
            0 < m,
            0 < mantissa < 0x100_0000,
            126 < exponent <= 150,
            mantissa == m * pow2((150 - exponent) as nat),
            mantissa >= pow2((150 - exponent) as nat),
        decreases 0x100_0000 - mantissa,
    {
        proof {
            let d = (150 - exponent) as nat;
            lemma_pow2_unfold(d + 1);
            let p = pow2(d) as int;
            assert(m * (2 * p) == 2 * (m * p)) by (nonlinear_arith);
            if exponent == 127 {
                lemma2_to64();
                assert(pow2(23) == 0x80_0000);
            }
        }
        mantissa = mantissa * 2;
        exponent = exponent - 1;
    }
    proof {
        lemma_shortfall(m as nat, (150 - exponent) as nat);
    }
    let sign: u32 = if negative { 0x8000_0000 } else { 0 };
    sign + (exponent + scale) * 0x80_0000 + (mantissa - 0x80_0000)
}

/// How many of a power of two come nearest to a number, and which power: the one that leaves
/// twenty-four binary digits.
fn narrow(m: u64) -> (r: (u32, u32))
    requires
        m < 0x40_0000_0000_0000,
    ensures
        r.1 == excess(m as nat),
        r.1 <= 30,
        r.0 == nearest(m as nat, pow2(excess(m as nat))),
        r.0 <= 0x100_0000,
{
    proof {
        lemma2_to64();
    }
    if m < 0x100_0000 {
        proof {
            assert(pow2(0) == 1);
            assert(m as nat / 1 == m && m as nat % 1 == 0);
        }
        return (m as u32, 0);
    }
    let mut unit: u64 = 2;
    let mut k: u32 = 1;
    while m / unit >= 0x100_0000
        invariant
            0x100_0000 <= m < 0x40_0000_0000_0000,
            1 <= k <= 30,
            unit == pow2(k as nat),
            unit >= 1,
            0x80_0000 * unit <= m,
        decreases 31 - k,
    {
        proof {
            lemma2_to64();
            lemma_pow2_unfold((k + 1) as nat);
            let (mm, u) = (m as int, unit as int);
            assert(u * (mm / u) <= mm) by (nonlinear_arith)
                requires
                    u > 0,
            ;
            assert(0x100_0000 * u <= mm) by (nonlinear_arith)
                requires
                    u * (mm / u) <= mm,
                    mm / u >= 0x100_0000,
                    u > 0,
            ;
            if k == 30 {
                assert(pow2(30) == 0x4000_0000);
            }
        }
        unit = unit * 2;
        k = k + 1;
    }
    let q: u64 = m / unit;
    let r: u64 = m % unit;
    proof {
        let (mm, u) = (m as int, unit as int);
        lemma2_to64();
        lemma_pow2_pos(k as nat);
        assert(mm < 0x100_0000 * u) by (nonlinear_arith)
            requires
                mm / u < 0x100_0000,
                u > 0,
        ;
        lemma_excess(m as nat, k as nat);
        vstd::arithmetic::power2::lemma_pow2_strictly_increases(k as nat, 32);
    }
    let up: bool = 2 * r > unit || (2 * r == unit && q % 2 == 1);
    (
        if up {
            q as u32 + 1
        } else {
            q as u32
        },
        k,
    )
}

/// A whole number as the single-precision number nearest to it.
pub fn to_bits(n: i64) -> (r: Bits)
    requires
        -0x40_0000_0000_0000 < n < 0x40_0000_0000_0000,
    ensures
        r == float_of(n as int),
{
    let negative: bool = n < 0;
    let m: u64 = if negative { (-n) as u64 } else { n as u64 };
    assert(m == size_of(n as int));
    let (q, k): (u32, u32) = narrow(m);
    if q == 0x100_0000 {
        encode(negative, 0x80_0000, k + 1)
    } else {
        encode(negative, q, k)
    }
}

/// What a whole number is after it is rounded to single precision.
pub fn to_rounded(n: i64) -> (r: i64)
    requires
        -0x1_0000_0000 < n < 0x1_0000_0000,
    ensures
        r == rounded_int(n as int),
        -0x1_0000_0000 <= r <= 0x1_0000_0000,
{
    let negative: bool = n < 0;
    let m: u64 = if negative { (-n) as u64 } else { n as u64 };
    assert(m == size_of(n as int));
    let (q, k): (u32, u32) = narrow(m);
    let mut value: u64 = q as u64;
    let mut i: u32 = 0;
    proof {
        lemma2_to64();
        assert(q * pow2(0) == q);
        lemma_rounding_stays_close(m as nat, k as nat);
    }
    while i < k
        invariant
            i <= k <= 30,
            value == q * pow2(i as nat),
            q * pow2(k as nat) <= 0x1_0000_0000,
        decreases k - i,
    {
        proof {
            lemma_pow2_unfold((i + 1) as nat);
            vstd::arithmetic::power2::lemma_pow2_strictly_increases(i as nat, k as nat);
            let (p, e, qq) = (pow2(i as nat) as int, pow2(k as nat) as int, q as int);
            lemma_pow2_unfold((i + 1) as nat);
            if i + 1 < k {
                vstd::arithmetic::power2::lemma_pow2_strictly_increases((i + 1) as nat, k as nat);
            }
            assert(qq * (2 * p) == 2 * (qq * p) && qq * (2 * p) <= qq * e) by (nonlinear_arith)
                requires
                    2 * p <= e,
                    qq >= 0,
                    p >= 0,
            ;
        }
        value = value * 2;
        i = i + 1;
    }
    if negative {
        -(value as i64)
    } else {
        value as i64
    }
}

/// Rounding a number below two to the thirty-second leaves it no larger than that.
proof fn lemma_rounding_stays_close(m: nat, k: nat)
    requires
        m < 0x1_0000_0000,
        k == excess(m),
    ensures
        nearest(m, pow2(k)) * pow2(k) <= 0x1_0000_0000,
{
    lemma2_to64();
    if m < 0x100_0000 {
        assert(pow2(0) == 1);
        assert(m / 1 == m && m % 1 == 0);
    } else {
        lemma_excess_bound(m, 8);
        let u = pow2(k) as int;
        let q = m as int / u;
        lemma_pow2_pos(k);
        // Two to the thirty-second is a whole number of units, so rounding up cannot pass it.
        let whole = pow2((32 - k) as nat) as int;
        vstd::arithmetic::power2::lemma_pow2_adds((32 - k) as nat, k);
        assert(pow2(32) == 0x1_0000_0000);
        assert(whole * u == 0x1_0000_0000);
        assert(q < whole) by (nonlinear_arith)
            requires
                q == m as int / u,
                m < whole * u,
                u > 0,
        ;
        assert((q + 1) * u <= whole * u) by (nonlinear_arith)
            requires
                q + 1 <= whole,
                u > 0,
        ;
        assert(q * u <= (q + 1) * u) by (nonlinear_arith)
            requires
                u > 0,
        ;
    }
}

/// A number below twenty-four and some more digits has no more than so many too many.
proof fn lemma_excess_bound(m: nat, k: nat)
    requires
        m < 0x100_0000 * pow2(k),
    ensures
        excess(m) <= k,
    decreases k,
{
    lemma2_to64();
    if k == 0 {
        assert(pow2(0) == 1);
    } else if m >= 0x100_0000 {
        lemma_pow2_unfold(k);
        let p = pow2((k - 1) as nat) as int;
        assert(m as int / 2 < 0x100_0000 * p) by (nonlinear_arith)
            requires
                m < 0x100_0000 * (2 * p),
        ;
        lemma_excess_bound(m / 2, (k - 1) as nat);
    }
}

/// A number from one to twenty-four binary digits is stored with an exponent of at least 127.
pub proof fn lemma_encoded_at_least(m: nat)
    requires
        1 <= m < 0x100_0000,
    ensures
        encoded(false, m, 0) >= 127 * 0x80_0000,
        0x80_0000 <= m * pow2(shortfall(m)) < 0x100_0000,
{
    lemma2_to64();
    lemma_shortfall_reaches(m);
    assert(pow2(23) == 0x80_0000);
    lemma_shortfall_bound(m, 23);
}

/// Doubling a number by its shortfall gives it twenty-four binary digits.
proof fn lemma_shortfall_reaches(m: nat)
    requires
        1 <= m < 0x100_0000,
    ensures
        0x80_0000 <= m * pow2(shortfall(m)) < 0x100_0000,
    decreases 0x100_0000 - m,
{
    lemma2_to64();
    if m < 0x80_0000 {
        lemma_shortfall_reaches(2 * m);
        let d = shortfall(2 * m);
        lemma_pow2_unfold(d + 1);
        let p = pow2(d) as int;
        assert((2 * m) * p == m * (2 * p)) by (nonlinear_arith);
    } else {
        assert(m * pow2(0) == m);
    }
}

/// A number of at least some binary digits is short of no more than the rest.
proof fn lemma_shortfall_bound(m: nat, d: nat)
    requires
        m >= 1,
        m * pow2(d) >= 0x80_0000,
    ensures
        shortfall(m) <= d,
    decreases d,
{
    lemma2_to64();
    if d == 0 {
        assert(m * pow2(0) == m);
    } else if m < 0x80_0000 {
        lemma_pow2_unfold(d);
        let p = pow2((d - 1) as nat) as int;
        assert((2 * m) * p == m * (2 * p)) by (nonlinear_arith);
        lemma_shortfall_bound(2 * m, (d - 1) as nat);
    }
}

/// **A whole number of twenty-four binary digits or fewer is kept exactly.**
pub proof fn law_small_numbers_are_exact(n: int)
    requires
        -0x100_0000 < n < 0x100_0000,
    ensures
        rounded_int(n) == n,
{
    lemma2_to64();
    let m = size_of(n);
    assert(pow2(0) == 1);
    assert(m / 1 == m && m % 1 == 0);
    assert(m * 1 == m);
}

} // verus!
