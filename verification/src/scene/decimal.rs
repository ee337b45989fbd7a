//! Whole numbers as text.

use vstd::prelude::*;

verus! {

/// The character of a decimal digit.
pub open spec fn digit(d: int) -> char {
    (48 + d) as char
}

/// A whole number in decimal.
pub open spec fn digits(n: nat) -> Seq<char>
    decreases n,
{
    if n < 10 {
        seq![digit(n as int)]
    } else {
        digits(n / 10).push(digit((n % 10) as int))
    }
}

/// A whole number in decimal, with a minus sign before one below zero.
pub open spec fn in_decimal(n: int) -> Seq<char> {
    if n < 0 {
        seq!['-'] + digits((-n) as nat)
    } else {
        digits(n as nat)
    }
}

/// The character of a decimal digit.
fn digit_char(d: u32) -> (r: char)
    requires
        d < 10,
    ensures
        r == digit(d as int),
{
    (48u8 + d as u8) as char
}

/// Appends a whole number in decimal.
fn push_digits(out: &mut Vec<char>, n: u32)
    ensures
        final(out)@ == old(out)@ + digits(n as nat),
    decreases n,
{
    if n >= 10 {
        push_digits(out, n / 10);
    }
    let ghost before = out@;
    out.push(digit_char(n % 10));
    proof {
        if n < 10 {
            assert(out@ =~= old(out)@ + digits(n as nat));
        } else {
            assert(out@ =~= old(out)@ + digits((n / 10) as nat).push(digit((n % 10) as int)));
        }
    }
}

/// Appends a whole number in decimal, with a minus sign before one below zero.
pub fn push_decimal(out: &mut Vec<char>, n: i32)
    ensures
        final(out)@ == old(out)@ + in_decimal(n as int),
{
    if n < 0 {
        out.push('-');
        let size: u32 = (-(n as i64)) as u32;
        push_digits(out, size);
        assert(out@ =~= old(out)@ + in_decimal(n as int));
    } else {
        push_digits(out, n as u32);
    }
}

/// What a decimal text counts.
pub open spec fn counted(s: Seq<char>) -> nat
    decreases s.len(),
{
    if s.len() == 0 {
        0
    } else {
        10 * counted(s.drop_last()) + (s.last() as nat - 48) as nat
    }
}

/// Reading a number's digits gives the number back.
proof fn lemma_digits_count(n: nat)
    ensures
        counted(digits(n)) == n,
        digits(n).len() > 0,
        digits(n)[0] != '-',
    decreases n,
{
    if n < 10 {
        assert(digits(n).drop_last() =~= Seq::<char>::empty());
        reveal_with_fuel(counted, 2);
    } else {
        lemma_digits_count(n / 10);
        assert(digits(n).drop_last() =~= digits(n / 10));
    }
}

/// **Different whole numbers read differently.**
pub proof fn law_decimals_differ(m: int, n: int)
    requires
        in_decimal(m) == in_decimal(n),
    ensures
        m == n,
{
    let (a, b) = (if m < 0 { (-m) as nat } else { m as nat }, if n < 0 { (-n) as nat } else { n as nat });
    lemma_digits_count(a);
    lemma_digits_count(b);
    assert(in_decimal(m)[0] == in_decimal(n)[0]);
    if m < 0 && n < 0 {
        assert(in_decimal(m).skip(1) =~= digits(a));
        assert(in_decimal(n).skip(1) =~= digits(b));
    }
}

} // verus!
