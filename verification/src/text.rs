//! Small string-building helpers shared by the formatting code: appending a
//! single character to a `String`, and rendering unsigned integers in decimal.

use vstd::prelude::*;

verus! {

/// Relies on `String::push`: appends the given character to the end of the
/// string, and does nothing else.
#[verifier::external_body]
pub fn push_char(s: &mut String, c: char)
    ensures
        final(s)@ == old(s)@.push(c),
{
    s.push(c);
}

/// The decimal digit character for a value below ten.
pub open spec fn digit_char(d: int) -> char {
    if d == 0 {
        '0'
    } else if d == 1 {
        '1'
    } else if d == 2 {
        '2'
    } else if d == 3 {
        '3'
    } else if d == 4 {
        '4'
    } else if d == 5 {
        '5'
    } else if d == 6 {
        '6'
    } else if d == 7 {
        '7'
    } else if d == 8 {
        '8'
    } else {
        '9'
    }
}

/// The usual decimal rendering of `n`: no leading zeroes, and `"0"` for zero.
pub open spec fn spec_decimal(n: int) -> Seq<char>
    decreases n,
{
    if n < 10 {
        seq![digit_char(n)]
    } else {
        spec_decimal(n / 10).push(digit_char(n % 10))
    }
}

/// Appends the single digit `d` to `s`.
pub(crate) fn push_digit(s: &mut String, d: u64)
    requires
        d < 10,
    ensures
        final(s)@ == old(s)@.push(digit_char(d as int)),
{
    let c: char = if d == 0 {
        '0'
    } else if d == 1 {
        '1'
    } else if d == 2 {
        '2'
    } else if d == 3 {
        '3'
    } else if d == 4 {
        '4'
    } else if d == 5 {
        '5'
    } else if d == 6 {
        '6'
    } else if d == 7 {
        '7'
    } else if d == 8 {
        '8'
    } else {
        '9'
    };
    push_char(s, c);
}

/// Appends the decimal rendering of `n` to `s`.
pub(crate) fn push_decimal(s: &mut String, n: u64)
    ensures
        final(s)@ == old(s)@ + spec_decimal(n as int),
    decreases n,
{
    if n < 10 {
        push_digit(s, n);
        assert(old(s)@ + spec_decimal(n as int) =~= old(s)@.push(digit_char(n as int)));
    } else {
        push_decimal(s, n / 10);
        push_digit(s, n % 10);
        assert(old(s)@ + spec_decimal(n as int) =~= (old(s)@ + spec_decimal(n as int / 10)).push(
            digit_char(n as int % 10),
        ));
    }
}

/// The decimal rendering of `n`, as a fresh string.
pub fn u64_to_string(n: u64) -> (r: String)
    ensures
        r@ == spec_decimal(n as int),
{
    let mut s = String::new();
    push_decimal(&mut s, n);
    assert(Seq::<char>::empty() + spec_decimal(n as int) =~= spec_decimal(n as int));
    s
}

/// A decimal rendering is never empty.
pub proof fn lemma_decimal_len(n: int)
    requires
        n >= 0,
    ensures
        spec_decimal(n).len() >= 1,
    decreases n,
{
    if n >= 10 {
        lemma_decimal_len(n / 10);
    }
}

/// A larger number never has a shorter decimal rendering.
pub proof fn lemma_decimal_len_monotone(a: int, b: int)
    requires
        0 <= a <= b,
    ensures
        spec_decimal(a).len() <= spec_decimal(b).len(),
    decreases b,
{
    if b < 10 {
    } else if a < 10 {
        lemma_decimal_len(b);
    } else {
        vstd::arithmetic::div_mod::lemma_div_is_ordered(a, b, 10);
        lemma_decimal_len_monotone(a / 10, b / 10);
    }
}

/// A value of a 64-bit word takes between one and twenty decimal digits.
pub proof fn lemma_decimal_len_u64(n: int)
    requires
        0 <= n <= u64::MAX,
    ensures
        1 <= spec_decimal(n).len() <= 20,
{
    lemma_decimal_len(n);
    lemma_decimal_len_monotone(n, u64::MAX as int);
    reveal_with_fuel(spec_decimal, 21);
    assert(spec_decimal(u64::MAX as int).len() == 20);
}

} // verus!
