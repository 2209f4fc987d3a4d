//! The number that the text of an integer token writes.

use vstd::prelude::*;
use vstd::arithmetic::div_mod::{lemma_fundamental_div_mod, lemma_fundamental_div_mod_converse_mod};
use crate::parse::{all_digits, decimal, BYTE_MINUS};

verus! {

/// The number of values that 64 bits tell apart.
pub open spec fn two_to_64() -> int {
    0x1_0000_0000_0000_0000
}

/// The 64-bit signed integer that `x` comes down to when the bits above the
/// lowest 64 are dropped. Numbers within the range of `i64` stay as they are.
pub open spec fn wrap_i64(x: int) -> int {
    let low = x % two_to_64();
    if low > i64::MAX {
        low - two_to_64()
    } else {
        low
    }
}

/// Does the text start with a minus sign?
pub open spec fn is_negative(text: Seq<u8>) -> bool {
    text.len() > 0 && text[0] == BYTE_MINUS
}

/// The text without its sign.
pub open spec fn magnitude_text(text: Seq<u8>) -> Seq<u8> {
    if is_negative(text) {
        text.skip(1)
    } else {
        text
    }
}

/// The number that `text` writes: an optional minus sign, then decimal
/// digits. Leading zeros, `-0` and a text without digits (which writes 0) are
/// accepted. `None` where anything but a digit follows the sign.
pub open spec fn integer_value(text: Seq<u8>) -> Option<int> {
    let digits = magnitude_text(text);
    if !all_digits(digits) {
        None
    } else if is_negative(text) {
        Some(-(decimal(digits) as int))
    } else {
        Some(decimal(digits) as int)
    }
}

/// A 64-bit signed integer that differs from `x` by a multiple of 2^64 is
/// what `x` wraps to.
pub proof fn lemma_wrap_unique(a: int, x: int, k: int)
    requires
        i64::MIN <= a <= i64::MAX,
        a == x + k * two_to_64(),
    ensures
        wrap_i64(x) == a,
{
    if a >= 0 {
        lemma_fundamental_div_mod_converse_mod(x, two_to_64(), -k, a);
    } else {
        lemma_fundamental_div_mod_converse_mod(x, two_to_64(), -k - 1, a + two_to_64());
    }
}

/// What `x` wraps to differs from `x` by a multiple of 2^64, which is
/// returned.
pub proof fn lemma_wrap_offset(x: int) -> (k: int)
    ensures
        wrap_i64(x) == x + k * two_to_64(),
        i64::MIN <= wrap_i64(x) <= i64::MAX,
{
    lemma_fundamental_div_mod(x, two_to_64());
    let q = x / two_to_64();
    if x % two_to_64() > i64::MAX {
        -q - 1
    } else {
        -q
    }
}

/// Wrapping leaves a number within the range of `i64` as it is.
pub proof fn lemma_wrap_in_range(x: int)
    requires
        i64::MIN <= x <= i64::MAX,
    ensures
        wrap_i64(x) == x,
{
    lemma_wrap_unique(x, x, 0);
}

/// One more digit on a wrapped number: multiplying by ten and adding the
/// digit, with wrapping at each operation, gives what the exact result wraps
/// to.
pub proof fn lemma_wrap_push_digit(value: i64, exact: int, digit: i64)
    requires
        value == wrap_i64(exact),
        0 <= digit <= 9,
    ensures
        value.wrapping_mul(10).wrapping_add(digit) == wrap_i64(exact * 10 + digit),
{
    let k0 = lemma_wrap_offset(exact);
    let k1 = lemma_wrap_offset(value * 10);
    let shifted = value.wrapping_mul(10);
    assert(shifted == wrap_i64(value * 10));
    let sum = shifted.wrapping_add(digit);
    let e: int = if shifted + digit > i64::MAX {
        -1
    } else if shifted + digit < i64::MIN {
        1
    } else {
        0
    };
    assert(sum == shifted + digit + e * two_to_64());
    lemma_wrap_unique(sum as int, exact * 10 + digit, 10 * k0 + k1 + e);
}

/// Negating a wrapped number, with wrapping, gives what the exact negation
/// wraps to.
pub proof fn lemma_wrap_negate(value: i64, exact: int)
    requires
        value == wrap_i64(exact),
    ensures
        0i64.wrapping_sub(value) == wrap_i64(-exact),
{
    let k0 = lemma_wrap_offset(exact);
    let negated = 0i64.wrapping_sub(value);
    let e: int = if 0 - value > i64::MAX {
        -1
    } else {
        0
    };
    assert(negated == -value + e * two_to_64());
    lemma_wrap_unique(negated as int, -exact, e - k0);
}

} // verus!
