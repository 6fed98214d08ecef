//! Integers as decimal text.

use vstd::prelude::*;

verus! {

/// The byte `+`.
pub const PLUS: u8 = 43;

/// The byte `-`.
pub const MINUS: u8 = 45;

/// The byte `0`.
pub const ZERO: u8 = 48;

/// Whether `byte` is one of `0` to `9`.
pub open spec fn is_digit(byte: u8) -> bool {
    ZERO <= byte <= ZERO + 9
}

/// The number that a run of digits writes: `None` for an empty run and for a
/// run that holds anything but digits.
pub open spec fn digits_value(bytes: Seq<u8>) -> Option<int>
    decreases bytes.len(),
{
    if bytes.len() == 0 || !is_digit(bytes.last()) {
        None
    } else if bytes.len() == 1 {
        Some(bytes.last() - ZERO)
    } else {
        match digits_value(bytes.drop_last()) {
            Some(upper) => Some(10 * upper + (bytes.last() - ZERO)),
            None => None,
        }
    }
}

/// The number that decimal text writes: digits, with `+` allowed in front of
/// them, and `-` too where `signed`. Anything else writes no number.
pub open spec fn decimal_value(bytes: Seq<u8>, signed: bool) -> Option<int> {
    if bytes.len() > 0 && bytes[0] == PLUS {
        digits_value(bytes.skip(1))
    } else if signed && bytes.len() > 0 && bytes[0] == MINUS {
        match digits_value(bytes.skip(1)) {
            Some(amount) => Some(-amount),
            None => None,
        }
    } else {
        digits_value(bytes)
    }
}

/// The number that decimal text writes, where it lies within `lo ..= hi`.
pub open spec fn parsed(bytes: Seq<u8>, signed: bool, lo: int, hi: int) -> Option<int> {
    match decimal_value(bytes, signed) {
        Some(number) => if lo <= number <= hi {
            Some(number)
        } else {
            None
        },
        None => None,
    }
}

/// The digits of a natural number, without leading zeros.
pub open spec fn digits_of(number: nat) -> Seq<u8>
    decreases number,
{
    if number < 10 {
        seq![(ZERO + number) as u8]
    } else {
        digits_of(number / 10).push((ZERO + number % 10) as u8)
    }
}

/// The decimal text of an integer: its digits, behind `-` where it is negative.
pub open spec fn decimal_text(number: int) -> Seq<u8> {
    if number < 0 {
        seq![MINUS] + digits_of((-number) as nat)
    } else {
        digits_of(number as nat)
    }
}

/// The one number of `lo ..= hi` that differs from `number` by a multiple of
/// the size of that range: what is left of `number` in a type of that range.
pub open spec fn wrapped(number: int, lo: int, hi: int) -> int {
    lo + (number - lo) % (hi - lo + 1)
}

/// A run of digits writes the number whose digits it is.
pub proof fn lemma_digits_value(number: nat)
    ensures
        digits_value(digits_of(number)) == Some(number as int),
        digits_of(number).len() > 0,
        forall|i: int| 0 <= i < digits_of(number).len() ==> is_digit(#[trigger] digits_of(number)[i]),
    decreases number,
{
    if number >= 10 {
        lemma_digits_value(number / 10);
        let upper = digits_of(number / 10);
        let all = digits_of(number);
        assert(all.drop_last() =~= upper);
    }
}

/// Decimal text that allows a sign writes the number whose text it is.
pub proof fn lemma_decimal_value_signed(number: int)
    ensures
        decimal_value(decimal_text(number), true) == Some(number),
{
    if number < 0 {
        let amount = (-number) as nat;
        lemma_digits_value(amount);
        let text = decimal_text(number);
        assert(text.skip(1) =~= digits_of(amount));
    } else {
        lemma_digits_value(number as nat);
    }
}

/// Decimal text that allows no sign writes a number only where that is not negative.
pub proof fn lemma_decimal_value_unsigned(number: int)
    ensures
        decimal_value(decimal_text(number), false) == if number >= 0 {
            Some(number)
        } else {
            None::<int>
        },
{
    if number < 0 {
        let text = decimal_text(number);
        lemma_needs_digits(text, 0);
    } else {
        lemma_digits_value(number as nat);
    }
}

/// A run that holds anything but digits writes no number.
pub proof fn lemma_needs_digits(bytes: Seq<u8>, at: int)
    requires
        0 <= at < bytes.len(),
        !is_digit(bytes[at]),
    ensures
        digits_value(bytes) is None,
    decreases bytes.len(),
{
    if at < bytes.len() - 1 {
        lemma_needs_digits(bytes.drop_last(), at);
    }
}

} // verus!
