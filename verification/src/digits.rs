//! Decimal digits, and the numbers that are written with them.

use vstd::prelude::*;

verus! {

/// Whether `c` is one of the ten ASCII decimal digits, `0` to `9`.
pub open spec fn is_digit(c: char) -> bool {
    '0' <= c <= '9'
}

/// The number from 0 to 9 that the digit `c` stands for.
pub open spec fn digit_value(c: char) -> nat
    recommends
        is_digit(c),
{
    (c as nat - '0' as nat) as nat
}

/// Whether `s` holds digits only.
pub open spec fn all_digits(s: Seq<char>) -> bool {
    forall|i: int| 0 <= i < s.len() ==> is_digit(#[trigger] s[i])
}

/// The number that `digits` denotes in base ten, most significant digit
/// first. The empty string denotes 0.
pub open spec fn decimal_value(digits: Seq<char>) -> nat
    decreases digits.len(),
{
    if digits.len() == 0 {
        0
    } else {
        10 * decimal_value(digits.drop_last()) + digit_value(digits.last())
    }
}

/// The digit that `c` stands for, if it is one.
pub fn to_digit(c: char) -> (d: Option<u8>)
    ensures
        d is Some <==> is_digit(c),
        d matches Some(v) ==> v == digit_value(c) && v <= 9,
{
    if '0' <= c && c <= '9' {
        Some((c as u32 - '0' as u32) as u8)
    } else {
        None
    }
}

/// The number that a string denotes once the digit `d` is written after
/// it: ten times the number it denoted before, plus `d`. `None` stands for
/// a number above `u64::MAX`, and stays `None`.
pub fn append_digit(value: Option<u64>, d: u8) -> (r: Option<u64>)
    requires
        d <= 9,
    ensures
        r is Some <==> value is Some && 10 * value->0 + d <= u64::MAX,
        r matches Some(v) ==> v == 10 * value->0 + d,
{
    match value {
        Some(v) => match v.checked_mul(10) {
            Some(tens) => tens.checked_add(d as u64),
            None => None,
        },
        None => None,
    }
}

/// A digit written after a string shifts what the string denoted one place
/// up and adds to it, so the number gets no smaller.
pub proof fn lemma_decimal_value_push(digits: Seq<char>, c: char)
    ensures
        decimal_value(digits.push(c)) == 10 * decimal_value(digits) + digit_value(c),
        decimal_value(digits.push(c)) >= decimal_value(digits),
{
    assert(digits.push(c).drop_last() =~= digits);
}

/// A number as it is written: its characters, most significant first. It
/// is as long as it was written, so it has no largest value.
///
/// Two numbers are equal when they are written alike: `0275` is not
/// `275`, though both denote the same value.
#[derive(Debug, Clone, PartialEq, Eq)]
pub struct Number {
    pub digits: Vec<char>,
}

impl View for Number {
    type V = Seq<char>;

    open spec fn view(&self) -> Seq<char> {
        self.digits@
    }
}

impl Number {
    /// The value that the number denotes.
    pub open spec fn value(&self) -> nat {
        decimal_value(self@)
    }

    /// The value of the number, where it is written with digits only and
    /// is at most `u64::MAX`.
    pub fn to_u64(&self) -> (r: Option<u64>)
        ensures
            r is Some <==> all_digits(self@) && self.value() <= u64::MAX,
            r matches Some(v) ==> v == self.value(),
    {
        let mut value: Option<u64> = Some(0);
        let mut i: usize = 0;
        while i < self.digits.len()
            invariant
                i <= self.digits.len(),
                all_digits(self@.take(i as int)),
                value matches Some(v) ==> v == decimal_value(self@.take(i as int)),
                value is None ==> decimal_value(self@.take(i as int)) > u64::MAX,
            decreases self.digits.len() - i,
        {
            let c = self.digits[i];
            proof {
                assert(self@.take(i + 1) =~= self@.take(i as int).push(c));
                lemma_decimal_value_push(self@.take(i as int), c);
            }
            match to_digit(c) {
                Some(d) => {
                    value = append_digit(value, d);
                },
                None => {
                    return None;
                },
            }
            i = i + 1;
        }
        assert(self@.take(i as int) =~= self@);
        value
    }
}

} // verus!
