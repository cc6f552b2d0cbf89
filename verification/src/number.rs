//! Numbers: a decimal mantissa and a power of ten, read from a number literal.

use vstd::prelude::*;
use crate::scan::{digits_end, exponent_digits_start, exponent_end, fraction_end, is_digit_byte};
use crate::symbol::{DIGIT_NINE, DIGIT_ZERO, LOWER_E, MINUS, PERIOD, PLUS, UPPER_E};
use crate::text::{copy_range, push_all};

verus! {

/// A decimal number: `mantissa * 10^exponent`, negated when `negative`. The digits of the
/// literal's integer part and fraction make the mantissa as they stand, so `2.50` is
/// mantissa 250 with exponent -2.
#[derive(Debug, Clone, Copy, PartialEq, Eq, Structural)]
pub struct Number {
    pub negative: bool,
    pub mantissa: u64,
    pub exponent: i64,
}

/// The number that a run of decimal digits spells.
pub open spec fn digits_value(digits: Seq<u8>) -> nat
    decreases digits.len(),
{
    if digits.len() == 0 {
        0
    } else {
        digits_value(digits.drop_last()) * 10 + if is_digit_byte(digits.last()) {
            (digits.last() - 0x30) as nat
        } else {
            0
        }
    }
}

/// The fraction digits of a literal whose integer digits end at `whole_end`.
pub open spec fn fraction_digits(text: Seq<u8>, whole_end: int) -> Seq<u8> {
    if fraction_end(text, whole_end) > whole_end {
        text.subrange(whole_end + 1, fraction_end(text, whole_end))
    } else {
        Seq::empty()
    }
}

/// The exponent that a literal writes from `pos` on; 0 where it writes none.
pub open spec fn written_exponent(text: Seq<u8>, pos: int) -> int {
    if exponent_end(text, pos) > pos {
        let digits = text.subrange(exponent_digits_start(text, pos), exponent_end(text, pos));
        if text[pos + 1] == 0x2d {
            -(digits_value(digits) as int)
        } else {
            digits_value(digits) as int
        }
    } else {
        0
    }
}

/// True for a number literal: an optional `-`, digits, an optional fraction and an
/// optional exponent, and nothing else.
pub open spec fn is_number_literal(text: Seq<u8>) -> bool {
    let whole_start: int = if text.len() > 0 && text[0] == 0x2d {
        1
    } else {
        0
    };
    let whole_end = digits_end(text, whole_start);
    whole_end > whole_start && exponent_end(text, fraction_end(text, whole_end)) == text.len()
}

/// The number that a literal spells. `None` where the text is no number literal, where
/// the digits exceed a `u64`, or where the exponent, less the count of fraction digits,
/// exceeds an `i64`.
pub open spec fn decimal_of(text: Seq<u8>) -> Option<Number> {
    let negative = text.len() > 0 && text[0] == 0x2d;
    let whole_start: int = if negative {
        1
    } else {
        0
    };
    let whole_end = digits_end(text, whole_start);
    let fraction = fraction_digits(text, whole_end);
    let mantissa_end = fraction_end(text, whole_end);
    let mantissa = digits_value(text.subrange(whole_start, whole_end) + fraction);
    let exponent = written_exponent(text, mantissa_end) - fraction.len();
    if !is_number_literal(text) {
        None
    } else if mantissa > u64::MAX || exponent < i64::MIN || exponent > i64::MAX {
        None
    } else {
        Some(Number { negative, mantissa: mantissa as u64, exponent: exponent as i64 })
    }
}

/// A longer run of digits spells no smaller number than any of its prefixes.
pub proof fn lemma_digits_value_grows(digits: Seq<u8>, i: int)
    requires
        0 <= i <= digits.len(),
    ensures
        digits_value(digits.subrange(0, i)) <= digits_value(digits),
    decreases digits.len() - i,
{
    if i < digits.len() {
        lemma_digits_value_grows(digits, i + 1);
        assert(digits.subrange(0, i + 1).drop_last() =~= digits.subrange(0, i));
    } else {
        assert(digits.subrange(0, i) =~= digits);
    }
}

/// The number that the digits spell, or `None` where it exceeds a `u128`.
fn read_digits(digits: &Vec<u8>) -> (r: Option<u128>)
    ensures
        match r {
            Some(v) => v == digits_value(digits@),
            None => digits_value(digits@) > u128::MAX,
        },
{
    let mut value: u128 = 0;
    let mut i: usize = 0;
    while i < digits.len()
        invariant
            i <= digits@.len(),
            value == digits_value(digits@.subrange(0, i as int)),
        decreases digits@.len() - i,
    {
        let b = digits[i];
        let d: u128 = if DIGIT_ZERO <= b && b <= DIGIT_NINE {
            (b - DIGIT_ZERO) as u128
        } else {
            0
        };
        proof {
            assert(digits@.subrange(0, i + 1).drop_last() =~= digits@.subrange(0, i as int));
            lemma_digits_value_grows(digits@, i + 1);
        }
        let next = match value.checked_mul(10) {
            Some(scaled) => scaled.checked_add(d),
            None => None,
        };
        match next {
            Some(v) => {
                value = v;
            },
            None => {
                return None;
            },
        }
        i += 1;
    }
    assert(digits@.subrange(0, i as int) =~= digits@);
    Some(value)
}

fn find_end_of_digits(text: &Vec<u8>, pos: usize) -> (end: usize)
    requires
        pos <= text@.len(),
    ensures
        end == digits_end(text@, pos as int),
        pos <= end <= text@.len(),
{
    let mut end: usize = pos;
    while end < text.len() && DIGIT_ZERO <= text[end] && text[end] <= DIGIT_NINE
        invariant
            pos <= end <= text@.len(),
            digits_end(text@, pos as int) == digits_end(text@, end as int),
        decreases text@.len() - end,
    {
        end += 1;
    }
    end
}

/// Reads a number from the bytes of its literal.
pub fn parse_decimal(text: &Vec<u8>) -> (r: Option<Number>)
    ensures
        r == decimal_of(text@),
{
    let length = text.len();
    let negative = length > 0 && text[0] == MINUS;
    let whole_start: usize = if negative {
        1
    } else {
        0
    };
    let whole_end = find_end_of_digits(text, whole_start);
    if whole_end == whole_start {
        return None;
    }
    let mut mantissa_digits = copy_range(text, whole_start, whole_end);
    let mantissa_end = if whole_end < length && text[whole_end] == PERIOD && length - whole_end > 1
        && DIGIT_ZERO <= text[whole_end + 1] && text[whole_end + 1] <= DIGIT_NINE {
        find_end_of_digits(text, whole_end + 1)
    } else {
        whole_end
    };
    let mut fraction_length: usize = 0;
    if mantissa_end > whole_end {
        let fraction = copy_range(text, whole_end + 1, mantissa_end);
        fraction_length = fraction.len();
        push_all(&mut mantissa_digits, &fraction);
    } else {
        assert(mantissa_digits@ + Seq::<u8>::empty() =~= mantissa_digits@);
    }
    let mut end = mantissa_end;
    let mut exponent_negative = false;
    let mut exponent_digits: Vec<u8> = Vec::new();
    if mantissa_end < length && (text[mantissa_end] == LOWER_E || text[mantissa_end] == UPPER_E) {
        let signed = length - mantissa_end > 1 && (text[mantissa_end + 1] == PLUS || text[mantissa_end
            + 1] == MINUS);
        let digits_start = if signed {
            mantissa_end + 2
        } else {
            mantissa_end + 1
        };
        if digits_start < length && DIGIT_ZERO <= text[digits_start] && text[digits_start]
            <= DIGIT_NINE {
            end = find_end_of_digits(text, digits_start);
            exponent_negative = text[mantissa_end + 1] == MINUS;
            exponent_digits = copy_range(text, digits_start, end);
        }
    }
    if end != length {
        return None;
    }
    let mantissa = match read_digits(&mantissa_digits) {
        Some(m) => m,
        None => {
            return None;
        },
    };
    if mantissa > u64::MAX as u128 {
        return None;
    }
    assert(digits_value(Seq::<u8>::empty()) == 0);
    let written = match read_digits(&exponent_digits) {
        Some(w) => w,
        None => {
            return None;
        },
    };
    if written > 0x2_0000_0000_0000_0000 {
        return None;
    }
    let exponent: i128 = if exponent_negative {
        -(written as i128) - (fraction_length as i128)
    } else {
        written as i128 - (fraction_length as i128)
    };
    if exponent < i64::MIN as i128 || exponent > i64::MAX as i128 {
        return None;
    }
    Some(Number { negative, mantissa: mantissa as u64, exponent: exponent as i64 })
}

} // verus!
