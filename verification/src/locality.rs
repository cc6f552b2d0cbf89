//! A token depends on its own bytes and on the byte behind it, not on what follows.

use vstd::prelude::*;
use crate::insertion::same_below;
use crate::scan::{
    digit_at, digits_end, escape_at, exponent_digits_start, exponent_end, fraction_end, hex4,
    is_digit_byte, is_lowercase_byte, is_whitespace_byte, lowercase_end, number_end, scan,
    starts_number, string_body, StringBody,
};
use crate::scan_laws::{
    lemma_digits_end, lemma_escape_length, lemma_lowercase_end, lemma_string_body,
    lemma_whitespace_end,
};
use crate::scan::whitespace_end;

verus! {

pub proof fn lemma_byte_below(a: Seq<u8>, b: Seq<u8>, upto: int, pos: int)
    requires
        same_below(a, b, upto),
        0 <= pos < upto,
    ensures
        a[pos] == b[pos],
{
}

pub proof fn lemma_whitespace_end_below(a: Seq<u8>, b: Seq<u8>, upto: int, pos: int)
    requires
        same_below(a, b, upto),
        0 <= pos <= a.len(),
        whitespace_end(a, pos) < upto,
    ensures
        whitespace_end(b, pos) == whitespace_end(a, pos),
    decreases a.len() - pos,
{
    lemma_whitespace_end(a, pos);
    lemma_byte_below(a, b, upto, pos);
    if pos < a.len() && is_whitespace_byte(a[pos]) {
        lemma_whitespace_end_below(a, b, upto, pos + 1);
    }
}

pub proof fn lemma_digits_end_below(a: Seq<u8>, b: Seq<u8>, upto: int, pos: int)
    requires
        same_below(a, b, upto),
        0 <= pos <= a.len(),
        digits_end(a, pos) <= upto,
    ensures
        digits_end(b, pos) == digits_end(a, pos),
        digit_at(b, pos) == digit_at(a, pos),
    decreases a.len() - pos,
{
    lemma_digits_end(a, pos);
    if pos < a.len() && is_digit_byte(a[pos]) {
        lemma_digits_end(a, pos + 1);
        lemma_byte_below(a, b, upto, pos);
        lemma_digits_end_below(a, b, upto, pos + 1);
    } else if pos < upto {
        lemma_byte_below(a, b, upto, pos);
    }
}

pub proof fn lemma_lowercase_end_below(a: Seq<u8>, b: Seq<u8>, upto: int, pos: int)
    requires
        same_below(a, b, upto),
        0 <= pos <= a.len(),
        lowercase_end(a, pos) <= upto,
    ensures
        lowercase_end(b, pos) == lowercase_end(a, pos),
    decreases a.len() - pos,
{
    lemma_lowercase_end(a, pos);
    if pos < a.len() && is_lowercase_byte(a[pos]) {
        lemma_lowercase_end(a, pos + 1);
        lemma_byte_below(a, b, upto, pos);
        lemma_lowercase_end_below(a, b, upto, pos + 1);
    } else if pos < upto {
        lemma_byte_below(a, b, upto, pos);
    }
}

/// No digit stands in `b` at a place at or below `upto` where none stands in `a`.
pub proof fn lemma_no_digit_below(a: Seq<u8>, b: Seq<u8>, upto: int, pos: int)
    requires
        same_below(a, b, upto),
        0 <= pos <= upto,
        !digit_at(a, pos),
    ensures
        !digit_at(b, pos),
{
    if pos < upto {
        lemma_byte_below(a, b, upto, pos);
    }
}

pub proof fn lemma_fraction_end_below(a: Seq<u8>, b: Seq<u8>, upto: int, pos: int)
    requires
        same_below(a, b, upto),
        0 <= pos <= a.len(),
        pos <= upto,
        fraction_end(a, pos) <= upto,
    ensures
        fraction_end(b, pos) == fraction_end(a, pos),
        pos <= fraction_end(a, pos) <= a.len(),
{
    if digit_at(a, pos + 1) {
        lemma_digits_end(a, pos + 1);
    }
    if pos < upto {
        lemma_byte_below(a, b, upto, pos);
        if a[pos] == 0x2e {
            if digit_at(a, pos + 1) {
                lemma_digits_end(a, pos + 1);
                lemma_digits_end(a, pos + 2);
                lemma_byte_below(a, b, upto, pos + 1);
                lemma_digits_end_below(a, b, upto, pos + 1);
            } else {
                lemma_no_digit_below(a, b, upto, pos + 1);
            }
        }
    }
}

pub proof fn lemma_exponent_end_below(a: Seq<u8>, b: Seq<u8>, upto: int, pos: int)
    requires
        same_below(a, b, upto),
        0 <= pos <= a.len(),
        pos <= upto,
        exponent_end(a, pos) <= upto,
    ensures
        exponent_end(b, pos) == exponent_end(a, pos),
        pos <= exponent_end(a, pos) <= a.len(),
{
    if digit_at(a, exponent_digits_start(a, pos)) {
        lemma_digits_end(a, exponent_digits_start(a, pos));
    }
    if pos < upto {
        lemma_byte_below(a, b, upto, pos);
        if a[pos] == 0x65 || a[pos] == 0x45 {
            let start = exponent_digits_start(a, pos);
            if digit_at(a, start) {
                lemma_digits_end(a, start);
                lemma_digits_end(a, start + 1);
                lemma_byte_below(a, b, upto, pos + 1);
                lemma_byte_below(a, b, upto, start);
                lemma_digits_end_below(a, b, upto, start);
            } else {
                if pos + 1 < upto {
                    lemma_byte_below(a, b, upto, pos + 1);
                    assert(exponent_digits_start(b, pos) == start);
                    lemma_no_digit_below(a, b, upto, start);
                } else {
                    assert(exponent_digits_start(b, pos) == pos + 1);
                }
            }
        }
    }
}

pub proof fn lemma_number_end_below(a: Seq<u8>, b: Seq<u8>, upto: int, pos: int)
    requires
        same_below(a, b, upto),
        0 <= pos < upto,
        starts_number(a, pos),
        number_end(a, pos) <= upto,
    ensures
        starts_number(b, pos),
        number_end(b, pos) == number_end(a, pos),
{
    let digits = if a[pos] == 0x2d {
        pos + 1
    } else {
        pos
    };
    lemma_digits_end(a, digits);
    lemma_digits_end(a, digits + 1);
    let whole_end = digits_end(a, digits);
    if whole_end <= a.len() {
        if fraction_end(a, whole_end) != whole_end {
            lemma_digits_end(a, whole_end + 1);
        }
        let mantissa_end = fraction_end(a, whole_end);
        if exponent_end(a, mantissa_end) != mantissa_end {
            lemma_digits_end(a, exponent_digits_start(a, mantissa_end));
        }
        lemma_byte_below(a, b, upto, pos);
        lemma_byte_below(a, b, upto, digits);
        lemma_digits_end_below(a, b, upto, digits);
        lemma_fraction_end_below(a, b, upto, whole_end);
        lemma_exponent_end_below(a, b, upto, mantissa_end);
    }
}

pub proof fn lemma_hex4_below(a: Seq<u8>, b: Seq<u8>, upto: int, pos: int)
    requires
        same_below(a, b, upto),
        0 <= pos,
        pos + 4 <= upto,
    ensures
        hex4(b, pos) == hex4(a, pos),
{
    lemma_byte_below(a, b, upto, pos);
    lemma_byte_below(a, b, upto, pos + 1);
    lemma_byte_below(a, b, upto, pos + 2);
    lemma_byte_below(a, b, upto, pos + 3);
}

pub proof fn lemma_escape_below(a: Seq<u8>, b: Seq<u8>, upto: int, pos: int)
    requires
        same_below(a, b, upto),
        0 <= pos < a.len(),
        escape_at(a, pos) is Some,
        pos + escape_at(a, pos).unwrap().length <= upto,
    ensures
        escape_at(b, pos) == escape_at(a, pos),
{
    lemma_escape_length(a, pos);
    lemma_byte_below(a, b, upto, pos + 1);
    if a[pos + 1] == 0x75 {
        lemma_hex4_below(a, b, upto, pos + 2);
        if escape_at(a, pos).unwrap().length == 12 {
            lemma_byte_below(a, b, upto, pos + 6);
            lemma_byte_below(a, b, upto, pos + 7);
            lemma_hex4_below(a, b, upto, pos + 8);
        }
    }
}

pub proof fn lemma_string_body_below(
    a: Seq<u8>,
    b: Seq<u8>,
    upto: int,
    pos: int,
    content: Seq<u8>,
)
    requires
        same_below(a, b, upto),
        0 <= pos <= a.len(),
        string_body(a, pos, content) matches StringBody::Closed { content: _, close } && close
            < upto,
    ensures
        string_body(b, pos, content) == string_body(a, pos, content),
    decreases a.len() - pos,
{
    lemma_string_body(a, pos, content);
    lemma_byte_below(a, b, upto, pos);
    if a[pos] == 0x22 {
    } else if a[pos] == 0x5c {
        lemma_escape_length(a, pos);
        let escape = escape_at(a, pos).unwrap();
        lemma_string_body(a, pos + escape.length, content + escape.bytes);
        lemma_escape_below(a, b, upto, pos);
        lemma_string_body_below(a, b, upto, pos + escape.length, content + escape.bytes);
    } else {
        lemma_string_body_below(a, b, upto, pos + 1, content.push(a[pos]));
    }
}

/// A token that ends at or before `upto` is scanned from `b` as it is from `a`.
pub proof fn lemma_scan_below(a: Seq<u8>, b: Seq<u8>, upto: int, pos: int)
    requires
        same_below(a, b, upto),
        0 <= pos <= a.len(),
        scan(a, pos).result is Ok,
        scan(a, pos).start < scan(a, pos).end <= upto,
    ensures
        scan(b, pos) == scan(a, pos),
{
    lemma_whitespace_end(a, pos);
    lemma_whitespace_end_below(a, b, upto, pos);
    let start = whitespace_end(a, pos);
    let end = scan(a, pos).end;
    lemma_byte_below(a, b, upto, start);
    assert(b.subrange(start, end) =~= a.subrange(start, end)) by {
        if end <= a.len() {
            let x = a.subrange(start, end);
            let y = b.subrange(start, end);
            assert forall|i: int| 0 <= i < x.len() implies #[trigger] x[i] == y[i] by {
                lemma_byte_below(a, b, upto, start + i);
            }
        }
    }
    if starts_number(a, start) {
        lemma_number_end_below(a, b, upto, start);
    } else {
        if starts_number(b, start) {
            lemma_byte_below(a, b, upto, start);
            if start + 1 < upto {
                lemma_byte_below(a, b, upto, start + 1);
            }
        }
        if is_lowercase_byte(a[start]) {
            lemma_lowercase_end_below(a, b, upto, start);
        } else if a[start] == 0x22 {
            lemma_string_body_below(a, b, upto, start + 1, Seq::empty());
        }
    }
}

} // verus!
