//! What holds of the number tokens that the scanner hands out.

use vstd::prelude::*;
use vstd::utf8::encode_utf8;
use crate::insertion::{lemma_number_end_shifted, same_below, shifted};
use crate::locality::lemma_number_end_below;
use crate::number::is_number_literal;
use crate::scan::{
    digits_end, exponent_digits_start, exponent_end, fraction_end, is_digit_byte, number_end,
    scan, starts_number, whitespace_end,
};
use crate::scan_laws::{lemma_digits_end, lemma_number_end, lemma_whitespace_end};
use crate::text::{all_ascii, ascii_text, lemma_ascii_decodes};
use crate::token::TokenType;

verus! {

/// What lies in a run of digits is a digit.
pub proof fn lemma_digits_run(input: Seq<u8>, pos: int, i: int)
    requires
        0 <= pos <= i < digits_end(input, pos),
    ensures
        i < input.len(),
        is_digit_byte(input[i]),
    decreases i - pos,
{
    if pos < i {
        lemma_digits_run(input, pos + 1, i);
    }
}

/// A number literal holds ASCII bytes only.
pub proof fn lemma_number_is_ascii(input: Seq<u8>, pos: int)
    requires
        0 <= pos < input.len(),
        starts_number(input, pos),
    ensures
        all_ascii(input.subrange(pos, number_end(input, pos))),
{
    lemma_number_end(input, pos);
    let end = number_end(input, pos);
    let digits = if input[pos] == 0x2d {
        pos + 1
    } else {
        pos
    };
    lemma_digits_end(input, digits);
    let whole_end = digits_end(input, digits);
    let mantissa_end = fraction_end(input, whole_end);
    if mantissa_end != whole_end {
        lemma_digits_end(input, whole_end + 1);
    }
    let exponent_start = exponent_digits_start(input, mantissa_end);
    if end != mantissa_end {
        lemma_digits_end(input, exponent_start);
    }
    let run = input.subrange(pos, end);
    assert forall|k: int| 0 <= k < run.len() implies #[trigger] run[k] < 128 by {
        let i = pos + k;
        if i < digits {
        } else if i < whole_end {
            lemma_digits_run(input, digits, i);
        } else if i < mantissa_end {
            if i > whole_end {
                lemma_digits_run(input, whole_end + 1, i);
            }
        } else if i >= exponent_start {
            lemma_digits_run(input, exponent_start, i);
        }
    }
}

/// The literal of every number token that the scanner hands out is a number literal:
/// such a token fails to give a number only where its digits or its exponent are out of
/// range.
pub proof fn lemma_number_token_is_literal(input: Seq<u8>, pos: int)
    requires
        0 <= pos <= input.len(),
        scan(input, pos).result matches Ok(t) && t.token_type == TokenType::Integer,
    ensures
        is_number_literal(encode_utf8(scan(input, pos).result->Ok_0.literal)),
{
    lemma_whitespace_end(input, pos);
    let start = whitespace_end(input, pos);
    assert(start < input.len());
    assert(starts_number(input, start)) by {
        crate::token::lemma_keyword_kinds_are_keywords();
    }
    lemma_number_end(input, start);
    let end = number_end(input, start);
    let run = input.subrange(start, end);
    let front = input.subrange(0, end);
    lemma_number_is_ascii(input, start);
    lemma_ascii_decodes(run);
    assert(same_below(input, front, end));
    lemma_number_end_below(input, front, end, start);
    assert(shifted(run, front, 0, start));
    lemma_number_end_shifted(run, front, 0, start, 0);
    assert(number_end(run, 0) == run.len());
}

} // verus!
