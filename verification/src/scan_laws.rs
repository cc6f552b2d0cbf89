//! What holds of every scan: the scanner never goes back, never leaves the input, and
//! whitespace in front of a token changes nothing about it.

use vstd::prelude::*;
use crate::scan::{
    digits_end, escape_at, exponent_end, fraction_end, lowercase_end, number_end, scan,
    starts_number, string_body, whitespace_end, is_whitespace_byte, StringBody,
};
use crate::token::TokenType;

verus! {

/// Skipping whitespace never goes back and never leaves the input, and it stops at a
/// byte that is no whitespace.
pub proof fn lemma_whitespace_end(input: Seq<u8>, pos: int)
    requires
        0 <= pos <= input.len(),
    ensures
        pos <= whitespace_end(input, pos) <= input.len(),
        whitespace_end(input, pos) < input.len() ==> !is_whitespace_byte(
            input[whitespace_end(input, pos)],
        ),
    decreases input.len() - pos,
{
    if pos < input.len() && is_whitespace_byte(input[pos]) {
        lemma_whitespace_end(input, pos + 1);
    }
}

/// A run of digits ends at or after its start, within the input.
pub proof fn lemma_digits_end(input: Seq<u8>, pos: int)
    requires
        0 <= pos <= input.len(),
    ensures
        pos <= digits_end(input, pos) <= input.len(),
    decreases input.len() - pos,
{
    if pos < input.len() && digits_end(input, pos) != pos {
        lemma_digits_end(input, pos + 1);
    }
}

/// A run of lowercase letters ends at or after its start, within the input.
pub proof fn lemma_lowercase_end(input: Seq<u8>, pos: int)
    requires
        0 <= pos <= input.len(),
    ensures
        pos <= lowercase_end(input, pos) <= input.len(),
    decreases input.len() - pos,
{
    if pos < input.len() && lowercase_end(input, pos) != pos {
        lemma_lowercase_end(input, pos + 1);
    }
}

/// A number literal is not empty and ends within the input.
pub proof fn lemma_number_end(input: Seq<u8>, pos: int)
    requires
        0 <= pos < input.len(),
        starts_number(input, pos),
    ensures
        pos < number_end(input, pos) <= input.len(),
{
    let digits = if input[pos] == 0x2d {
        pos + 1
    } else {
        pos
    };
    lemma_digits_end(input, digits);
    lemma_digits_end(input, digits + 1);
    let whole_end = digits_end(input, digits);
    assert(whole_end > digits);
    if fraction_end(input, whole_end) != whole_end {
        lemma_digits_end(input, whole_end + 1);
    }
    let mantissa_end = fraction_end(input, whole_end);
    if exponent_end(input, mantissa_end) != mantissa_end {
        lemma_digits_end(input, crate::scan::exponent_digits_start(input, mantissa_end));
    }
}

/// An escape sequence takes at least two bytes and ends within the input.
pub proof fn lemma_escape_length(input: Seq<u8>, pos: int)
    requires
        0 <= pos < input.len(),
        escape_at(input, pos).is_some(),
    ensures
        2 <= escape_at(input, pos).unwrap().length,
        pos + escape_at(input, pos).unwrap().length <= input.len(),
{
}

/// The closing quote of a string lies behind where its body was entered, within the
/// input; a bad escape lies there too.
pub proof fn lemma_string_body(input: Seq<u8>, pos: int, content: Seq<u8>)
    requires
        0 <= pos <= input.len(),
    ensures
        match string_body(input, pos, content) {
            StringBody::Closed { content: _, close } => pos <= close < input.len(),
            StringBody::Unterminated => true,
            StringBody::BadEscape(at) => pos <= at < input.len(),
        },
    decreases input.len() - pos,
{
    if pos < input.len() && input[pos] != 0x22 {
        if input[pos] == 0x5c {
            if escape_at(input, pos).is_some() {
                lemma_escape_length(input, pos);
                let escape = escape_at(input, pos).unwrap();
                lemma_string_body(input, pos + escape.length, content + escape.bytes);
            }
        } else {
            lemma_string_body(input, pos + 1, content.push(input[pos]));
        }
    }
}

/// The scanner advances and never rewinds: a token starts at or after the position it
/// was asked from and ends within the input. A token other than `EOF` is not empty, and
/// `EOF` is handed out only at the end of the input.
pub proof fn lemma_scan_advances(input: Seq<u8>, pos: int)
    requires
        0 <= pos <= input.len(),
    ensures
        pos <= scan(input, pos).start <= scan(input, pos).end <= input.len(),
        scan(input, pos).start == whitespace_end(input, pos),
        match scan(input, pos).result {
            Ok(token) => if token.token_type == TokenType::EOF {
                scan(input, pos).end == input.len() && scan(input, pos).start == input.len()
            } else {
                scan(input, pos).start < scan(input, pos).end
            },
            Err(_) => true,
        },
{
    lemma_whitespace_end(input, pos);
    let start = whitespace_end(input, pos);
    if start < input.len() {
        if starts_number(input, start) {
            lemma_number_end(input, start);
        } else if crate::scan::is_lowercase_byte(input[start]) {
            lemma_lowercase_end(input, start);
            lemma_lowercase_end(input, start + 1);
        } else if input[start] == 0x22 {
            lemma_string_body(input, start + 1, Seq::empty());
        }
    }
}

/// At the end of the input the scanner hands out `EOF` with an empty literal and stays
/// where it is, however often it is asked.
pub proof fn lemma_end_of_input_is_stable(input: Seq<u8>)
    ensures
        scan(input, input.len() as int).result == Ok::<
            crate::token::TokenView,
            crate::error::LexErrorView,
        >(crate::token::TokenView { token_type: TokenType::EOF, literal: Seq::empty() }),
        scan(input, input.len() as int).end == input.len(),
{
}

/// Whitespace in front of a token changes nothing about it: from anywhere in the run of
/// whitespace before a token, the scan is the same.
pub proof fn lemma_scan_skips_whitespace(input: Seq<u8>, pos: int, from: int)
    requires
        0 <= pos <= from <= whitespace_end(input, pos),
        from <= input.len(),
    ensures
        scan(input, from) == scan(input, pos),
    decreases from - pos,
{
    if pos < from {
        assert(is_whitespace_byte(input[pos]));
        lemma_scan_skips_whitespace(input, pos + 1, from);
    }
}

} // verus!
