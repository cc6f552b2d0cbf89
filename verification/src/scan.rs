//! What the scanner produces, stated over the input bytes and a position.

use vstd::prelude::*;
use vstd::utf8::{decode_utf8, valid_utf8};
use crate::error::LexErrorView;
use crate::text::ascii_text;
use crate::token::{keyword_kind, TokenType, TokenView};

verus! {

pub open spec fn is_whitespace_byte(b: u8) -> bool {
    b == 0x20 || b == 0x09 || b == 0x0a || b == 0x0d
}

pub open spec fn is_digit_byte(b: u8) -> bool {
    0x30 <= b <= 0x39
}

pub open spec fn is_lowercase_byte(b: u8) -> bool {
    0x61 <= b <= 0x7a
}

/// The first position at or after `pos` that holds no whitespace.
pub open spec fn whitespace_end(input: Seq<u8>, pos: int) -> int
    decreases input.len() - pos,
{
    if 0 <= pos < input.len() && is_whitespace_byte(input[pos]) {
        whitespace_end(input, pos + 1)
    } else {
        pos
    }
}

/// The first position at or after `pos` that holds no digit.
pub open spec fn digits_end(input: Seq<u8>, pos: int) -> int
    decreases input.len() - pos,
{
    if 0 <= pos < input.len() && is_digit_byte(input[pos]) {
        digits_end(input, pos + 1)
    } else {
        pos
    }
}

/// The first position at or after `pos` that holds no lowercase letter.
pub open spec fn lowercase_end(input: Seq<u8>, pos: int) -> int
    decreases input.len() - pos,
{
    if 0 <= pos < input.len() && is_lowercase_byte(input[pos]) {
        lowercase_end(input, pos + 1)
    } else {
        pos
    }
}

/// True when a digit stands at `pos`.
pub open spec fn digit_at(input: Seq<u8>, pos: int) -> bool {
    0 <= pos < input.len() && is_digit_byte(input[pos])
}

/// True when a number literal starts at `pos`: a digit, or `-` directly before a digit.
/// A `+`, or a `-` before anything else, is a token of its own.
pub open spec fn starts_number(input: Seq<u8>, pos: int) -> bool {
    digit_at(input, pos) || (0 <= pos < input.len() && input[pos] == 0x2d && digit_at(
        input,
        pos + 1,
    ))
}

/// Where the fraction that may follow the integer digits ends: a `.` counts only with a
/// digit behind it.
pub open spec fn fraction_end(input: Seq<u8>, pos: int) -> int {
    if 0 <= pos < input.len() && input[pos] == 0x2e && digit_at(input, pos + 1) {
        digits_end(input, pos + 1)
    } else {
        pos
    }
}

/// Where the digits of an exponent whose marker stands at `pos` start: behind the marker
/// and an optional sign.
pub open spec fn exponent_digits_start(input: Seq<u8>, pos: int) -> int {
    if 0 <= pos + 1 < input.len() && (input[pos + 1] == 0x2b || input[pos + 1] == 0x2d) {
        pos + 2
    } else {
        pos + 1
    }
}

/// Where the exponent that may follow the fraction ends: `e` or `E` counts only with
/// digits behind it, after an optional sign.
pub open spec fn exponent_end(input: Seq<u8>, pos: int) -> int {
    if 0 <= pos < input.len() && (input[pos] == 0x65 || input[pos] == 0x45) && digit_at(
        input,
        exponent_digits_start(input, pos),
    ) {
        digits_end(input, exponent_digits_start(input, pos))
    } else {
        pos
    }
}

/// Where the longest number literal that starts at `pos` ends.
pub open spec fn number_end(input: Seq<u8>, pos: int) -> int {
    let digits = if input[pos] == 0x2d {
        pos + 1
    } else {
        pos
    };
    exponent_end(input, fraction_end(input, digits_end(input, digits)))
}

/// The value of a hexadecimal digit.
pub open spec fn hex_value(b: u8) -> Option<int> {
    if 0x30 <= b <= 0x39 {
        Some(b - 0x30)
    } else if 0x61 <= b <= 0x66 {
        Some(b - 0x61 + 10)
    } else if 0x41 <= b <= 0x46 {
        Some(b - 0x41 + 10)
    } else {
        None
    }
}

/// The number that the four hexadecimal digits from `pos` spell, if four stand there.
pub open spec fn hex4(input: Seq<u8>, pos: int) -> Option<int> {
    if 0 <= pos && pos + 4 <= input.len() && hex_value(input[pos]).is_some() && hex_value(
        input[pos + 1],
    ).is_some() && hex_value(input[pos + 2]).is_some() && hex_value(input[pos + 3]).is_some() {
        Some(
            ((hex_value(input[pos]).unwrap() * 16 + hex_value(input[pos + 1]).unwrap()) * 16
                + hex_value(input[pos + 2]).unwrap()) * 16 + hex_value(input[pos + 3]).unwrap(),
        )
    } else {
        None
    }
}

/// The UTF-8 encoding of a code point below 0x110000.
pub open spec fn utf8_of(cp: int) -> Seq<u8> {
    if cp < 0x80 {
        seq![cp as u8]
    } else if cp < 0x800 {
        seq![(0xc0 + cp / 64) as u8, (0x80 + cp % 64) as u8]
    } else if cp < 0x10000 {
        seq![(0xe0 + cp / 4096) as u8, (0x80 + (cp / 64) % 64) as u8, (0x80 + cp % 64) as u8]
    } else {
        seq![
            (0xf0 + cp / 262144) as u8,
            (0x80 + (cp / 4096) % 64) as u8,
            (0x80 + (cp / 64) % 64) as u8,
            (0x80 + cp % 64) as u8,
        ]
    }
}

/// An escape sequence: the bytes it stands for and how many input bytes it takes.
pub struct Escape {
    pub bytes: Seq<u8>,
    pub length: int,
}

/// The `\u` escape whose backslash stands at `pos`. A high surrogate needs a second `\u`
/// escape with a low surrogate directly behind it; the two give one code point. A low
/// surrogate alone is no escape.
pub open spec fn unicode_escape_at(input: Seq<u8>, pos: int) -> Option<Escape> {
    match hex4(input, pos + 2) {
        None => None,
        Some(unit) => if 0xd800 <= unit < 0xdc00 {
            if pos + 7 < input.len() && input[pos + 6] == 0x5c && input[pos + 7] == 0x75 {
                match hex4(input, pos + 8) {
                    Some(low) => if 0xdc00 <= low < 0xe000 {
                        Some(
                            Escape {
                                bytes: utf8_of(0x10000 + (unit - 0xd800) * 1024 + (low - 0xdc00)),
                                length: 12,
                            },
                        )
                    } else {
                        None
                    },
                    None => None,
                }
            } else {
                None
            }
        } else if 0xdc00 <= unit < 0xe000 {
            None
        } else {
            Some(Escape { bytes: utf8_of(unit), length: 6 })
        },
    }
}

/// The escape sequence whose backslash stands at `pos`, if one starts there.
pub open spec fn escape_at(input: Seq<u8>, pos: int) -> Option<Escape> {
    if 0 <= pos && pos + 1 < input.len() {
        let c = input[pos + 1];
        if c == 0x22 || c == 0x5c || c == 0x2f {
            Some(Escape { bytes: seq![c], length: 2 })
        } else if c == 0x62 {
            Some(Escape { bytes: seq![0x08u8], length: 2 })
        } else if c == 0x66 {
            Some(Escape { bytes: seq![0x0cu8], length: 2 })
        } else if c == 0x6e {
            Some(Escape { bytes: seq![0x0au8], length: 2 })
        } else if c == 0x72 {
            Some(Escape { bytes: seq![0x0du8], length: 2 })
        } else if c == 0x74 {
            Some(Escape { bytes: seq![0x09u8], length: 2 })
        } else if c == 0x75 {
            unicode_escape_at(input, pos)
        } else {
            None
        }
    } else {
        None
    }
}

/// How the body of a string literal ends.
pub enum StringBody {
    /// The closing quote stands at `close`; `content` is the body with its escapes resolved.
    Closed { content: Seq<u8>, close: int },
    /// The input ends before a closing quote.
    Unterminated,
    /// A backslash at this position starts no escape sequence.
    BadEscape(int),
}

/// Reads a string body from `pos`, where `content` holds what was read before `pos`.
/// Every byte but `"` and `\` stands for itself. A `\` as the last byte of the input
/// leaves the string unterminated; anywhere else it must start an escape sequence.
pub open spec fn string_body(input: Seq<u8>, pos: int, content: Seq<u8>) -> StringBody
    decreases input.len() - pos,
{
    if pos < 0 || pos >= input.len() {
        StringBody::Unterminated
    } else if input[pos] == 0x22 {
        StringBody::Closed { content, close: pos }
    } else if input[pos] == 0x5c && pos + 1 == input.len() {
        StringBody::Unterminated
    } else if input[pos] == 0x5c {
        match escape_at(input, pos) {
            Some(escape) => if escape.length > 0 {
                string_body(input, pos + escape.length, content + escape.bytes)
            } else {
                StringBody::BadEscape(pos)
            },
            None => StringBody::BadEscape(pos),
        }
    } else {
        string_body(input, pos + 1, content.push(input[pos]))
    }
}

/// The kind of a one-byte token.
pub open spec fn punctuation_kind(b: u8) -> Option<TokenType> {
    if b == 0x7b {
        Some(TokenType::LBrace)
    } else if b == 0x7d {
        Some(TokenType::RBrace)
    } else if b == 0x5b {
        Some(TokenType::LBracket)
    } else if b == 0x5d {
        Some(TokenType::RBracket)
    } else if b == 0x3a {
        Some(TokenType::Colon)
    } else if b == 0x2c {
        Some(TokenType::Comma)
    } else if b == 0x2e {
        Some(TokenType::Period)
    } else if b == 0x2b {
        Some(TokenType::Plus)
    } else if b == 0x2d {
        Some(TokenType::Minus)
    } else {
        None
    }
}

/// One step of scanning: where the token starts, where the scanner stands after it, and
/// the token or the reason there is none.
pub struct Scan {
    pub start: int,
    pub end: int,
    pub result: Result<TokenView, LexErrorView>,
}

/// The token that a run of lowercase letters starting at `start` spells.
pub open spec fn keyword_token(run: Seq<u8>, start: int) -> Result<TokenView, LexErrorView> {
    match keyword_kind(ascii_text(run)) {
        Some(kind) => Ok(TokenView { token_type: kind, literal: ascii_text(run) }),
        None => Err(LexErrorView::UnknownKeyword(ascii_text(run), start as usize)),
    }
}

/// The string token that starts with the quote at `start`.
pub open spec fn string_scan(input: Seq<u8>, start: int) -> Scan {
    match string_body(input, start + 1, Seq::empty()) {
        StringBody::Closed { content, close } => Scan {
            start,
            end: close + 1,
            result: if valid_utf8(content) {
                Ok(TokenView { token_type: TokenType::String, literal: decode_utf8(content) })
            } else {
                Err(LexErrorView::InvalidUtf8(start as usize))
            },
        },
        StringBody::Unterminated => Scan {
            start,
            end: input.len() as int,
            result: Err(LexErrorView::UnterminatedString(start as usize)),
        },
        StringBody::BadEscape(at) => Scan {
            start,
            end: at,
            result: Err(LexErrorView::InvalidEscape(at as usize)),
        },
    }
}

/// Scanning from `pos`: whitespace is skipped, then the longest token is taken. At the end
/// of the input the token is `EOF` with an empty literal, and the scanner stays there.
pub open spec fn scan(input: Seq<u8>, pos: int) -> Scan {
    let start = whitespace_end(input, pos);
    if start < 0 || start >= input.len() {
        Scan {
            start,
            end: start,
            result: Ok(TokenView { token_type: TokenType::EOF, literal: Seq::empty() }),
        }
    } else if starts_number(input, start) {
        let end = number_end(input, start);
        Scan {
            start,
            end,
            result: Ok(
                TokenView {
                    token_type: TokenType::Integer,
                    literal: ascii_text(input.subrange(start, end)),
                },
            ),
        }
    } else if is_lowercase_byte(input[start]) {
        let end = lowercase_end(input, start);
        Scan { start, end, result: keyword_token(input.subrange(start, end), start) }
    } else if input[start] == 0x22 {
        string_scan(input, start)
    } else {
        match punctuation_kind(input[start]) {
            Some(kind) => Scan {
                start,
                end: start + 1,
                result: Ok(TokenView { token_type: kind, literal: seq![input[start] as char] }),
            },
            None => Scan {
                start,
                end: start,
                result: Err(LexErrorView::UnexpectedCharacter(input[start], start as usize)),
            },
        }
    }
}

} // verus!
