//! The scanner: it holds the input and a cursor, and hands out one token per call.

use vstd::prelude::*;
use crate::error::{LexError, LexErrorView};
use crate::scan::{
    digit_at, digits_end, escape_at, hex4, hex_value, is_digit_byte,
    is_lowercase_byte, lowercase_end, number_end, punctuation_kind, scan, starts_number,
    string_body, string_scan, unicode_escape_at, utf8_of, whitespace_end, Escape,
};
use crate::symbol::{
    BACKSLASH, CARRIAGE_RETURN, COLON, COMMA, DIGIT_NINE, DIGIT_ZERO, LEFT_BRACE, LEFT_BRACKET,
    LINE_FEED, LOWER_A, LOWER_B, LOWER_E, LOWER_F, LOWER_N, LOWER_R, LOWER_T, LOWER_U, LOWER_Z,
    MINUS, PERIOD, PLUS, QUOTE, RIGHT_BRACE, RIGHT_BRACKET, SLASH, SPACE, TAB, UPPER_A, UPPER_E,
    UPPER_F,
};
use crate::text::{ascii_text, copy_range, lemma_ascii_decodes, push_all, string_from_utf8};
use crate::token::{build_token, lookup_keyword, Token, TokenType, TokenView};

verus! {

/// The byte at `pos`, if the input reaches that far.
pub open spec fn byte_at(input: Seq<u8>, pos: int) -> Option<u8> {
    if 0 <= pos < input.len() {
        Some(input[pos])
    } else {
        None
    }
}

/// The position after `pos`; the end of the input is never passed.
pub open spec fn step(input: Seq<u8>, pos: int) -> int {
    if pos < input.len() {
        pos + 1
    } else {
        input.len() as int
    }
}

/// A scanner over a complete input. The cursor only moves forward, and never past the
/// end of the input.
#[derive(Debug, PartialEq)]
pub struct Lexer {
    input: Vec<u8>,
    current_position: usize,
    next_position: usize,
    current_char: Option<u8>,
    token_position: usize,
}

fn is_digit(b: u8) -> (r: bool)
    ensures
        r == is_digit_byte(b),
{
    DIGIT_ZERO <= b && b <= DIGIT_NINE
}

fn is_lowercase(b: u8) -> (r: bool)
    ensures
        r == is_lowercase_byte(b),
{
    LOWER_A <= b && b <= LOWER_Z
}

fn hex_digit(b: u8) -> (r: Option<u32>)
    ensures
        match r {
            Some(v) => hex_value(b) == Some(v as int),
            None => hex_value(b).is_none(),
        },
{
    if DIGIT_ZERO <= b && b <= DIGIT_NINE {
        Some((b - DIGIT_ZERO) as u32)
    } else if LOWER_A <= b && b <= LOWER_F {
        Some((b - LOWER_A) as u32 + 10)
    } else if UPPER_A <= b && b <= UPPER_F {
        Some((b - UPPER_A) as u32 + 10)
    } else {
        None
    }
}

fn read_hex4(input: &Vec<u8>, pos: usize) -> (r: Option<u32>)
    requires
        pos <= input@.len(),
    ensures
        match r {
            Some(v) => hex4(input@, pos as int) == Some(v as int) && v < 0x10000,
            None => hex4(input@, pos as int).is_none(),
        },
{
    if input.len() - pos < 4 {
        return None;
    }
    match (
        hex_digit(input[pos]),
        hex_digit(input[pos + 1]),
        hex_digit(input[pos + 2]),
        hex_digit(input[pos + 3]),
    ) {
        (Some(a), Some(b), Some(c), Some(d)) => Some(((a * 16 + b) * 16 + c) * 16 + d),
        _ => None,
    }
}

fn encode_code_point(cp: u32) -> (bytes: Vec<u8>)
    requires
        cp < 0x110000,
    ensures
        bytes@ == utf8_of(cp as int),
{
    let mut bytes: Vec<u8> = Vec::new();
    if cp < 0x80 {
        bytes.push(cp as u8);
    } else if cp < 0x800 {
        bytes.push((0xc0 + cp / 64) as u8);
        bytes.push((0x80 + cp % 64) as u8);
    } else if cp < 0x10000 {
        bytes.push((0xe0 + cp / 4096) as u8);
        bytes.push((0x80 + (cp / 64) % 64) as u8);
        bytes.push((0x80 + cp % 64) as u8);
    } else {
        bytes.push((0xf0 + cp / 262144) as u8);
        bytes.push((0x80 + (cp / 4096) % 64) as u8);
        bytes.push((0x80 + (cp / 64) % 64) as u8);
        bytes.push((0x80 + cp % 64) as u8);
    }
    assert(bytes@ =~= utf8_of(cp as int));
    bytes
}

fn read_unicode_escape(input: &Vec<u8>, pos: usize) -> (r: Option<(Vec<u8>, usize)>)
    requires
        pos + 1 < input@.len(),
    ensures
        match r {
            Some(e) => unicode_escape_at(input@, pos as int) == Some(
                Escape { bytes: e.0@, length: e.1 as int },
            ) && pos + e.1 <= input@.len() && e.1 > 0,
            None => unicode_escape_at(input@, pos as int).is_none(),
        },
{
    let length = input.len();
    let unit = match read_hex4(input, pos + 2) {
        Some(unit) => unit,
        None => {
            return None;
        },
    };
    if 0xd800 <= unit && unit < 0xdc00 {
        if length - pos > 7 && input[pos + 6] == BACKSLASH && input[pos + 7] == LOWER_U {
            match read_hex4(input, pos + 8) {
                Some(low) => {
                    if 0xdc00 <= low && low < 0xe000 {
                        let cp: u32 = 0x10000 + (unit - 0xd800) * 1024 + (low - 0xdc00);
                        Some((encode_code_point(cp), 12))
                    } else {
                        None
                    }
                },
                None => None,
            }
        } else {
            None
        }
    } else if 0xdc00 <= unit && unit < 0xe000 {
        None
    } else {
        Some((encode_code_point(unit), 6))
    }
}

fn one_byte(b: u8) -> (bytes: Vec<u8>)
    ensures
        bytes@ == seq![b],
{
    let mut bytes: Vec<u8> = Vec::new();
    bytes.push(b);
    assert(bytes@ =~= seq![b]);
    bytes
}

fn read_escape(input: &Vec<u8>, pos: usize) -> (r: Option<(Vec<u8>, usize)>)
    requires
        pos < input@.len(),
    ensures
        match r {
            Some(e) => escape_at(input@, pos as int) == Some(
                Escape { bytes: e.0@, length: e.1 as int },
            ) && pos + e.1 <= input@.len() && e.1 > 0,
            None => escape_at(input@, pos as int).is_none(),
        },
{
    if input.len() - pos < 2 {
        return None;
    }
    let c = input[pos + 1];
    if c == QUOTE || c == BACKSLASH || c == SLASH {
        Some((one_byte(c), 2))
    } else if c == LOWER_B {
        Some((one_byte(0x08), 2))
    } else if c == LOWER_F {
        Some((one_byte(0x0c), 2))
    } else if c == LOWER_N {
        Some((one_byte(0x0a), 2))
    } else if c == LOWER_R {
        Some((one_byte(0x0d), 2))
    } else if c == LOWER_T {
        Some((one_byte(0x09), 2))
    } else if c == LOWER_U {
        read_unicode_escape(input, pos)
    } else {
        None
    }
}

fn find_digits_end(input: &Vec<u8>, pos: usize) -> (end: usize)
    requires
        pos <= input@.len(),
    ensures
        end == digits_end(input@, pos as int),
        pos <= end <= input@.len(),
        digit_at(input@, pos as int) ==> pos < end,
        forall|i: int| pos <= i < end ==> is_digit_byte(#[trigger] input@[i]),
{
    let mut end: usize = pos;
    while end < input.len() && is_digit(input[end])
        invariant
            pos <= end <= input@.len(),
            digits_end(input@, pos as int) == digits_end(input@, end as int),
            forall|i: int| pos <= i < end ==> is_digit_byte(#[trigger] input@[i]),
        decreases input@.len() - end,
    {
        end += 1;
    }
    end
}

fn has_digit_at(input: &Vec<u8>, pos: usize) -> (r: bool)
    ensures
        r == digit_at(input@, pos as int),
{
    pos < input.len() && is_digit(input[pos])
}

/// The token that a single byte makes, if it makes one.
fn punctuation_token(ch: u8) -> (r: Option<Token>)
    ensures
        match r {
            Some(token) => punctuation_kind(ch) == Some(token.token_type) && token.literal@
                == seq![ch as char],
            None => punctuation_kind(ch).is_none(),
        },
{
    if ch == LEFT_BRACE {
        proof { reveal_strlit("{"); assert("{"@ =~= seq![ch as char]); }
        Some(build_token(TokenType::LBrace, "{"))
    } else if ch == RIGHT_BRACE {
        proof { reveal_strlit("}"); assert("}"@ =~= seq![ch as char]); }
        Some(build_token(TokenType::RBrace, "}"))
    } else if ch == LEFT_BRACKET {
        proof { reveal_strlit("["); assert("["@ =~= seq![ch as char]); }
        Some(build_token(TokenType::LBracket, "["))
    } else if ch == RIGHT_BRACKET {
        proof { reveal_strlit("]"); assert("]"@ =~= seq![ch as char]); }
        Some(build_token(TokenType::RBracket, "]"))
    } else if ch == COLON {
        proof { reveal_strlit(":"); assert(":"@ =~= seq![ch as char]); }
        Some(build_token(TokenType::Colon, ":"))
    } else if ch == COMMA {
        proof { reveal_strlit(","); assert(","@ =~= seq![ch as char]); }
        Some(build_token(TokenType::Comma, ","))
    } else if ch == PERIOD {
        proof { reveal_strlit("."); assert("."@ =~= seq![ch as char]); }
        Some(build_token(TokenType::Period, "."))
    } else if ch == PLUS {
        proof { reveal_strlit("+"); assert("+"@ =~= seq![ch as char]); }
        Some(build_token(TokenType::Plus, "+"))
    } else if ch == MINUS {
        proof { reveal_strlit("-"); assert("-"@ =~= seq![ch as char]); }
        Some(build_token(TokenType::Minus, "-"))
    } else {
        None
    }
}

impl Lexer {
    /// The input, which never changes.
    pub closed spec fn bytes(&self) -> Seq<u8> {
        self.input@
    }

    /// Where the cursor stands: at the next byte to scan, or at the end of the input.
    pub closed spec fn position(&self) -> int {
        self.current_position as int
    }

    /// Where the token that was handed out last started.
    pub closed spec fn token_start(&self) -> int {
        self.token_position as int
    }

    /// The cursor lies within the input, and the decoded byte is the one under it.
    pub closed spec fn wf(&self) -> bool {
        &&& self.current_position <= self.input@.len()
        &&& self.next_position == step(self.input@, self.current_position as int)
        &&& self.current_char == byte_at(self.input@, self.current_position as int)
    }

    /// A well-formed scanner never stands outside its input.
    pub proof fn lemma_position_in_bounds(&self)
        requires
            self.wf(),
        ensures
            0 <= self.position() <= self.bytes().len(),
    {
    }

    pub fn new(input: Vec<u8>) -> (lexer: Self)
        ensures
            lexer.wf(),
            lexer.bytes() == input@,
            lexer.position() == 0,
    {
        let mut lexer = Self {
            input,
            current_position: 0,
            next_position: 0,
            current_char: None,
            token_position: 0,
        };
        lexer.read_char();
        lexer
    }

    /// Scans the next token. It fails where no token starts.
    pub fn next_token(&mut self) -> (r: Result<Token, LexError>)
        requires
            old(self).wf(),
        ensures
            final(self).wf(),
            final(self).bytes() == old(self).bytes(),
            old(self).position() <= final(self).position(),
            match r {
                Ok(token) => {
                    let s = scan(old(self).bytes(), old(self).position());
                    &&& s.result == Ok::<TokenView, LexErrorView>(token@)
                    &&& final(self).position() == s.end
                    &&& final(self).token_start() == s.start
                    &&& old(self).position() <= s.start <= s.end
                    &&& token.token_type != TokenType::EOF ==> s.start < s.end
                    &&& token.token_type == TokenType::EOF ==> s.end == old(self).bytes().len()
                },
                Err(error) => scan(old(self).bytes(), old(self).position()).result == Err::<
                    TokenView,
                    LexErrorView,
                >(error@),
            },
    {
        self.skip_whitespace();
        self.token_position = self.current_position;
        let ch = match self.current_char {
            None => {
                proof {
                    reveal_strlit("");
                    assert(""@ =~= Seq::<char>::empty());
                }
                return Ok(build_token(TokenType::EOF, ""));
            },
            Some(ch) => ch,
        };
        let digit_follows = match self.peek_char() {
            Some(next) => is_digit(next),
            None => false,
        };
        if is_digit(ch) || (ch == MINUS && digit_follows) {
            let literal = self.read_integer_literal();
            return Ok(Token::new(TokenType::Integer, literal));
        }
        if is_lowercase(ch) {
            let start = self.current_position;
            let literal = self.read_keyword_literal();
            return match lookup_keyword(literal.as_str()) {
                Some(token_type) => Ok(Token::new(token_type, literal)),
                None => Err(LexError::UnknownKeyword(literal, start)),
            };
        }
        let token = if ch == QUOTE {
            let literal = self.take_string_literal()?;
            Token::new(TokenType::String, literal)
        } else {
            match punctuation_token(ch) {
                Some(token) => token,
                None => {
                    return Err(LexError::UnexpectedCharacter(ch, self.current_position));
                },
            }
        };
        self.read_char();
        Ok(token)
    }

    /// True when the cursor stands at the end of the input.
    pub fn is_eof(&self) -> (r: bool)
        requires
            self.wf(),
        ensures
            r == (self.position() == self.bytes().len()),
    {
        self.current_char.is_none()
    }

    /// Where the token that `next_token` handed out last started.
    pub fn token_position(&self) -> (r: usize)
        ensures
            r == self.token_start(),
    {
        self.token_position
    }

    fn read_char(&mut self)
        requires
            old(self).next_position <= old(self).input@.len(),
        ensures
            final(self).wf(),
            final(self).input == old(self).input,
            final(self).token_position == old(self).token_position,
            final(self).current_position == old(self).next_position,
    {
        self.current_char = if self.next_position >= self.input_len() {
            None
        } else {
            Some(self.input[self.next_position])
        };
        self.current_position = self.next_position;
        if self.next_position < self.input_len() {
            self.next_position += 1;
        }
    }

    /// Moves the cursor forward to `end`.
    fn advance_to(&mut self, end: usize)
        requires
            old(self).wf(),
            old(self).current_position <= end <= old(self).input@.len(),
        ensures
            final(self).wf(),
            final(self).input == old(self).input,
            final(self).token_position == old(self).token_position,
            final(self).current_position == end,
    {
        while self.current_position < end
            invariant
                self.wf(),
                self.input == old(self).input,
                self.token_position == old(self).token_position,
                self.current_position <= end <= self.input@.len(),
            decreases end - self.current_position,
        {
            self.read_char();
        }
    }

    fn read_integer_literal(&mut self) -> (literal: String)
        requires
            old(self).wf(),
            starts_number(old(self).input@, old(self).current_position as int),
        ensures
            final(self).wf(),
            final(self).input == old(self).input,
            final(self).token_position == old(self).token_position,
            final(self).current_position == number_end(
                old(self).input@,
                old(self).current_position as int,
            ),
            old(self).current_position < final(self).current_position,
            literal@ == ascii_text(
                old(self).input@.subrange(
                    old(self).current_position as int,
                    final(self).current_position as int,
                ),
            ),
    {
        let start = self.current_position;
        let digits = if self.input[start] == MINUS {
            start + 1
        } else {
            start
        };
        let whole_end = find_digits_end(&self.input, digits);
        let mantissa_end = if whole_end < self.input.len() && self.input[whole_end] == PERIOD
            && has_digit_at(&self.input, whole_end + 1) {
            find_digits_end(&self.input, whole_end + 1)
        } else {
            whole_end
        };
        let mut end = mantissa_end;
        if mantissa_end < self.input.len() && (self.input[mantissa_end] == LOWER_E
            || self.input[mantissa_end] == UPPER_E) {
            let exponent_digits = if mantissa_end + 1 < self.input.len() && (self.input[mantissa_end
                + 1] == PLUS || self.input[mantissa_end + 1] == MINUS) {
                mantissa_end + 2
            } else {
                mantissa_end + 1
            };
            if has_digit_at(&self.input, exponent_digits) {
                end = find_digits_end(&self.input, exponent_digits);
            }
        }
        let run = copy_range(&self.input, start, end);
        proof {
            assert forall|i: int| 0 <= i < run@.len() implies #[trigger] run@[i] < 128 by {
                let b = self.input@[start + i];
                assert(is_digit_byte(b) || b == 0x2d || b == 0x2e || b == 0x2b || b == 0x65 || b
                    == 0x45);
            }
            lemma_ascii_decodes(run@);
        }
        self.advance_to(end);
        string_from_utf8(run).unwrap()
    }

    fn read_keyword_literal(&mut self) -> (literal: String)
        requires
            old(self).wf(),
            old(self).current_position < old(self).input@.len(),
            is_lowercase_byte(old(self).input@[old(self).current_position as int]),
        ensures
            final(self).wf(),
            final(self).input == old(self).input,
            final(self).token_position == old(self).token_position,
            final(self).current_position == lowercase_end(
                old(self).input@,
                old(self).current_position as int,
            ),
            old(self).current_position < final(self).current_position,
            literal@ == ascii_text(
                old(self).input@.subrange(
                    old(self).current_position as int,
                    final(self).current_position as int,
                ),
            ),
    {
        let start = self.current_position;
        let mut end: usize = start;
        while end < self.input.len() && is_lowercase(self.input[end])
            invariant
                start <= end <= self.input@.len(),
                lowercase_end(self.input@, start as int) == lowercase_end(self.input@, end as int),
                forall|i: int| start <= i < end ==> is_lowercase_byte(#[trigger] self.input@[i]),
            decreases self.input@.len() - end,
        {
            end += 1;
        }
        let run = copy_range(&self.input, start, end);
        proof {
            assert forall|i: int| 0 <= i < run@.len() implies #[trigger] run@[i] < 128 by {
                assert(is_lowercase_byte(self.input@[start + i]));
            }
            lemma_ascii_decodes(run@);
        }
        self.advance_to(end);
        string_from_utf8(run).unwrap()
    }

    /// Reads the string whose opening quote is under the cursor, and leaves the cursor on
    /// its closing quote.
    fn take_string_literal(&mut self) -> (r: Result<String, LexError>)
        requires
            old(self).wf(),
            old(self).current_position < old(self).input@.len(),
            old(self).input@[old(self).current_position as int] == 0x22,
        ensures
            final(self).wf(),
            final(self).input == old(self).input,
            final(self).token_position == old(self).token_position,
            old(self).current_position <= final(self).current_position,
            match r {
                Ok(literal) => {
                    let s = string_scan(old(self).input@, old(self).current_position as int);
                    &&& s.result == Ok::<TokenView, LexErrorView>(
                        TokenView { token_type: TokenType::String, literal: literal@ },
                    )
                    &&& final(self).current_position + 1 == s.end
                    &&& final(self).current_position < final(self).input@.len()
                },
                Err(error) => string_scan(
                    old(self).input@,
                    old(self).current_position as int,
                ).result == Err::<TokenView, LexErrorView>(error@),
            },
    {
        let start = self.current_position;
        let mut content: Vec<u8> = Vec::new();
        let mut at: usize = start + 1;
        loop
            invariant
                self.wf(),
                self.input == old(self).input,
                self.token_position == old(self).token_position,
                self.current_position == start,
                start < at <= self.input@.len(),
                string_body(self.input@, start + 1, Seq::empty()) == string_body(
                    self.input@,
                    at as int,
                    content@,
                ),
            ensures
                at < self.input@.len(),
                self.input@[at as int] == QUOTE,
            decreases self.input@.len() - at,
        {
            if at >= self.input.len() {
                return Err(LexError::UnterminatedString(start));
            }
            let ch = self.input[at];
            if ch == QUOTE {
                break ;
            }
            if ch == BACKSLASH {
                if self.input.len() - at == 1 {
                    return Err(LexError::UnterminatedString(start));
                }
                match read_escape(&self.input, at) {
                    Some(escape) => {
                        push_all(&mut content, &escape.0);
                        at += escape.1;
                    },
                    None => {
                        return Err(LexError::InvalidEscape(at));
                    },
                }
            } else {
                content.push(ch);
                at += 1;
            }
        }
        self.advance_to(at);
        match string_from_utf8(content) {
            Some(literal) => Ok(literal),
            None => Err(LexError::InvalidUtf8(start)),
        }
    }

    fn input_len(&self) -> (n: usize)
        ensures
            n == self.input@.len(),
    {
        self.input.len()
    }

    fn peek_char(&self) -> (r: Option<u8>)
        ensures
            r == byte_at(self.input@, self.next_position as int),
    {
        if self.next_position >= self.input_len() {
            None
        } else {
            Some(self.input[self.next_position])
        }
    }

    fn skip_whitespace(&mut self)
        requires
            old(self).wf(),
        ensures
            final(self).wf(),
            final(self).input == old(self).input,
            final(self).token_position == old(self).token_position,
            final(self).current_position == whitespace_end(
                old(self).input@,
                old(self).current_position as int,
            ),
            old(self).current_position <= final(self).current_position,
    {
        loop
            invariant
                self.wf(),
                old(self).current_position <= self.current_position,
                self.input == old(self).input,
                self.token_position == old(self).token_position,
                whitespace_end(old(self).input@, old(self).current_position as int)
                    == whitespace_end(self.input@, self.current_position as int),
            ensures
                self.current_position == whitespace_end(
                    old(self).input@,
                    old(self).current_position as int,
                ),
            decreases self.input@.len() - self.current_position,
        {
            match self.current_char {
                Some(ch) => {
                    if ch == SPACE || ch == CARRIAGE_RETURN || ch == LINE_FEED || ch == TAB {
                        self.read_char();
                    } else {
                        break ;
                    }
                },
                None => {
                    break ;
                },
            }
        }
    }
}

} // verus!
