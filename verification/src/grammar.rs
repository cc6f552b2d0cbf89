//! What the parser produces, stated over the state of its lookahead window.

use vstd::prelude::*;
use vstd::utf8::encode_utf8;
use crate::error::ParseErrorView;
use crate::number::decimal_of;
use crate::scan::scan;
use crate::token::{TokenType, TokenView};
use crate::value::{insert_member, ValueView};

verus! {

/// A token in the lookahead window, and where it started.
pub struct Lookahead {
    pub token: TokenView,
    pub position: usize,
}

/// The state of a parser: the input, where its scanner stands, and the two tokens of
/// lookahead. Both are `None` until the window has been filled.
pub struct ParserView {
    pub input: Seq<u8>,
    pub position: int,
    pub current: Option<Lookahead>,
    pub peek: Option<Lookahead>,
}

/// A value together with the state after it, or the first error.
pub type Parsed = Result<(ValueView, ParserView), ParseErrorView>;

/// The kind of the token in a slot of the window.
pub open spec fn kind_of(slot: Option<Lookahead>) -> Option<TokenType> {
    match slot {
        Some(lookahead) => Some(lookahead.token.token_type),
        None => None,
    }
}

/// Taking one token: `current` becomes `peek`, and `peek` the next token scanned. A
/// scanner's error becomes the parser's.
pub open spec fn advance(state: ParserView) -> Result<ParserView, ParseErrorView> {
    let s = scan(state.input, state.position);
    match s.result {
        Ok(token) => Ok(
            ParserView {
                input: state.input,
                position: s.end,
                current: state.peek,
                peek: Some(Lookahead { token, position: s.start as usize }),
            },
        ),
        Err(error) => Err(ParseErrorView::Lex(error)),
    }
}

/// 1 for a slot that holds a token other than `EOF`, else 0.
pub open spec fn weight(slot: Option<Lookahead>) -> nat {
    match slot {
        Some(lookahead) => if lookahead.token.token_type != TokenType::EOF {
            1
        } else {
            0
        },
        None => 0,
    }
}

/// How much is left to parse: the bytes not yet scanned and the tokens in the window.
/// Taking a token other than `EOF` makes it smaller, which is why the rules below end:
/// where one of them tests that `remaining` has shrunk, the test holds of every state
/// whose scanner stands within its input, and the other branch is never taken.
pub open spec fn remaining(state: ParserView) -> nat {
    (if state.position <= state.input.len() {
        (state.input.len() - state.position) as nat
    } else {
        0
    }) + weight(state.peek) + weight(state.current)
}

/// The value `value`, once its last token has been taken.
pub open spec fn shift(state: ParserView, value: ValueView) -> Parsed {
    match advance(state) {
        Ok(next) => Ok((value, next)),
        Err(error) => Err(error),
    }
}

/// The error for a token that stands where something else was wanted: the end of the
/// input is always reported as an unexpected token, anything else as `complaint`.
pub open spec fn misplaced(slot: Option<Lookahead>, complaint: ParseErrorView) -> ParseErrorView {
    match slot {
        Some(lookahead) => if lookahead.token.token_type == TokenType::EOF {
            ParseErrorView::UnexpectedToken(TokenType::EOF, lookahead.position)
        } else {
            complaint
        },
        None => ParseErrorView::EmptyLookahead,
    }
}

/// The position of the token in a slot; 0 for an empty slot.
pub open spec fn position_of(slot: Option<Lookahead>) -> usize {
    match slot {
        Some(lookahead) => lookahead.position,
        None => 0,
    }
}

/// The value that starts at `current`.
pub open spec fn parse_value(state: ParserView) -> Parsed
    decreases remaining(state), 2int,
{
    match state.current {
        None => Err(ParseErrorView::EmptyLookahead),
        Some(current) => match current.token.token_type {
            TokenType::Null => shift(state, ValueView::Null),
            TokenType::True => shift(state, ValueView::Boolean(true)),
            TokenType::False => shift(state, ValueView::Boolean(false)),
            TokenType::String => shift(state, ValueView::String(current.token.literal)),
            TokenType::Integer => match decimal_of(encode_utf8(current.token.literal)) {
                Some(number) => shift(state, ValueView::Number(number)),
                None => Err(ParseErrorView::InvalidNumber(current.position)),
            },
            TokenType::LBracket => parse_array(state),
            TokenType::LBrace => parse_object(state),
            kind => Err(ParseErrorView::UnexpectedToken(kind, current.position)),
        },
    }
}

/// The array whose `[` is `current`.
pub open spec fn parse_array(state: ParserView) -> Parsed
    decreases remaining(state), 1int,
{
    match advance(state) {
        Err(error) => Err(error),
        Ok(inside) => if kind_of(inside.current) == Some(TokenType::RBracket) {
            shift(inside, ValueView::Array(Seq::empty()))
        } else if remaining(inside) < remaining(state) {
            parse_elements(inside, Seq::empty())
        } else {
            Err(ParseErrorView::EmptyLookahead)
        },
    }
}

/// The rest of an array of which `items` have been read, from the next element on.
pub open spec fn parse_elements(state: ParserView, items: Seq<ValueView>) -> Parsed
    decreases remaining(state), 3int,
{
    match parse_value(state) {
        Err(error) => Err(error),
        Ok((value, after)) => if kind_of(after.current) == Some(TokenType::Comma) {
            match advance(after) {
                Err(error) => Err(error),
                Ok(next) => if remaining(next) < remaining(state) {
                    parse_elements(next, items.push(value))
                } else {
                    Err(ParseErrorView::EmptyLookahead)
                },
            }
        } else if kind_of(after.current) == Some(TokenType::RBracket) {
            shift(after, ValueView::Array(items.push(value)))
        } else {
            Err(
                misplaced(
                    after.current,
                    ParseErrorView::ExpectedCommaOrBracket(position_of(after.current)),
                ),
            )
        },
    }
}

/// The object whose `{` is `current`.
pub open spec fn parse_object(state: ParserView) -> Parsed
    decreases remaining(state), 1int,
{
    match advance(state) {
        Err(error) => Err(error),
        Ok(inside) => if kind_of(inside.current) == Some(TokenType::RBrace) {
            shift(inside, ValueView::Object(Seq::empty()))
        } else if remaining(inside) < remaining(state) {
            parse_members(inside, Seq::empty())
        } else {
            Err(ParseErrorView::EmptyLookahead)
        },
    }
}

/// The rest of an object of which `members` have been read, from the next key on.
pub open spec fn parse_members(
    state: ParserView,
    members: Seq<(Seq<char>, ValueView)>,
) -> Parsed
    decreases remaining(state), 3int,
{
    if kind_of(state.current) != Some(TokenType::String) {
        Err(
            misplaced(
                state.current,
                ParseErrorView::ExpectedKeyOrBrace(position_of(state.current)),
            ),
        )
    } else {
        let key = state.current.unwrap().token.literal;
        match advance(state) {
            Err(error) => Err(error),
            Ok(at_colon) => if kind_of(at_colon.current) != Some(TokenType::Colon) {
                Err(
                    misplaced(
                        at_colon.current,
                        ParseErrorView::ExpectedColon(position_of(at_colon.current)),
                    ),
                )
            } else {
                match advance(at_colon) {
                    Err(error) => Err(error),
                    Ok(at_value) => if remaining(at_value) < remaining(state) {
                        match parse_value(at_value) {
                            Err(error) => Err(error),
                            Ok((value, after)) => parse_member_end(
                                state,
                                after,
                                insert_member(members, key, value),
                            ),
                        }
                    } else {
                        Err(ParseErrorView::EmptyLookahead)
                    },
                }
            },
        }
    }
}

/// What follows a member: `,` and the next member, or `}`. `start` is the state in which
/// the member began.
pub open spec fn parse_member_end(
    start: ParserView,
    after: ParserView,
    members: Seq<(Seq<char>, ValueView)>,
) -> Parsed
    decreases remaining(start), 2int,
{
    if kind_of(after.current) == Some(TokenType::Comma) {
        match advance(after) {
            Err(error) => Err(error),
            Ok(next) => if remaining(next) < remaining(start) {
                parse_members(next, members)
            } else {
                Err(ParseErrorView::EmptyLookahead)
            },
        }
    } else if kind_of(after.current) == Some(TokenType::RBrace) {
        shift(after, ValueView::Object(members))
    } else {
        Err(
            misplaced(
                after.current,
                ParseErrorView::ExpectedKeyOrBrace(position_of(after.current)),
            ),
        )
    }
}

/// The state of a parser over `input` whose scanner stands at `position`, once its window
/// has been filled.
pub open spec fn primed(input: Seq<u8>, position: int) -> Result<ParserView, ParseErrorView> {
    match advance(ParserView { input, position, current: None, peek: None }) {
        Err(error) => Err(error),
        Ok(half) => advance(half),
    }
}

/// The value of a whole document: one value, and nothing but the end of the input
/// behind it.
pub open spec fn parse_text(input: Seq<u8>) -> Result<ValueView, ParseErrorView> {
    match primed(input, 0) {
        Err(error) => Err(error),
        Ok(state) => match parse_value(state) {
            Err(error) => Err(error),
            Ok((value, after)) => if kind_of(after.current) == Some(TokenType::EOF) {
                Ok(value)
            } else {
                Err(ParseErrorView::TrailingInput(position_of(after.current)))
            },
        },
    }
}

} // verus!
