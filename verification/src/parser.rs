//! The parser: recursive descent over a window of two tokens.

use vstd::prelude::*;
use crate::error::{ParseError, ParseErrorView};
use crate::grammar::{
    advance, kind_of, misplaced, parse_array, parse_elements, parse_members, parse_object,
    parse_text, parse_value, position_of, primed, remaining, shift, weight, Lookahead, ParserView,
};
use crate::grammar_laws::{lemma_parse_text_well_formed, well_formed};
use crate::lexer::Lexer;
use crate::number::parse_decimal;
use crate::token::{Token, TokenType};
use crate::value::{
    insert, items_view, lemma_array_view, lemma_object_view, members_view, Value, ValueView,
};

verus! {

/// A parser that owns its scanner and looks two tokens ahead: the current token and the
/// one behind it, each with the position where it started.
#[derive(Debug)]
pub struct Parser {
    lexer: Lexer,
    current_token: Option<Token>,
    peek_token: Option<Token>,
    current_position: usize,
    peek_position: usize,
}

/// The content of a slot of the window.
pub open spec fn slot_view(token: Option<Token>, position: usize) -> Option<Lookahead> {
    match token {
        Some(token) => Some(Lookahead { token: token@, position }),
        None => None,
    }
}

impl View for Parser {
    type V = ParserView;

    closed spec fn view(&self) -> ParserView {
        ParserView {
            input: self.lexer.bytes(),
            position: self.lexer.position(),
            current: slot_view(self.current_token, self.current_position),
            peek: slot_view(self.peek_token, self.peek_position),
        }
    }
}

impl Parser {
    /// The scanner is well-formed.
    pub closed spec fn wf(&self) -> bool {
        self.lexer.wf()
    }

    /// A parser over `lexer` whose window is still empty.
    pub fn new(lexer: Lexer) -> (parser: Self)
        requires
            lexer.wf(),
        ensures
            parser.wf(),
            parser@ == (ParserView {
                input: lexer.bytes(),
                position: lexer.position(),
                current: None,
                peek: None,
            }),
    {
        Parser { lexer, current_token: None, peek_token: None, current_position: 0, peek_position: 0 }
    }

    /// A parser over `lexer` with its window filled. It fails where one of the first two
    /// tokens cannot be scanned.
    pub fn build(lexer: Lexer) -> (r: Result<Self, ParseError>)
        requires
            lexer.wf(),
        ensures
            match r {
                Ok(parser) => parser.wf() && primed(lexer.bytes(), lexer.position()) == Ok::<
                    ParserView,
                    ParseErrorView,
                >(parser@),
                Err(error) => primed(lexer.bytes(), lexer.position()) == Err::<
                    ParserView,
                    ParseErrorView,
                >(error@),
            },
    {
        let mut parser = Self::new(lexer);
        parser.next_token()?;
        parser.next_token()?;
        Ok(parser)
    }

    /// Parses the value that starts at the current token, and leaves the window behind it.
    pub fn parse(&mut self) -> (r: Result<Value, ParseError>)
        requires
            old(self).wf(),
        ensures
            final(self).wf(),
            final(self)@.input == old(self)@.input,
            match r {
                Ok(value) => parse_value(old(self)@) == Ok::<
                    (ValueView, ParserView),
                    ParseErrorView,
                >((value@, final(self)@)) && remaining(final(self)@) < remaining(old(self)@),
                Err(error) => parse_value(old(self)@) == Err::<
                    (ValueView, ParserView),
                    ParseErrorView,
                >(error@),
            },
        decreases remaining(old(self)@), 2int,
    {
        match self.current_kind() {
            None => Err(ParseError::EmptyLookahead),
            Some(TokenType::Null) => self.parse_null(),
            Some(TokenType::String) => self.parse_string(),
            Some(TokenType::Integer) => self.parse_number(),
            Some(TokenType::LBracket) => self.parse_array(),
            Some(TokenType::LBrace) => self.parse_object(),
            Some(TokenType::True) => self.parse_boolean(),
            Some(TokenType::False) => self.parse_boolean(),
            Some(kind) => Err(ParseError::UnexpectedToken(kind, self.current_position)),
        }
    }

    /// Parses the document that the window stands at the start of: one value, with
    /// nothing but the end of the input behind it.
    pub fn parse_to_end(&mut self) -> (r: Result<Value, ParseError>)
        requires
            old(self).wf(),
        ensures
            final(self).wf(),
            match r {
                Ok(value) => parse_value(old(self)@) matches Ok((v, after)) && v == value@
                    && kind_of(after.current) == Some(TokenType::EOF),
                Err(error) => match parse_value(old(self)@) {
                    Ok((v, after)) => kind_of(after.current) != Some(TokenType::EOF) && error@
                        == ParseErrorView::TrailingInput(position_of(after.current)),
                    Err(e) => error@ == e,
                },
            },
    {
        let value = self.parse()?;
        match self.current_kind() {
            Some(TokenType::EOF) => Ok(value),
            _ => Err(ParseError::TrailingInput(self.current_position_or_zero())),
        }
    }

    /// The kind of the current token.
    fn current_kind(&self) -> (kind: Option<TokenType>)
        ensures
            kind == kind_of(self@.current),
    {
        match &self.current_token {
            Some(token) => Some(token.token_type),
            None => None,
        }
    }

    fn current_position_or_zero(&self) -> (position: usize)
        ensures
            position == position_of(self@.current),
    {
        match &self.current_token {
            Some(_) => self.current_position,
            None => 0,
        }
    }

    /// The error for a current token that stands where something else was wanted.
    fn complain(&self, complaint: ParseError) -> (error: ParseError)
        ensures
            error@ == misplaced(self@.current, complaint@),
    {
        match &self.current_token {
            Some(token) => match token.token_type {
                TokenType::EOF => ParseError::UnexpectedToken(TokenType::EOF, self.current_position),
                _ => complaint,
            },
            None => ParseError::EmptyLookahead,
        }
    }

    fn parse_null(&mut self) -> (r: Result<Value, ParseError>)
        requires
            old(self).wf(),
            kind_of(old(self)@.current) == Some(TokenType::Null),
        ensures
            final(self).wf(),
            final(self)@.input == old(self)@.input,
            match r {
                Ok(value) => shift(old(self)@, ValueView::Null) == Ok::<
                    (ValueView, ParserView),
                    ParseErrorView,
                >((value@, final(self)@)) && remaining(final(self)@) < remaining(old(self)@),
                Err(error) => shift(old(self)@, ValueView::Null) == Err::<
                    (ValueView, ParserView),
                    ParseErrorView,
                >(error@),
            },
    {
        self.next_token()?;
        Ok(Value::Null)
    }

    fn parse_boolean(&mut self) -> (r: Result<Value, ParseError>)
        requires
            old(self).wf(),
            kind_of(old(self)@.current) == Some(TokenType::True) || kind_of(old(self)@.current)
                == Some(TokenType::False),
        ensures
            final(self).wf(),
            final(self)@.input == old(self)@.input,
            match r {
                Ok(value) => parse_value(old(self)@) == Ok::<
                    (ValueView, ParserView),
                    ParseErrorView,
                >((value@, final(self)@)) && remaining(final(self)@) < remaining(old(self)@),
                Err(error) => parse_value(old(self)@) == Err::<
                    (ValueView, ParserView),
                    ParseErrorView,
                >(error@),
            },
    {
        let truth = match self.current_kind() {
            Some(TokenType::True) => true,
            _ => false,
        };
        self.next_token()?;
        Ok(Value::Boolean(truth))
    }

    fn parse_string(&mut self) -> (r: Result<Value, ParseError>)
        requires
            old(self).wf(),
            kind_of(old(self)@.current) == Some(TokenType::String),
        ensures
            final(self).wf(),
            final(self)@.input == old(self)@.input,
            match r {
                Ok(value) => parse_value(old(self)@) == Ok::<
                    (ValueView, ParserView),
                    ParseErrorView,
                >((value@, final(self)@)) && remaining(final(self)@) < remaining(old(self)@),
                Err(error) => parse_value(old(self)@) == Err::<
                    (ValueView, ParserView),
                    ParseErrorView,
                >(error@),
            },
    {
        let literal = self.current_literal();
        self.next_token()?;
        Ok(Value::String(literal))
    }

    fn parse_number(&mut self) -> (r: Result<Value, ParseError>)
        requires
            old(self).wf(),
            kind_of(old(self)@.current) == Some(TokenType::Integer),
        ensures
            final(self).wf(),
            final(self)@.input == old(self)@.input,
            match r {
                Ok(value) => parse_value(old(self)@) == Ok::<
                    (ValueView, ParserView),
                    ParseErrorView,
                >((value@, final(self)@)) && remaining(final(self)@) < remaining(old(self)@),
                Err(error) => parse_value(old(self)@) == Err::<
                    (ValueView, ParserView),
                    ParseErrorView,
                >(error@),
            },
    {
        let literal = self.current_literal();
        let bytes = literal.as_str().as_bytes();
        let text = slice_to_vec(bytes);
        match parse_decimal(&text) {
            Some(number) => {
                self.next_token()?;
                Ok(Value::Number(number))
            },
            None => Err(ParseError::InvalidNumber(self.current_position)),
        }
    }

    /// A copy of the current token's literal.
    fn current_literal(&self) -> (literal: String)
        requires
            self@.current.is_some(),
        ensures
            literal@ == self@.current.unwrap().token.literal,
    {
        match &self.current_token {
            Some(token) => token.literal.clone(),
            None => String::new(),
        }
    }

    #[verifier::rlimit(40)]
    fn parse_array(&mut self) -> (r: Result<Value, ParseError>)
        requires
            old(self).wf(),
            kind_of(old(self)@.current) == Some(TokenType::LBracket),
        ensures
            final(self).wf(),
            final(self)@.input == old(self)@.input,
            match r {
                Ok(value) => parse_array(old(self)@) == Ok::<
                    (ValueView, ParserView),
                    ParseErrorView,
                >((value@, final(self)@)) && remaining(final(self)@) < remaining(old(self)@),
                Err(error) => parse_array(old(self)@) == Err::<
                    (ValueView, ParserView),
                    ParseErrorView,
                >(error@),
            },
        decreases remaining(old(self)@), 1int,
    {
        self.next_token()?;
        let mut items: Vec<Value> = Vec::new();
        if let Some(TokenType::RBracket) = self.current_kind() {
            self.next_token()?;
            proof {
                lemma_array_view(items);
                assert(items_view(items@) =~= Seq::empty());
            }
            return Ok(Value::Array(items));
        }
        assert(items_view(items@) =~= Seq::empty());
        loop
            invariant
                self.wf(),
                self@.input == old(self)@.input,
                remaining(self@) < remaining(old(self)@),
                parse_array(old(self)@) == parse_elements(self@, items_view(items@)),
            decreases remaining(self@),
        {
            let ghost before = self@;
            let ghost read = items_view(items@);
            let value = self.parse()?;
            items.push(value);
            assert(items_view(items@) =~= read.push(value@));
            match self.current_kind() {
                Some(TokenType::Comma) => {
                    self.next_token()?;
                },
                Some(TokenType::RBracket) => {
                    self.next_token()?;
                    proof {
                        lemma_array_view(items);
                    }
                    return Ok(Value::Array(items));
                },
                _ => {
                    return Err(
                        self.complain(ParseError::ExpectedCommaOrBracket(self.current_position_or_zero())),
                    );
                },
            }
        }
    }

    #[verifier::rlimit(40)]
    fn parse_object(&mut self) -> (r: Result<Value, ParseError>)
        requires
            old(self).wf(),
            kind_of(old(self)@.current) == Some(TokenType::LBrace),
        ensures
            final(self).wf(),
            final(self)@.input == old(self)@.input,
            match r {
                Ok(value) => parse_object(old(self)@) == Ok::<
                    (ValueView, ParserView),
                    ParseErrorView,
                >((value@, final(self)@)) && remaining(final(self)@) < remaining(old(self)@),
                Err(error) => parse_object(old(self)@) == Err::<
                    (ValueView, ParserView),
                    ParseErrorView,
                >(error@),
            },
        decreases remaining(old(self)@), 1int,
    {
        self.next_token()?;
        let mut members: Vec<(String, Value)> = Vec::new();
        if let Some(TokenType::RBrace) = self.current_kind() {
            self.next_token()?;
            proof {
                lemma_object_view(members);
                assert(members_view(members@) =~= Seq::empty());
            }
            return Ok(Value::Object(members));
        }
        assert(members_view(members@) =~= Seq::empty());
        loop
            invariant
                self.wf(),
                self@.input == old(self)@.input,
                remaining(self@) < remaining(old(self)@),
                parse_object(old(self)@) == parse_members(self@, members_view(members@)),
            decreases remaining(self@),
        {
            let ghost start = self@;
            match self.current_kind() {
                Some(TokenType::String) => {},
                _ => {
                    return Err(
                        self.complain(ParseError::ExpectedKeyOrBrace(self.current_position_or_zero())),
                    );
                },
            }
            let key = self.current_literal();
            self.next_token()?;
            match self.current_kind() {
                Some(TokenType::Colon) => {},
                _ => {
                    return Err(
                        self.complain(ParseError::ExpectedColon(self.current_position_or_zero())),
                    );
                },
            }
            self.next_token()?;
            let value = self.parse()?;
            insert(&mut members, key, value);
            match self.current_kind() {
                Some(TokenType::Comma) => {
                    self.next_token()?;
                },
                Some(TokenType::RBrace) => {
                    self.next_token()?;
                    proof {
                        lemma_object_view(members);
                    }
                    return Ok(Value::Object(members));
                },
                _ => {
                    return Err(
                        self.complain(ParseError::ExpectedKeyOrBrace(self.current_position_or_zero())),
                    );
                },
            }
        }
    }

    /// Takes one token: the window moves on by one.
    fn next_token(&mut self) -> (r: Result<(), ParseError>)
        requires
            old(self).wf(),
        ensures
            final(self).wf(),
            final(self)@.input == old(self)@.input,
            match r {
                Ok(_) => advance(old(self)@) == Ok::<ParserView, ParseErrorView>(final(self)@)
                    && remaining(final(self)@) + weight(old(self)@.current) <= remaining(
                    old(self)@,
                ),
                Err(error) => advance(old(self)@) == Err::<ParserView, ParseErrorView>(error@),
            },
    {
        proof {
            self.lexer.lemma_position_in_bounds();
        }
        self.current_token = self.peek_token.take();
        self.current_position = self.peek_position;
        match self.lexer.next_token() {
            Ok(token) => {
                proof {
                    self.lexer.lemma_position_in_bounds();
                }
                self.peek_position = self.lexer.token_position();
                self.peek_token = Some(token);
                Ok(())
            },
            Err(error) => Err(ParseError::Lex(error)),
        }
    }
}

/// A copy of a slice of bytes.
fn slice_to_vec(bytes: &[u8]) -> (copy: Vec<u8>)
    ensures
        copy@ == bytes@,
{
    let mut copy: Vec<u8> = Vec::new();
    let mut i: usize = 0;
    while i < bytes.len()
        invariant
            i <= bytes@.len(),
            copy@ == bytes@.subrange(0, i as int),
        decreases bytes@.len() - i,
    {
        copy.push(bytes[i]);
        i += 1;
        assert(copy@ =~= bytes@.subrange(0, i as int));
    }
    assert(bytes@.subrange(0, i as int) =~= bytes@);
    copy
}

/// Parses a whole document: one value, with nothing but whitespace around it. In the
/// value no object has two members with one key: a key that the text writes again keeps
/// its first place and takes the last value.
pub fn parse_document(input: Vec<u8>) -> (r: Result<Value, ParseError>)
    ensures
        match r {
            Ok(value) => parse_text(input@) == Ok::<ValueView, ParseErrorView>(value@)
                && well_formed(value@),
            Err(error) => parse_text(input@) == Err::<ValueView, ParseErrorView>(error@),
        },
{
    let ghost text = input@;
    let lexer = Lexer::new(input);
    let mut parser = Parser::build(lexer)?;
    let r = parser.parse_to_end();
    proof {
        if r is Ok {
            lemma_parse_text_well_formed(text);
        }
    }
    r
}

} // verus!
