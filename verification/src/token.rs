//! Tokens: the atomic lexical units handed from the scanner to the parser.

use vstd::prelude::*;

verus! {

/// The kind of a token.
#[derive(Debug, Clone, Copy, PartialEq, Eq, Structural)]
pub enum TokenType {
    LBrace,
    RBrace,
    LBracket,
    RBracket,
    Colon,
    Comma,
    Period,
    Plus,
    Minus,
    /// A number literal: digits with an optional leading `-`, fraction and exponent.
    Integer,
    String,
    Null,
    True,
    False,
    EOF,
}

/// A kind together with the text the token stands for.
#[derive(Debug, PartialEq)]
pub struct Token {
    pub token_type: TokenType,
    pub literal: String,
}

/// The mathematical content of a [`Token`].
pub struct TokenView {
    pub token_type: TokenType,
    pub literal: Seq<char>,
}

impl View for Token {
    type V = TokenView;

    open spec fn view(&self) -> TokenView {
        TokenView { token_type: self.token_type, literal: self.literal@ }
    }
}

impl Token {
    pub fn new(token_type: TokenType, literal: String) -> (token: Self)
        ensures
            token@ == (TokenView { token_type, literal: literal@ }),
    {
        Token { token_type, literal }
    }
}

/// Makes a token of the given kind whose literal is a copy of `literal`.
pub fn build_token(token_type: TokenType, literal: &str) -> (token: Token)
    ensures
        token@ == (TokenView { token_type, literal: literal@ }),
{
    Token::new(token_type, literal.to_owned())
}

/// The keyword table: the kind that a run of lowercase letters spells, if any.
pub open spec fn keyword_kind(text: Seq<char>) -> Option<TokenType> {
    if text == "null"@ {
        Some(TokenType::Null)
    } else if text == "true"@ {
        Some(TokenType::True)
    } else if text == "false"@ {
        Some(TokenType::False)
    } else {
        None
    }
}

/// Resolves a keyword spelling against the keyword table.
pub fn lookup_keyword(literal: &str) -> (kind: Option<TokenType>)
    ensures
        kind == keyword_kind(literal@),
{
    let text = literal.to_owned();
    if text == "null".to_owned() {
        Some(TokenType::Null)
    } else if text == "true".to_owned() {
        Some(TokenType::True)
    } else if text == "false".to_owned() {
        Some(TokenType::False)
    } else {
        None
    }
}

/// A keyword is `null`, `true` or `false`: the keyword table holds no other kind.
pub proof fn lemma_keyword_kinds_are_keywords()
    ensures
        forall|text: Seq<char>| #[trigger]
            keyword_kind(text) matches Some(kind) ==> kind == TokenType::Null || kind
                == TokenType::True || kind == TokenType::False,
{
}

/// The three keywords are told apart and each resolves to its own kind.
pub proof fn lemma_keyword_table()
    ensures
        keyword_kind("null"@) == Some(TokenType::Null),
        keyword_kind("true"@) == Some(TokenType::True),
        keyword_kind("false"@) == Some(TokenType::False),
        keyword_kind(Seq::empty()) == None::<TokenType>,
{
    reveal_strlit("null");
    reveal_strlit("true");
    reveal_strlit("false");
    assert("null"@.len() == 4);
    assert("true"@.len() == 4);
    assert("false"@.len() == 5);
    assert("true"@[0] == 't');
    assert("null"@[0] == 'n');
}

} // verus!
