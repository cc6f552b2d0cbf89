//! Documents: what a JSON text is made of, the tokens that spell it and the value it
//! stands for.

use vstd::prelude::*;
use vstd::utf8::encode_utf8;
use crate::number::decimal_of;
use crate::token::{TokenType, TokenView};
use crate::value::{insert_member, ValueView};

verus! {

/// The structure of a JSON text: scalars as they are written, arrays of documents, and
/// objects as their members in the order written, a key as often as it is written.
pub enum Document {
    Null,
    True,
    False,
    /// A number, by its literal.
    Number(Seq<char>),
    /// A string, by its content with the escapes resolved.
    String(Seq<char>),
    Array(Seq<Document>),
    Object(Seq<(Seq<char>, Document)>),
}

pub open spec fn token(token_type: TokenType, literal: Seq<char>) -> TokenView {
    TokenView { token_type, literal }
}

/// The tokens that spell a document, in order.
pub open spec fn tokens_of(doc: Document) -> Seq<TokenView>
    decreases doc, 0nat,
{
    match doc {
        Document::Null => seq![token(TokenType::Null, "null"@)],
        Document::True => seq![token(TokenType::True, "true"@)],
        Document::False => seq![token(TokenType::False, "false"@)],
        Document::Number(literal) => seq![token(TokenType::Integer, literal)],
        Document::String(content) => seq![token(TokenType::String, content)],
        Document::Array(items) => if items.len() == 0 {
            seq![token(TokenType::LBracket, seq!['[']), token(TokenType::RBracket, seq![']'])]
        } else {
            seq![token(TokenType::LBracket, seq!['['])] + elements_tokens(items, 0)
        },
        Document::Object(members) => if members.len() == 0 {
            seq![token(TokenType::LBrace, seq!['{']), token(TokenType::RBrace, seq!['}'])]
        } else {
            seq![token(TokenType::LBrace, seq!['{'])] + members_tokens(members, 0)
        },
    }
}

/// The tokens of the items from `from` on, with a `,` between two items and `]` behind
/// the last.
pub open spec fn elements_tokens(items: Seq<Document>, from: int) -> Seq<TokenView>
    decreases items, items.len() - from,
{
    if from < 0 || from >= items.len() {
        Seq::empty()
    } else if from + 1 == items.len() {
        tokens_of(items[from]) + seq![token(TokenType::RBracket, seq![']'])]
    } else {
        tokens_of(items[from]) + (seq![token(TokenType::Comma, seq![','])] + elements_tokens(
            items,
            from + 1,
        ))
    }
}

/// The tokens of the members from `from` on: key, `:` and value, with a `,` between two
/// members and `}` behind the last.
pub open spec fn members_tokens(members: Seq<(Seq<char>, Document)>, from: int) -> Seq<
    TokenView,
>
    decreases members, members.len() - from,
{
    if from < 0 || from >= members.len() {
        Seq::empty()
    } else {
        let head = seq![
            token(TokenType::String, members[from].0),
            token(TokenType::Colon, seq![':']),
        ] + tokens_of(members[from].1);
        if from + 1 == members.len() {
            head + seq![token(TokenType::RBrace, seq!['}'])]
        } else {
            head + (seq![token(TokenType::Comma, seq![','])] + members_tokens(members, from + 1))
        }
    }
}

/// Every number in the document is one that the number type can hold.
pub open spec fn representable(doc: Document) -> bool
    decreases doc,
{
    match doc {
        Document::Number(literal) => decimal_of(encode_utf8(literal)) is Some,
        Document::Array(items) => forall|i: int|
            0 <= i < items.len() ==> representable(#[trigger] items[i]),
        Document::Object(members) => forall|i: int|
            0 <= i < members.len() ==> representable((#[trigger] members[i]).1),
        _ => true,
    }
}

/// The value that a document stands for. In an object a key keeps the place where it
/// was written first and has the value that was written last.
pub open spec fn value_of(doc: Document) -> ValueView
    decreases doc, 0nat,
{
    match doc {
        Document::Null => ValueView::Null,
        Document::True => ValueView::Boolean(true),
        Document::False => ValueView::Boolean(false),
        Document::Number(literal) => match decimal_of(encode_utf8(literal)) {
            Some(number) => ValueView::Number(number),
            None => ValueView::Null,
        },
        Document::String(content) => ValueView::String(content),
        Document::Array(items) => ValueView::Array(values_upto(items, items.len() as int)),
        Document::Object(members) => ValueView::Object(
            members_upto(members, members.len() as int),
        ),
    }
}

/// The values of the first `count` items.
pub open spec fn values_upto(items: Seq<Document>, count: int) -> Seq<ValueView>
    decreases items, count,
{
    if count <= 0 || count > items.len() {
        Seq::empty()
    } else {
        values_upto(items, count - 1).push(value_of(items[count - 1]))
    }
}

/// The members that the first `count` written members leave.
pub open spec fn members_upto(members: Seq<(Seq<char>, Document)>, count: int) -> Seq<
    (Seq<char>, ValueView),
>
    decreases members, count,
{
    if count <= 0 || count > members.len() {
        Seq::empty()
    } else {
        insert_member(
            members_upto(members, count - 1),
            members[count - 1].0,
            value_of(members[count - 1].1),
        )
    }
}

} // verus!
