//! The parsed value depends on the tokens alone, not on where they stand in the text.

use vstd::prelude::*;
use crate::grammar::{
    advance, kind_of, parse_array, parse_elements, parse_member_end, parse_members, parse_object,
    parse_text, parse_value, primed, remaining, weight, Lookahead, ParserView,
};
use crate::grammar_laws::{lemma_advance_progress, valid};
use crate::token::{TokenType, TokenView};
use crate::value::{insert_member, ValueView};

verus! {

/// The token in a slot of the window, without its position.
pub open spec fn token_of(slot: Option<Lookahead>) -> Option<TokenView> {
    match slot {
        Some(lookahead) => Some(lookahead.token),
        None => None,
    }
}

/// For the next `steps` tokens taken, `b` hands out what `a` hands out: the current
/// tokens are the same, and wherever `a` can take a token, `b` can, and the same holds
/// of the two states behind it.
pub open spec fn same_tokens(a: ParserView, b: ParserView, steps: nat) -> bool
    decreases steps,
{
    &&& token_of(a.current) == token_of(b.current)
    &&& steps > 0 && advance(a) is Ok ==> advance(b) is Ok && same_tokens(
        advance(a)->Ok_0,
        advance(b)->Ok_0,
        (steps - 1) as nat,
    )
}

/// What holds for some number of steps holds for fewer.
pub proof fn lemma_same_tokens_for_fewer(a: ParserView, b: ParserView, steps: nat, fewer: nat)
    requires
        same_tokens(a, b, steps),
        fewer <= steps,
    ensures
        same_tokens(a, b, fewer),
    decreases fewer,
{
    if fewer > 0 && advance(a) is Ok {
        lemma_same_tokens_for_fewer(
            advance(a)->Ok_0,
            advance(b)->Ok_0,
            (steps - 1) as nat,
            (fewer - 1) as nat,
        );
    }
}

/// Taking a token other than `EOF` from both states keeps them in step.
pub proof fn lemma_take_token(a: ParserView, b: ParserView)
    requires
        valid(a),
        valid(b),
        same_tokens(a, b, remaining(a)),
        weight(a.current) == 1,
        advance(a) is Ok,
    ensures
        advance(b) is Ok,
        valid(advance(a)->Ok_0),
        valid(advance(b)->Ok_0),
        remaining(advance(a)->Ok_0) < remaining(a),
        remaining(advance(b)->Ok_0) < remaining(b),
        same_tokens(advance(a)->Ok_0, advance(b)->Ok_0, remaining(advance(a)->Ok_0)),
        kind_of(advance(a)->Ok_0.current) == kind_of(advance(b)->Ok_0.current),
{
    lemma_advance_progress(a);
    lemma_advance_progress(b);
    lemma_same_tokens_for_fewer(
        advance(a)->Ok_0,
        advance(b)->Ok_0,
        (remaining(a) - 1) as nat,
        remaining(advance(a)->Ok_0),
    );
}

/// Where `b` hands out the tokens that `a` hands out and `a` yields a value, `b` yields
/// the same value and the two states behind it are in step again.
#[verifier::spinoff_prover]
#[verifier::rlimit(40)]
pub proof fn lemma_value_from_tokens(a: ParserView, b: ParserView)
    requires
        valid(a),
        valid(b),
        same_tokens(a, b, remaining(a)),
        parse_value(a) is Ok,
    ensures
        parse_value(b) is Ok,
        parse_value(b)->Ok_0.0 == parse_value(a)->Ok_0.0,
        valid(parse_value(a)->Ok_0.1),
        valid(parse_value(b)->Ok_0.1),
        remaining(parse_value(a)->Ok_0.1) < remaining(a),
        remaining(parse_value(b)->Ok_0.1) < remaining(b),
        same_tokens(
            parse_value(a)->Ok_0.1,
            parse_value(b)->Ok_0.1,
            remaining(parse_value(a)->Ok_0.1),
        ),
    decreases remaining(a), 2int,
{
    let current = a.current.unwrap();
    match current.token.token_type {
        TokenType::LBracket => {
            lemma_array_from_tokens(a, b);
        },
        TokenType::LBrace => {
            lemma_object_from_tokens(a, b);
        },
        _ => {
            lemma_take_token(a, b);
        },
    }
}

/// The same for an array.
pub proof fn lemma_array_from_tokens(a: ParserView, b: ParserView)
    requires
        valid(a),
        valid(b),
        same_tokens(a, b, remaining(a)),
        kind_of(a.current) == Some(TokenType::LBracket),
        parse_array(a) is Ok,
    ensures
        parse_array(b) is Ok,
        parse_array(b)->Ok_0.0 == parse_array(a)->Ok_0.0,
        valid(parse_array(a)->Ok_0.1),
        valid(parse_array(b)->Ok_0.1),
        remaining(parse_array(a)->Ok_0.1) < remaining(a),
        remaining(parse_array(b)->Ok_0.1) < remaining(b),
        same_tokens(
            parse_array(a)->Ok_0.1,
            parse_array(b)->Ok_0.1,
            remaining(parse_array(a)->Ok_0.1),
        ),
    decreases remaining(a), 1int,
{
    lemma_take_token(a, b);
    let inside_a = advance(a)->Ok_0;
    let inside_b = advance(b)->Ok_0;
    if kind_of(inside_a.current) == Some(TokenType::RBracket) {
        lemma_take_token(inside_a, inside_b);
    } else {
        lemma_elements_from_tokens(inside_a, inside_b, Seq::empty());
    }
}

/// The same for the rest of an array.
#[verifier::spinoff_prover]
#[verifier::rlimit(40)]
pub proof fn lemma_elements_from_tokens(a: ParserView, b: ParserView, items: Seq<ValueView>)
    requires
        valid(a),
        valid(b),
        same_tokens(a, b, remaining(a)),
        parse_elements(a, items) is Ok,
    ensures
        parse_elements(b, items) is Ok,
        parse_elements(b, items)->Ok_0.0 == parse_elements(a, items)->Ok_0.0,
        valid(parse_elements(a, items)->Ok_0.1),
        valid(parse_elements(b, items)->Ok_0.1),
        remaining(parse_elements(a, items)->Ok_0.1) < remaining(a),
        remaining(parse_elements(b, items)->Ok_0.1) < remaining(b),
        same_tokens(
            parse_elements(a, items)->Ok_0.1,
            parse_elements(b, items)->Ok_0.1,
            remaining(parse_elements(a, items)->Ok_0.1),
        ),
    decreases remaining(a), 3int,
{
    lemma_value_from_tokens(a, b);
    let (value, after_a) = parse_value(a)->Ok_0;
    let after_b = parse_value(b)->Ok_0.1;
    assert(kind_of(after_a.current) == kind_of(after_b.current));
    lemma_take_token(after_a, after_b);
    if kind_of(after_a.current) == Some(TokenType::Comma) {
        lemma_elements_from_tokens(advance(after_a)->Ok_0, advance(after_b)->Ok_0, items.push(value));
    }
}

/// The same for an object.
pub proof fn lemma_object_from_tokens(a: ParserView, b: ParserView)
    requires
        valid(a),
        valid(b),
        same_tokens(a, b, remaining(a)),
        kind_of(a.current) == Some(TokenType::LBrace),
        parse_object(a) is Ok,
    ensures
        parse_object(b) is Ok,
        parse_object(b)->Ok_0.0 == parse_object(a)->Ok_0.0,
        valid(parse_object(a)->Ok_0.1),
        valid(parse_object(b)->Ok_0.1),
        remaining(parse_object(a)->Ok_0.1) < remaining(a),
        remaining(parse_object(b)->Ok_0.1) < remaining(b),
        same_tokens(
            parse_object(a)->Ok_0.1,
            parse_object(b)->Ok_0.1,
            remaining(parse_object(a)->Ok_0.1),
        ),
    decreases remaining(a), 1int,
{
    lemma_take_token(a, b);
    let inside_a = advance(a)->Ok_0;
    let inside_b = advance(b)->Ok_0;
    if kind_of(inside_a.current) == Some(TokenType::RBrace) {
        lemma_take_token(inside_a, inside_b);
    } else {
        lemma_members_from_tokens(inside_a, inside_b, Seq::empty());
    }
}

/// The same for the rest of an object.
#[verifier::spinoff_prover]
#[verifier::rlimit(40)]
pub proof fn lemma_members_from_tokens(
    a: ParserView,
    b: ParserView,
    members: Seq<(Seq<char>, ValueView)>,
)
    requires
        valid(a),
        valid(b),
        same_tokens(a, b, remaining(a)),
        parse_members(a, members) is Ok,
    ensures
        parse_members(b, members) is Ok,
        parse_members(b, members)->Ok_0.0 == parse_members(a, members)->Ok_0.0,
        valid(parse_members(a, members)->Ok_0.1),
        valid(parse_members(b, members)->Ok_0.1),
        remaining(parse_members(a, members)->Ok_0.1) < remaining(a),
        remaining(parse_members(b, members)->Ok_0.1) < remaining(b),
        same_tokens(
            parse_members(a, members)->Ok_0.1,
            parse_members(b, members)->Ok_0.1,
            remaining(parse_members(a, members)->Ok_0.1),
        ),
    decreases remaining(a), 3int,
{
    let key = a.current.unwrap().token.literal;
    lemma_take_token(a, b);
    let colon_a = advance(a)->Ok_0;
    let colon_b = advance(b)->Ok_0;
    lemma_take_token(colon_a, colon_b);
    let value_a = advance(colon_a)->Ok_0;
    let value_b = advance(colon_b)->Ok_0;
    lemma_value_from_tokens(value_a, value_b);
    let (value, after_a) = parse_value(value_a)->Ok_0;
    let after_b = parse_value(value_b)->Ok_0.1;
    lemma_member_end_from_tokens(a, b, after_a, after_b, insert_member(members, key, value));
}

/// The same for what follows a member.
#[verifier::spinoff_prover]
#[verifier::rlimit(40)]
pub proof fn lemma_member_end_from_tokens(
    start_a: ParserView,
    start_b: ParserView,
    a: ParserView,
    b: ParserView,
    members: Seq<(Seq<char>, ValueView)>,
)
    requires
        valid(a),
        valid(b),
        remaining(a) < remaining(start_a),
        remaining(b) < remaining(start_b),
        same_tokens(a, b, remaining(a)),
        parse_member_end(start_a, a, members) is Ok,
    ensures
        parse_member_end(start_b, b, members) is Ok,
        parse_member_end(start_b, b, members)->Ok_0.0 == parse_member_end(
            start_a,
            a,
            members,
        )->Ok_0.0,
        valid(parse_member_end(start_a, a, members)->Ok_0.1),
        valid(parse_member_end(start_b, b, members)->Ok_0.1),
        remaining(parse_member_end(start_a, a, members)->Ok_0.1) < remaining(start_a),
        remaining(parse_member_end(start_b, b, members)->Ok_0.1) < remaining(start_b),
        same_tokens(
            parse_member_end(start_a, a, members)->Ok_0.1,
            parse_member_end(start_b, b, members)->Ok_0.1,
            remaining(parse_member_end(start_a, a, members)->Ok_0.1),
        ),
    decreases remaining(start_a), 2int,
{
    lemma_take_token(a, b);
    if kind_of(a.current) == Some(TokenType::Comma) {
        lemma_members_from_tokens(advance(a)->Ok_0, advance(b)->Ok_0, members);
    }
}

/// Two texts whose scanners hand out the same tokens parse to the same value: where the
/// tokens stand, and what whitespace lies between them, changes nothing.
#[verifier::spinoff_prover]
#[verifier::rlimit(40)]
pub proof fn lemma_document_from_tokens(a: Seq<u8>, b: Seq<u8>)
    requires
        parse_text(a) is Ok,
        primed(b, 0) is Ok,
        same_tokens(primed(a, 0)->Ok_0, primed(b, 0)->Ok_0, remaining(primed(a, 0)->Ok_0)),
    ensures
        parse_text(b) == parse_text(a),
{
    let empty_a = ParserView { input: a, position: 0, current: None, peek: None };
    let empty_b = ParserView { input: b, position: 0, current: None, peek: None };
    lemma_advance_progress(empty_a);
    lemma_advance_progress(advance(empty_a)->Ok_0);
    lemma_advance_progress(empty_b);
    lemma_advance_progress(advance(empty_b)->Ok_0);
    lemma_value_from_tokens(primed(a, 0)->Ok_0, primed(b, 0)->Ok_0);
}

} // verus!
