//! What holds of every parse.

use vstd::prelude::*;
use vstd::utf8::encode_utf8;
use crate::grammar::{
    advance, kind_of, parse_array, parse_elements, parse_member_end, parse_members, parse_object,
    parse_text, parse_value, primed, remaining, weight, ParserView,
};
use crate::number::decimal_of;
use crate::scan_laws::lemma_scan_advances;
use crate::token::TokenType;
use crate::value::{
    has_key, insert_member, is_first_with_key, keys_unique, lemma_first_with_key_exists,
    lemma_insert_keeps_keys_unique, ValueView,
};

verus! {

/// The scanner of this state stands within its input.
pub open spec fn valid(state: ParserView) -> bool {
    0 <= state.position <= state.input.len()
}

/// No object in the value, at any depth, has two members with one key.
pub open spec fn well_formed(value: ValueView) -> bool
    decreases value,
{
    match value {
        ValueView::Array(items) => forall|i: int|
            0 <= i < items.len() ==> well_formed(#[trigger] items[i]),
        ValueView::Object(members) => keys_unique(members) && forall|i: int|
            0 <= i < members.len() ==> well_formed((#[trigger] members[i]).1),
        _ => true,
    }
}

/// Every item is well-formed.
pub open spec fn items_well_formed(items: Seq<ValueView>) -> bool {
    forall|i: int| 0 <= i < items.len() ==> well_formed(#[trigger] items[i])
}

/// Every member's value is well-formed and no key occurs twice.
pub open spec fn members_well_formed(members: Seq<(Seq<char>, ValueView)>) -> bool {
    keys_unique(members) && forall|i: int|
        0 <= i < members.len() ==> well_formed((#[trigger] members[i]).1)
}

/// An array is well-formed exactly when its items are, an object exactly when its
/// members are.
pub proof fn lemma_well_formed_unfolds(value: ValueView)
    ensures
        value matches ValueView::Array(items) ==> well_formed(value) == items_well_formed(items),
        value matches ValueView::Object(members) ==> well_formed(value) == members_well_formed(
            members,
        ),
{
    reveal_with_fuel(well_formed, 2);
}

/// The value agrees with the token it started at: a keyword gives its scalar, a string
/// token its literal, a number token the number its literal spells, `[` an array and `{`
/// an object.
pub open spec fn follows_first_token(state: ParserView, value: ValueView) -> bool {
    match state.current {
        None => false,
        Some(current) => match current.token.token_type {
            TokenType::Null => value == ValueView::Null,
            TokenType::True => value == ValueView::Boolean(true),
            TokenType::False => value == ValueView::Boolean(false),
            TokenType::String => value == ValueView::String(current.token.literal),
            TokenType::Integer => decimal_of(encode_utf8(current.token.literal)) matches Some(n)
                && value == ValueView::Number(n),
            TokenType::LBracket => value is Array,
            TokenType::LBrace => value is Object,
            _ => false,
        },
    }
}

/// Taking a token keeps the scanner within the input and moves the window on by one;
/// what is left to parse does not grow, and shrinks where the token taken was not `EOF`.
pub proof fn lemma_advance_progress(state: ParserView)
    requires
        valid(state),
        advance(state) is Ok,
    ensures
        valid(advance(state)->Ok_0),
        advance(state)->Ok_0.input == state.input,
        advance(state)->Ok_0.current == state.peek,
        remaining(advance(state)->Ok_0) + weight(state.current) <= remaining(state),
{
    lemma_scan_advances(state.input, state.position);
}

/// Once the window has been filled, both of its slots hold a token.
pub proof fn lemma_primed_window_is_full(input: Seq<u8>, position: int)
    requires
        primed(input, position) is Ok,
    ensures
        primed(input, position)->Ok_0.current is Some,
        primed(input, position)->Ok_0.peek is Some,
{
}

/// A full window stays full when a token is taken.
pub proof fn lemma_window_stays_full(state: ParserView)
    requires
        state.peek is Some,
        advance(state) is Ok,
    ensures
        advance(state)->Ok_0.current is Some,
        advance(state)->Ok_0.peek is Some,
{
}

/// At the end of the input a token can always be taken, the scanner stays where it is
/// and the window fills up with `EOF`: once both slots hold it, they hold it for good.
pub proof fn lemma_window_at_end_of_input(state: ParserView)
    requires
        state.position == state.input.len(),
    ensures
        advance(state) is Ok,
        advance(state)->Ok_0.position == state.position,
        advance(state)->Ok_0.current == state.peek,
        kind_of(advance(state)->Ok_0.peek) == Some(TokenType::EOF),
{
}

/// A value that was parsed is well-formed and agrees with the token it started at; the
/// parse took at least one token and left the scanner within the same input.
#[verifier::spinoff_prover]
#[verifier::rlimit(40)]
pub proof fn lemma_parse_value(state: ParserView)
    requires
        valid(state),
        parse_value(state) is Ok,
    ensures
        valid(parse_value(state)->Ok_0.1),
        parse_value(state)->Ok_0.1.input == state.input,
        remaining(parse_value(state)->Ok_0.1) < remaining(state),
        well_formed(parse_value(state)->Ok_0.0),
        follows_first_token(state, parse_value(state)->Ok_0.0),
    decreases remaining(state), 2int,
{
    let current = state.current.unwrap();
    match current.token.token_type {
        TokenType::LBracket => {
            lemma_parse_array(state);
        },
        TokenType::LBrace => {
            lemma_parse_object(state);
        },
        _ => {
            lemma_advance_progress(state);
        },
    }
}

/// An array that was parsed is well-formed.
pub proof fn lemma_parse_array(state: ParserView)
    requires
        valid(state),
        kind_of(state.current) == Some(TokenType::LBracket),
        parse_array(state) is Ok,
    ensures
        valid(parse_array(state)->Ok_0.1),
        parse_array(state)->Ok_0.1.input == state.input,
        remaining(parse_array(state)->Ok_0.1) < remaining(state),
        well_formed(parse_array(state)->Ok_0.0),
        parse_array(state)->Ok_0.0 is Array,
    decreases remaining(state), 1int,
{
    lemma_advance_progress(state);
    let inside = advance(state)->Ok_0;
    if kind_of(inside.current) == Some(TokenType::RBracket) {
        lemma_advance_progress(inside);
        lemma_well_formed_unfolds(ValueView::Array(Seq::empty()));
    } else {
        lemma_parse_elements(inside, Seq::empty());
    }
}

/// The rest of an array keeps it well-formed.
#[verifier::spinoff_prover]
#[verifier::rlimit(40)]
pub proof fn lemma_parse_elements(state: ParserView, items: Seq<ValueView>)
    requires
        valid(state),
        items_well_formed(items),
        parse_elements(state, items) is Ok,
    ensures
        valid(parse_elements(state, items)->Ok_0.1),
        parse_elements(state, items)->Ok_0.1.input == state.input,
        remaining(parse_elements(state, items)->Ok_0.1) < remaining(state),
        well_formed(parse_elements(state, items)->Ok_0.0),
        parse_elements(state, items)->Ok_0.0 is Array,
    decreases remaining(state), 3int,
{
    lemma_parse_value(state);
    let (value, after) = parse_value(state)->Ok_0;
    let longer = items.push(value);
    lemma_well_formed_unfolds(ValueView::Array(longer));
    assert(items_well_formed(longer)) by {
        assert forall|i: int| 0 <= i < longer.len() implies well_formed(#[trigger] longer[i]) by {
            if i < items.len() {
                assert(longer[i] == items[i]);
                assert(well_formed(items[i]));
            } else {
                assert(longer[i] == value);
                assert(well_formed(value));
            }
        }
    }
    lemma_advance_progress(after);
    if kind_of(after.current) == Some(TokenType::Comma) {
        lemma_parse_elements(advance(after)->Ok_0, longer);
    }
}

/// An object that was parsed is well-formed.
pub proof fn lemma_parse_object(state: ParserView)
    requires
        valid(state),
        kind_of(state.current) == Some(TokenType::LBrace),
        parse_object(state) is Ok,
    ensures
        valid(parse_object(state)->Ok_0.1),
        parse_object(state)->Ok_0.1.input == state.input,
        remaining(parse_object(state)->Ok_0.1) < remaining(state),
        well_formed(parse_object(state)->Ok_0.0),
        parse_object(state)->Ok_0.0 is Object,
    decreases remaining(state), 1int,
{
    lemma_advance_progress(state);
    let inside = advance(state)->Ok_0;
    if kind_of(inside.current) == Some(TokenType::RBrace) {
        lemma_advance_progress(inside);
        lemma_well_formed_unfolds(ValueView::Object(Seq::empty()));
    } else {
        lemma_parse_members(inside, Seq::empty());
    }
}

/// The rest of an object keeps it well-formed.
#[verifier::spinoff_prover]
#[verifier::rlimit(40)]
pub proof fn lemma_parse_members(state: ParserView, members: Seq<(Seq<char>, ValueView)>)
    requires
        valid(state),
        members_well_formed(members),
        parse_members(state, members) is Ok,
    ensures
        valid(parse_members(state, members)->Ok_0.1),
        parse_members(state, members)->Ok_0.1.input == state.input,
        remaining(parse_members(state, members)->Ok_0.1) < remaining(state),
        well_formed(parse_members(state, members)->Ok_0.0),
        parse_members(state, members)->Ok_0.0 is Object,
    decreases remaining(state), 3int,
{
    let key = state.current.unwrap().token.literal;
    lemma_advance_progress(state);
    let at_colon = advance(state)->Ok_0;
    lemma_advance_progress(at_colon);
    let at_value = advance(at_colon)->Ok_0;
    lemma_parse_value(at_value);
    let (value, after) = parse_value(at_value)->Ok_0;
    lemma_insert_keeps_well_formed(members, key, value);
    lemma_parse_member_end(state, after, insert_member(members, key, value));
}

/// What follows a member keeps the object well-formed.
pub proof fn lemma_parse_member_end(
    start: ParserView,
    after: ParserView,
    members: Seq<(Seq<char>, ValueView)>,
)
    requires
        valid(start),
        valid(after),
        after.input == start.input,
        remaining(after) < remaining(start),
        members_well_formed(members),
        parse_member_end(start, after, members) is Ok,
    ensures
        valid(parse_member_end(start, after, members)->Ok_0.1),
        parse_member_end(start, after, members)->Ok_0.1.input == start.input,
        remaining(parse_member_end(start, after, members)->Ok_0.1) < remaining(start),
        well_formed(parse_member_end(start, after, members)->Ok_0.0),
        parse_member_end(start, after, members)->Ok_0.0 is Object,
    decreases remaining(start), 2int,
{
    lemma_advance_progress(after);
    lemma_well_formed_unfolds(ValueView::Object(members));
    if kind_of(after.current) == Some(TokenType::Comma) {
        lemma_parse_members(advance(after)->Ok_0, members);
    }
}

/// Giving a key a well-formed value keeps the members well-formed.
pub proof fn lemma_insert_keeps_well_formed(
    members: Seq<(Seq<char>, ValueView)>,
    key: Seq<char>,
    value: ValueView,
)
    requires
        members_well_formed(members),
        well_formed(value),
    ensures
        members_well_formed(insert_member(members, key, value)),
{
    lemma_insert_keeps_keys_unique(members, key, value);
    let after = insert_member(members, key, value);
    assert forall|i: int| 0 <= i < after.len() implies well_formed((#[trigger] after[i]).1) by {
        if has_key(members, key) {
            let w = choose|w: int| 0 <= w < members.len() && (#[trigger] members[w]).0 == key;
            lemma_first_with_key_exists(members, key, w);
            let c = choose|c: int| is_first_with_key(members, key, c);
            if i != c {
                assert(after[i] == members[i]);
                assert(well_formed(members[i].1));
            }
        } else if i < members.len() {
            assert(after[i] == members[i]);
            assert(well_formed(members[i].1));
        }
    }
}

/// The value of a document that parses is well-formed: no object in it has two members
/// with one key.
pub proof fn lemma_parse_text_well_formed(input: Seq<u8>)
    requires
        parse_text(input) is Ok,
    ensures
        well_formed(parse_text(input)->Ok_0),
{
    let empty = ParserView { input, position: 0, current: None, peek: None };
    lemma_advance_progress(empty);
    lemma_advance_progress(advance(empty)->Ok_0);
    lemma_parse_value(primed(input, 0)->Ok_0);
}

} // verus!
