//! Every text that spells a document parses, and to the value the document stands for.

use vstd::prelude::*;
use crate::document::{
    elements_tokens, members_tokens, members_upto, representable, token, tokens_of, value_of,
    values_upto, Document,
};
use crate::error::{LexErrorView, ParseErrorView};
use crate::grammar::{
    advance, kind_of, parse_array, parse_elements, parse_member_end, parse_members,
    parse_object, parse_text, parse_value, primed, remaining, ParserView,
};
use crate::grammar_laws::{lemma_advance_progress, valid};
use crate::scan::scan;
use crate::scan_laws::lemma_scan_advances;
use crate::token::{TokenType, TokenView};
use crate::token_laws::token_of;
use crate::value::{insert_member, ValueView};

verus! {

/// The parser hands out the tokens of `tokens` from `from` on, one per token taken,
/// starting with its current token.
pub open spec fn hands_out(state: ParserView, tokens: Seq<TokenView>, from: int) -> bool
    decreases tokens.len() - from,
{
    from < 0 || from >= tokens.len() || (token_of(state.current) == Some(tokens[from])
        && advance(state) is Ok && hands_out(advance(state)->Ok_0, tokens, from + 1))
}

/// `part` stands in `tokens` at `at`.
pub open spec fn occurs_at(tokens: Seq<TokenView>, at: int, part: Seq<TokenView>) -> bool {
    &&& 0 <= at
    &&& at + part.len() <= tokens.len()
    &&& forall|j: int| 0 <= j < part.len() ==> tokens[at + j] == #[trigger] part[j]
}

/// Where two runs stand one behind the other, each stands in its place.
pub proof fn lemma_occurs_split(
    tokens: Seq<TokenView>,
    at: int,
    first: Seq<TokenView>,
    second: Seq<TokenView>,
)
    requires
        occurs_at(tokens, at, first + second),
    ensures
        occurs_at(tokens, at, first),
        occurs_at(tokens, at + first.len(), second),
{
    let both = first + second;
    assert forall|j: int| 0 <= j < first.len() implies tokens[at + j] == #[trigger] first[j] by {
        assert(both[j] == first[j]);
    }
    assert forall|j: int| 0 <= j < second.len() implies tokens[at + first.len() + j]
        == #[trigger] second[j] by {
        assert(both[first.len() + j] == second[j]);
    }
}

/// Taking the token that stands at `at`, where it is not the end of the input.
pub proof fn lemma_take(state: ParserView, tokens: Seq<TokenView>, at: int, expected: TokenView)
    requires
        valid(state),
        hands_out(state, tokens, at),
        occurs_at(tokens, at, seq![expected]),
        expected.token_type != TokenType::EOF,
    ensures
        token_of(state.current) == Some(expected),
        advance(state) is Ok,
        valid(advance(state)->Ok_0),
        remaining(advance(state)->Ok_0) < remaining(state),
        hands_out(advance(state)->Ok_0, tokens, at + 1),
{
    assert(seq![expected][0] == expected);
    assert(tokens[at + 0] == expected);
    lemma_advance_progress(state);
}

/// An array or object is representable exactly when its parts are.
pub proof fn lemma_representable_unfolds(doc: Document)
    ensures
        doc matches Document::Array(items) ==> representable(doc) == (forall|i: int|
            0 <= i < items.len() ==> representable(#[trigger] items[i])),
        doc matches Document::Object(members) ==> representable(doc) == (forall|i: int|
            0 <= i < members.len() ==> representable((#[trigger] members[i]).1)),
{
    reveal_with_fuel(representable, 2);
}

/// A parser that hands out the tokens of a document yields the document's value, and
/// then hands out what stands behind them.
#[verifier::spinoff_prover]
#[verifier::rlimit(40)]
pub proof fn lemma_value_complete(
    state: ParserView,
    tokens: Seq<TokenView>,
    at: int,
    doc: Document,
)
    requires
        valid(state),
        representable(doc),
        hands_out(state, tokens, at),
        occurs_at(tokens, at, tokens_of(doc)),
    ensures
        parse_value(state) is Ok,
        parse_value(state)->Ok_0.0 == value_of(doc),
        valid(parse_value(state)->Ok_0.1),
        remaining(parse_value(state)->Ok_0.1) < remaining(state),
        hands_out(parse_value(state)->Ok_0.1, tokens, at + tokens_of(doc).len()),
    decreases doc, 2nat,
{
    match doc {
        Document::Array(items) => {
            lemma_peek_first(state, tokens, at, tokens_of(doc));
            lemma_array_complete(state, tokens, at, items);
        },
        Document::Object(members) => {
            lemma_peek_first(state, tokens, at, tokens_of(doc));
            lemma_object_complete(state, tokens, at, members);
        },
        _ => {
            let only = tokens_of(doc)[0];
            assert(tokens_of(doc) =~= seq![only]);
            lemma_take(state, tokens, at, only);
        },
    }
}

/// Behind the `[` of an array that is not empty, what is left is its elements.
pub proof fn lemma_array_entered(state: ParserView)
    requires
        advance(state) is Ok,
        kind_of(advance(state)->Ok_0.current) != Some(TokenType::RBracket),
        remaining(advance(state)->Ok_0) < remaining(state),
    ensures
        parse_array(state) == parse_elements(advance(state)->Ok_0, Seq::empty()),
{
}

/// Behind the `{` of an object that is not empty, what is left is its members.
pub proof fn lemma_object_entered(state: ParserView)
    requires
        advance(state) is Ok,
        kind_of(advance(state)->Ok_0.current) != Some(TokenType::RBrace),
        remaining(advance(state)->Ok_0) < remaining(state),
    ensures
        parse_object(state) == parse_members(advance(state)->Ok_0, Seq::empty()),
{
}

/// The same for an array.
#[verifier::spinoff_prover]
#[verifier::rlimit(40)]
pub proof fn lemma_array_complete(
    state: ParserView,
    tokens: Seq<TokenView>,
    at: int,
    items: Seq<Document>,
)
    requires
        valid(state),
        representable(Document::Array(items)),
        hands_out(state, tokens, at),
        occurs_at(tokens, at, tokens_of(Document::Array(items))),
    ensures
        parse_array(state) is Ok,
        parse_array(state)->Ok_0.0 == value_of(Document::Array(items)),
        valid(parse_array(state)->Ok_0.1),
        remaining(parse_array(state)->Ok_0.1) < remaining(state),
        hands_out(
            parse_array(state)->Ok_0.1,
            tokens,
            at + tokens_of(Document::Array(items)).len(),
        ),
    decreases Document::Array(items), 1nat,
{
    let doc = Document::Array(items);
    lemma_representable_unfolds(doc);
    let open = token(TokenType::LBracket, seq!['[']);
    let close = token(TokenType::RBracket, seq![']']);
    if items.len() == 0 {
        assert(seq![open] + seq![close] =~= tokens_of(doc));
        lemma_occurs_split(tokens, at, seq![open], seq![close]);
        lemma_take(state, tokens, at, open);
        lemma_take(advance(state)->Ok_0, tokens, at + 1, close);
    } else {
        let rest = elements_tokens(items, 0);
        lemma_occurs_split(tokens, at, seq![open], rest);
        lemma_take(state, tokens, at, open);
        let inside = advance(state)->Ok_0;
        lemma_first_token_of(items[0]);
        assert(rest[0] == tokens_of(items[0])[0]);
        lemma_peek_first(inside, tokens, at + 1, rest);
        assert(kind_of(inside.current) != Some(TokenType::RBracket));
        assert(values_upto(items, 0) =~= Seq::empty());
        lemma_array_entered(state);
        lemma_elements_complete(inside, tokens, at + 1, items, 0);
    }
}

/// The same for an object.
#[verifier::spinoff_prover]
#[verifier::rlimit(40)]
pub proof fn lemma_object_complete(
    state: ParserView,
    tokens: Seq<TokenView>,
    at: int,
    members: Seq<(Seq<char>, Document)>,
)
    requires
        valid(state),
        representable(Document::Object(members)),
        hands_out(state, tokens, at),
        occurs_at(tokens, at, tokens_of(Document::Object(members))),
    ensures
        parse_object(state) is Ok,
        parse_object(state)->Ok_0.0 == value_of(Document::Object(members)),
        valid(parse_object(state)->Ok_0.1),
        remaining(parse_object(state)->Ok_0.1) < remaining(state),
        hands_out(
            parse_object(state)->Ok_0.1,
            tokens,
            at + tokens_of(Document::Object(members)).len(),
        ),
    decreases Document::Object(members), 1nat,
{
    let doc = Document::Object(members);
    lemma_representable_unfolds(doc);
    let open = token(TokenType::LBrace, seq!['{']);
    let close = token(TokenType::RBrace, seq!['}']);
    if members.len() == 0 {
        assert(seq![open] + seq![close] =~= tokens_of(doc));
        lemma_occurs_split(tokens, at, seq![open], seq![close]);
        lemma_take(state, tokens, at, open);
        lemma_take(advance(state)->Ok_0, tokens, at + 1, close);
    } else {
        let rest = members_tokens(members, 0);
        lemma_occurs_split(tokens, at, seq![open], rest);
        lemma_take(state, tokens, at, open);
        let inside = advance(state)->Ok_0;
        lemma_members_tokens(members, 0);
        assert(rest[0] == token(TokenType::String, members[0].0));
        lemma_peek_first(inside, tokens, at + 1, rest);
        assert(kind_of(inside.current) != Some(TokenType::RBrace));
        assert(members_upto(members, 0) =~= Seq::empty());
        lemma_object_entered(state);
        lemma_members_complete(inside, tokens, at + 1, members, 0);
    }
}

/// The first token of a document starts a value: it is no `]`, `}`, `,`, `:` nor the end.
pub proof fn lemma_first_token_of(doc: Document)
    ensures
        tokens_of(doc).len() > 0,
        tokens_of(doc)[0].token_type != TokenType::RBracket,
        tokens_of(doc)[0].token_type != TokenType::EOF,
{
}

/// The current token of a parser that hands out a run is the first token of the run.
pub proof fn lemma_peek_first(
    state: ParserView,
    tokens: Seq<TokenView>,
    at: int,
    part: Seq<TokenView>,
)
    requires
        hands_out(state, tokens, at),
        occurs_at(tokens, at, part),
        part.len() > 0,
    ensures
        token_of(state.current) == Some(part[0]),
{
    assert(tokens[at + 0] == part[0]);
}

/// The same for the items of an array from `from` on, up to its `]`.
#[verifier::spinoff_prover]
#[verifier::rlimit(40)]
pub proof fn lemma_elements_complete(
    state: ParserView,
    tokens: Seq<TokenView>,
    at: int,
    items: Seq<Document>,
    from: int,
)
    requires
        valid(state),
        0 <= from < items.len(),
        forall|i: int| 0 <= i < items.len() ==> representable(#[trigger] items[i]),
        hands_out(state, tokens, at),
        occurs_at(tokens, at, elements_tokens(items, from)),
    ensures
        parse_elements(state, values_upto(items, from)) is Ok,
        parse_elements(state, values_upto(items, from))->Ok_0.0 == ValueView::Array(
            values_upto(items, items.len() as int),
        ),
        valid(parse_elements(state, values_upto(items, from))->Ok_0.1),
        remaining(parse_elements(state, values_upto(items, from))->Ok_0.1) < remaining(state),
        hands_out(
            parse_elements(state, values_upto(items, from))->Ok_0.1,
            tokens,
            at + elements_tokens(items, from).len(),
        ),
    decreases items, items.len() - from, 0nat,
{
    let item = tokens_of(items[from]);
    let close = token(TokenType::RBracket, seq![']']);
    let comma = token(TokenType::Comma, seq![',']);
    let read = values_upto(items, from);
    assert(values_upto(items, from + 1) == read.push(value_of(items[from])));
    if from + 1 == items.len() {
        lemma_occurs_split(tokens, at, item, seq![close]);
        lemma_value_complete(state, tokens, at, items[from]);
        let after = parse_value(state)->Ok_0.1;
        lemma_take(after, tokens, at + item.len(), close);
    } else {
        let rest = elements_tokens(items, from + 1);
        lemma_occurs_split(tokens, at, item, seq![comma] + rest);
        lemma_occurs_split(tokens, at + item.len(), seq![comma], rest);
        lemma_value_complete(state, tokens, at, items[from]);
        let after = parse_value(state)->Ok_0.1;
        lemma_take(after, tokens, at + item.len(), comma);
        lemma_elements_complete(advance(after)->Ok_0, tokens, at + item.len() + 1, items, from + 1);
    }
}

/// One member read: what is left of the object is what follows the member.
pub proof fn lemma_member_read(state: ParserView, read: Seq<(Seq<char>, ValueView)>)
    requires
        kind_of(state.current) == Some(TokenType::String),
        advance(state) is Ok,
        kind_of(advance(state)->Ok_0.current) == Some(TokenType::Colon),
        advance(advance(state)->Ok_0) is Ok,
        remaining(advance(advance(state)->Ok_0)->Ok_0) < remaining(state),
        parse_value(advance(advance(state)->Ok_0)->Ok_0) is Ok,
    ensures
        parse_members(state, read) == parse_member_end(
            state,
            parse_value(advance(advance(state)->Ok_0)->Ok_0)->Ok_0.1,
            insert_member(
                read,
                state.current.unwrap().token.literal,
                parse_value(advance(advance(state)->Ok_0)->Ok_0)->Ok_0.0,
            ),
        ),
{
}

/// The tokens of the members from `from` on: the key, `:`, the value, and what follows.
pub proof fn lemma_members_tokens(members: Seq<(Seq<char>, Document)>, from: int)
    requires
        0 <= from < members.len(),
    ensures
        members_tokens(members, from) == seq![token(TokenType::String, members[from].0)] + (
        seq![token(TokenType::Colon, seq![':'])] + (tokens_of(members[from].1) + member_end_tokens(
            members,
            from,
        ))),
{
    let key = seq![token(TokenType::String, members[from].0)];
    let colon = seq![token(TokenType::Colon, seq![':'])];
    let item = tokens_of(members[from].1);
    let tail = member_end_tokens(members, from);
    let head = seq![
        token(TokenType::String, members[from].0),
        token(TokenType::Colon, seq![':']),
    ] + item;
    assert(head =~= key + (colon + item));
    assert(head + tail =~= key + (colon + (item + tail)));
}

/// The tokens behind the member at `from`: `}` behind the last member, else `,` and the
/// members that follow.
pub open spec fn member_end_tokens(members: Seq<(Seq<char>, Document)>, from: int) -> Seq<
    TokenView,
> {
    if from + 1 == members.len() {
        seq![token(TokenType::RBrace, seq!['}'])]
    } else {
        seq![token(TokenType::Comma, seq![','])] + members_tokens(members, from + 1)
    }
}

/// The same for the members of an object from `from` on, up to its `}`.
#[verifier::spinoff_prover]
#[verifier::rlimit(40)]
pub proof fn lemma_members_complete(
    state: ParserView,
    tokens: Seq<TokenView>,
    at: int,
    members: Seq<(Seq<char>, Document)>,
    from: int,
)
    requires
        valid(state),
        0 <= from < members.len(),
        forall|i: int| 0 <= i < members.len() ==> representable((#[trigger] members[i]).1),
        hands_out(state, tokens, at),
        occurs_at(tokens, at, members_tokens(members, from)),
    ensures
        parse_members(state, members_upto(members, from)) is Ok,
        parse_members(state, members_upto(members, from))->Ok_0.0 == ValueView::Object(
            members_upto(members, members.len() as int),
        ),
        valid(parse_members(state, members_upto(members, from))->Ok_0.1),
        remaining(parse_members(state, members_upto(members, from))->Ok_0.1) < remaining(state),
        hands_out(
            parse_members(state, members_upto(members, from))->Ok_0.1,
            tokens,
            at + members_tokens(members, from).len(),
        ),
    decreases members, members.len() - from, 0nat,
{
    let key = token(TokenType::String, members[from].0);
    let colon = token(TokenType::Colon, seq![':']);
    let item = tokens_of(members[from].1);
    let tail = member_end_tokens(members, from);
    let read = members_upto(members, from);
    assert(members_upto(members, from + 1) == insert_member(
        read,
        members[from].0,
        value_of(members[from].1),
    ));
    assert(representable(members[from].1));
    lemma_members_tokens(members, from);
    lemma_occurs_split(tokens, at, seq![key], seq![colon] + (item + tail));
    lemma_occurs_split(tokens, at + 1, seq![colon], item + tail);
    lemma_occurs_split(tokens, at + 2, item, tail);
    lemma_take(state, tokens, at, key);
    let at_colon = advance(state)->Ok_0;
    lemma_take(at_colon, tokens, at + 1, colon);
    let at_value = advance(at_colon)->Ok_0;
    lemma_value_complete(at_value, tokens, at + 2, members[from].1);
    let after = parse_value(at_value)->Ok_0.1;
    lemma_member_read(state, read);
    lemma_member_end_complete(state, after, tokens, at + 2 + item.len(), members, from);
}

/// The same for what follows the member at `from`.
#[verifier::spinoff_prover]
#[verifier::rlimit(40)]
pub proof fn lemma_member_end_complete(
    start: ParserView,
    after: ParserView,
    tokens: Seq<TokenView>,
    at: int,
    members: Seq<(Seq<char>, Document)>,
    from: int,
)
    requires
        valid(after),
        remaining(after) < remaining(start),
        0 <= from < members.len(),
        forall|i: int| 0 <= i < members.len() ==> representable((#[trigger] members[i]).1),
        hands_out(after, tokens, at),
        occurs_at(tokens, at, member_end_tokens(members, from)),
    ensures
        parse_member_end(start, after, members_upto(members, from + 1)) is Ok,
        parse_member_end(start, after, members_upto(members, from + 1))->Ok_0.0
            == ValueView::Object(members_upto(members, members.len() as int)),
        valid(parse_member_end(start, after, members_upto(members, from + 1))->Ok_0.1),
        remaining(parse_member_end(start, after, members_upto(members, from + 1))->Ok_0.1)
            < remaining(start),
        hands_out(
            parse_member_end(start, after, members_upto(members, from + 1))->Ok_0.1,
            tokens,
            at + member_end_tokens(members, from).len(),
        ),
    decreases members, members.len() - from - 1, 1nat,
{
    let close = token(TokenType::RBrace, seq!['}']);
    let comma = token(TokenType::Comma, seq![',']);
    if from + 1 == members.len() {
        lemma_take(after, tokens, at, close);
    } else {
        let rest = members_tokens(members, from + 1);
        lemma_occurs_split(tokens, at, seq![comma], rest);
        lemma_take(after, tokens, at, comma);
        lemma_members_complete(advance(after)->Ok_0, tokens, at + 1, members, from + 1);
    }
}

/// Every text whose tokens spell a document, with nothing but the end of the input
/// behind them, parses to the value that the document stands for.
pub proof fn lemma_document_complete(text: Seq<u8>, doc: Document)
    requires
        representable(doc),
        primed(text, 0) is Ok,
        hands_out(
            primed(text, 0)->Ok_0,
            tokens_of(doc) + seq![token(TokenType::EOF, Seq::empty())],
            0,
        ),
    ensures
        parse_text(text) == Ok::<ValueView, ParseErrorView>(value_of(doc)),
{
    let end = token(TokenType::EOF, Seq::empty());
    let tokens = tokens_of(doc) + seq![end];
    let empty = ParserView { input: text, position: 0, current: None, peek: None };
    lemma_advance_progress(empty);
    lemma_advance_progress(advance(empty)->Ok_0);
    let state = primed(text, 0)->Ok_0;
    assert(tokens.subrange(0, tokens_of(doc).len() as int) =~= tokens_of(doc));
    assert(occurs_at(tokens, 0, tokens_of(doc))) by {
        assert forall|j: int| 0 <= j < tokens_of(doc).len() implies tokens[0 + j]
            == #[trigger] tokens_of(doc)[j] by {}
    }
    lemma_value_complete(state, tokens, 0, doc);
    let after = parse_value(state)->Ok_0.1;
    assert(tokens[tokens_of(doc).len() as int] == end);
}

/// The scanner, asked again and again from `pos` on, hands out the tokens of `tokens`
/// from `from` on.
pub open spec fn scanned(text: Seq<u8>, pos: int, tokens: Seq<TokenView>, from: int) -> bool
    decreases tokens.len() - from,
{
    from < 0 || from >= tokens.len() || (scan(text, pos).result == Ok::<TokenView, LexErrorView>(
        tokens[from],
    ) && scanned(text, scan(text, pos).end, tokens, from + 1))
}

/// A parser whose window holds two tokens of a run that ends with `EOF`, and whose
/// scanner hands out the rest of the run, hands out the run.
pub proof fn lemma_window_hands_out(state: ParserView, tokens: Seq<TokenView>, from: int)
    requires
        valid(state),
        0 <= from,
        tokens.len() > 0,
        tokens.last().token_type == TokenType::EOF,
        from < tokens.len() ==> token_of(state.current) == Some(tokens[from]),
        from + 1 < tokens.len() ==> token_of(state.peek) == Some(tokens[from + 1]),
        from + 2 < tokens.len() ==> scanned(state.input, state.position, tokens, from + 2),
        from + 2 >= tokens.len() ==> state.position == state.input.len(),
    ensures
        hands_out(state, tokens, from),
    decreases tokens.len() - from,
{
    if from < tokens.len() {
        lemma_scan_advances(state.input, state.position);
        lemma_advance_progress(state);
        lemma_window_hands_out(advance(state)->Ok_0, tokens, from + 1);
    }
}

/// Every text from which the scanner hands out the tokens of a document and then the end
/// of the input parses to the value that the document stands for.
pub proof fn lemma_text_complete(text: Seq<u8>, doc: Document)
    requires
        representable(doc),
        scanned(text, 0, tokens_of(doc) + seq![token(TokenType::EOF, Seq::empty())], 0),
    ensures
        parse_text(text) == Ok::<ValueView, ParseErrorView>(value_of(doc)),
{
    let tokens = tokens_of(doc) + seq![token(TokenType::EOF, Seq::empty())];
    lemma_first_token_of(doc);
    assert(tokens.len() >= 2);
    assert(tokens.last() == token(TokenType::EOF, Seq::empty()));
    let empty = ParserView { input: text, position: 0, current: None, peek: None };
    lemma_scan_advances(text, 0);
    lemma_advance_progress(empty);
    let half = advance(empty)->Ok_0;
    assert(scanned(text, half.position, tokens, 1));
    lemma_scan_advances(text, half.position);
    lemma_advance_progress(half);
    let state = advance(half)->Ok_0;
    assert(primed(text, 0) == Ok::<ParserView, ParseErrorView>(state));
    assert(scanned(text, state.position, tokens, 2));
    lemma_window_hands_out(state, tokens, 0);
    lemma_document_complete(text, doc);
}

} // verus!
