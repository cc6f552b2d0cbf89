//! Whitespace put between two tokens of a text does not change what the text parses to.

use vstd::prelude::*;
use crate::grammar::{advance, parse_text, primed, remaining, ParserView};
use crate::insertion::{lemma_scan_shifted, same_below, shifted};
use crate::locality::lemma_scan_below;
use crate::scan::{is_whitespace_byte, scan, whitespace_end};
use crate::scan_laws::{lemma_scan_advances, lemma_scan_skips_whitespace, lemma_whitespace_end};
use crate::token_laws::{lemma_document_from_tokens, same_tokens, token_of};

verus! {

/// Every byte is a space, a tab, a carriage return or a line feed.
pub open spec fn all_whitespace(bytes: Seq<u8>) -> bool {
    forall|i: int| 0 <= i < bytes.len() ==> is_whitespace_byte(#[trigger] bytes[i])
}

/// The text with `bytes` put in at `at`.
pub open spec fn insert_at(text: Seq<u8>, at: int, bytes: Seq<u8>) -> Seq<u8> {
    text.subrange(0, at) + bytes + text.subrange(at, text.len() as int)
}

/// For a scanner that stands at `from`, the place `at` lies between two tokens: in the
/// whitespace in front of the next token, or between two tokens further on. The end of
/// the text counts, and so does its start for a scanner that stands there.
pub open spec fn between_tokens(text: Seq<u8>, from: int, at: int) -> bool
    decreases at - from,
{
    &&& 0 <= from <= at <= text.len()
    &&& {
        ||| at <= whitespace_end(text, from)
        ||| {
            let s = scan(text, from);
            &&& s.result is Ok
            &&& s.start < s.end
            &&& from < s.end <= at
            &&& between_tokens(text, s.end, at)
        }
    }
}

/// Across a run of whitespace, skipping whitespace ends at the same place.
pub proof fn lemma_whitespace_run(text: Seq<u8>, from: int, to: int)
    requires
        0 <= from <= to <= text.len(),
        forall|i: int| from <= i < to ==> is_whitespace_byte(#[trigger] text[i]),
    ensures
        whitespace_end(text, from) == whitespace_end(text, to),
    decreases to - from,
{
    if from < to {
        assert(is_whitespace_byte(text[from]));
        lemma_whitespace_run(text, from + 1, to);
    }
}

/// What is skipped as whitespace is whitespace.
pub proof fn lemma_skipped_is_whitespace(text: Seq<u8>, from: int, i: int)
    requires
        0 <= from <= i < whitespace_end(text, from),
    ensures
        i < text.len(),
        is_whitespace_byte(text[i]),
    decreases i - from,
{
    if from < i {
        lemma_skipped_is_whitespace(text, from + 1, i);
    }
}

/// How the text with whitespace put in relates to the text.
pub proof fn lemma_insert_at(text: Seq<u8>, at: int, bytes: Seq<u8>)
    requires
        0 <= at <= text.len(),
        all_whitespace(bytes),
        bytes.len() > 0,
    ensures
        shifted(text, insert_at(text, at, bytes), at, bytes.len() as int),
        same_below(text, insert_at(text, at, bytes), at),
        forall|i: int|
            at <= i < at + bytes.len() ==> is_whitespace_byte(
                #[trigger] insert_at(text, at, bytes)[i],
            ),
{
    let longer = insert_at(text, at, bytes);
    assert forall|i: int| at <= i < text.len() implies #[trigger] text[i] == longer[i
        + bytes.len()] by {}
    assert forall|i: int| 0 <= i < at implies #[trigger] text[i] == longer[i] by {}
    assert forall|i: int| at <= i < at + bytes.len() implies is_whitespace_byte(
        #[trigger] longer[i],
    ) by {
        assert(longer[i] == bytes[i - at]);
    }
    assert(longer[at] == bytes[0]);
}

/// A scanner on the text and one on the text with whitespace put in stand at matching
/// places: both before the whitespace, with only whole tokens up to it, or both behind.
pub open spec fn in_step(text: Seq<u8>, at: int, by: int, place: int, other: int) -> bool {
    ||| other == place && between_tokens(text, place, at)
    ||| at <= place <= text.len() && other == place + by
}

/// From matching places the two scanners hand out the same token and stand at matching
/// places again.
#[verifier::spinoff_prover]
#[verifier::rlimit(40)]
pub proof fn lemma_scan_inserted(text: Seq<u8>, at: int, bytes: Seq<u8>, place: int, other: int)
    requires
        0 <= at <= text.len(),
        all_whitespace(bytes),
        bytes.len() > 0,
        in_step(text, at, bytes.len() as int, place, other),
        scan(text, place).result is Ok,
    ensures
        scan(insert_at(text, at, bytes), other).result == scan(text, place).result,
        in_step(
            text,
            at,
            bytes.len() as int,
            scan(text, place).end,
            scan(insert_at(text, at, bytes), other).end,
        ),
{
    let longer = insert_at(text, at, bytes);
    let by = bytes.len() as int;
    lemma_insert_at(text, at, bytes);
    lemma_scan_advances(text, place);
    if at <= place && other == place + by {
        lemma_scan_shifted(text, longer, at, by, place);
    } else if at <= whitespace_end(text, place) {
        lemma_scan_skips_whitespace(text, place, at);
        assert forall|i: int| place <= i < at + by implies is_whitespace_byte(
            #[trigger] longer[i],
        ) by {
            if i < at {
                lemma_skipped_is_whitespace(text, place, i);
                assert(text[i] == longer[i]);
            }
        }
        lemma_whitespace_run(longer, place, at + by);
        lemma_whitespace_end(longer, at + by);
        lemma_scan_skips_whitespace(longer, place, at + by);
        lemma_scan_advances(text, at);
        lemma_scan_shifted(text, longer, at, by, at);
    } else {
        lemma_scan_below(text, longer, at, place);
    }
}

/// Two parsers whose scanners stand at matching places and whose windows hold the same
/// tokens hand out the same tokens from there on.
pub proof fn lemma_states_in_step(
    a: ParserView,
    b: ParserView,
    at: int,
    bytes: Seq<u8>,
    steps: nat,
)
    requires
        0 <= at <= a.input.len(),
        all_whitespace(bytes),
        bytes.len() > 0,
        b.input == insert_at(a.input, at, bytes),
        in_step(a.input, at, bytes.len() as int, a.position, b.position),
        token_of(a.current) == token_of(b.current),
        token_of(a.peek) == token_of(b.peek),
    ensures
        same_tokens(a, b, steps),
    decreases steps,
{
    if steps > 0 && advance(a) is Ok {
        lemma_scan_inserted(a.input, at, bytes, a.position, b.position);
        lemma_states_in_step(advance(a)->Ok_0, advance(b)->Ok_0, at, bytes, (steps - 1) as nat);
    }
}

/// With whitespace put between two tokens, the window is filled with the same tokens
/// and the same tokens follow.
#[verifier::spinoff_prover]
#[verifier::rlimit(40)]
pub proof fn lemma_primed_in_step(text: Seq<u8>, at: int, bytes: Seq<u8>, steps: nat)
    requires
        all_whitespace(bytes),
        bytes.len() > 0,
        between_tokens(text, 0, at),
        primed(text, 0) is Ok,
    ensures
        primed(insert_at(text, at, bytes), 0) is Ok,
        same_tokens(primed(text, 0)->Ok_0, primed(insert_at(text, at, bytes), 0)->Ok_0, steps),
{
    let longer = insert_at(text, at, bytes);
    let a = ParserView { input: text, position: 0, current: None, peek: None };
    let b = ParserView { input: longer, position: 0, current: None, peek: None };
    lemma_states_in_step(a, b, at, bytes, steps + 2);
    assert(advance(a) is Ok);
    assert(advance(b) is Ok);
    let a1 = advance(a)->Ok_0;
    let b1 = advance(b)->Ok_0;
    assert(same_tokens(a1, b1, (steps + 1) as nat));
    assert(advance(a1) is Ok);
    assert(advance(b1) is Ok);
    assert(same_tokens(advance(a1)->Ok_0, advance(b1)->Ok_0, steps));
}

/// Nothing put in leaves the text as it was.
pub proof fn lemma_insert_nothing(text: Seq<u8>, at: int)
    requires
        0 <= at <= text.len(),
    ensures
        insert_at(text, at, Seq::empty()) == text,
{
    assert(insert_at(text, at, Seq::empty()) =~= text);
}

/// Any amount of whitespace put between two tokens of a text that parses, or in front of
/// the first or behind the last, leaves the parsed value as it was.
#[verifier::spinoff_prover]
#[verifier::rlimit(40)]
pub proof fn lemma_whitespace_between_tokens(text: Seq<u8>, at: int, bytes: Seq<u8>)
    requires
        all_whitespace(bytes),
        between_tokens(text, 0, at),
        parse_text(text) is Ok,
    ensures
        parse_text(insert_at(text, at, bytes)) == parse_text(text),
{
    if bytes.len() == 0 {
        assert(bytes =~= Seq::empty());
        lemma_insert_nothing(text, at);
    } else {
        lemma_primed_in_step(text, at, bytes, remaining(primed(text, 0)->Ok_0));
        lemma_document_from_tokens(text, insert_at(text, at, bytes));
    }
}

} // verus!
