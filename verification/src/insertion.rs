//! Whitespace between tokens: how a scan of a text relates to a scan of the same text
//! with whitespace put in.

use vstd::prelude::*;
use crate::scan::{
    digit_at, digits_end, escape_at, exponent_digits_start, fraction_end, hex4, is_digit_byte,
    is_lowercase_byte, is_whitespace_byte, lowercase_end, number_end, scan, starts_number,
    string_body, whitespace_end, StringBody,
};
use crate::scan_laws::{
    lemma_digits_end, lemma_escape_length, lemma_lowercase_end, lemma_number_end,
    lemma_whitespace_end,
};

verus! {

/// From `from` on, `b` holds the bytes of `a`, moved `by` places to the right.
pub open spec fn shifted(a: Seq<u8>, b: Seq<u8>, from: int, by: int) -> bool {
    &&& 0 <= from <= a.len()
    &&& 0 <= by
    &&& b.len() == a.len() + by
    &&& forall|i: int| from <= i < a.len() ==> #[trigger] a[i] == b[i + by]
}

/// Below `upto`, `b` holds the bytes of `a`, and at `upto` it ends or holds whitespace.
pub open spec fn same_below(a: Seq<u8>, b: Seq<u8>, upto: int) -> bool {
    &&& 0 <= upto <= a.len()
    &&& upto <= b.len()
    &&& forall|i: int| 0 <= i < upto ==> #[trigger] a[i] == b[i]
    &&& upto < b.len() ==> is_whitespace_byte(b[upto])
}

pub proof fn lemma_whitespace_end_shifted(a: Seq<u8>, b: Seq<u8>, from: int, by: int, pos: int)
    requires
        shifted(a, b, from, by),
        from <= pos <= a.len(),
    ensures
        whitespace_end(b, pos + by) == whitespace_end(a, pos) + by,
    decreases a.len() - pos,
{
    if pos < a.len() {
        assert(a[pos] == b[pos + by]);
        if is_whitespace_byte(a[pos]) {
            lemma_whitespace_end_shifted(a, b, from, by, pos + 1);
        }
    }
}

pub proof fn lemma_digits_end_shifted(a: Seq<u8>, b: Seq<u8>, from: int, by: int, pos: int)
    requires
        shifted(a, b, from, by),
        from <= pos,
    ensures
        digits_end(b, pos + by) == digits_end(a, pos) + by,
        digit_at(b, pos + by) == digit_at(a, pos),
    decreases a.len() - pos,
{
    if pos < a.len() {
        assert(a[pos] == b[pos + by]);
        if is_digit_byte(a[pos]) {
            lemma_digits_end_shifted(a, b, from, by, pos + 1);
        }
    }
}

pub proof fn lemma_lowercase_end_shifted(a: Seq<u8>, b: Seq<u8>, from: int, by: int, pos: int)
    requires
        shifted(a, b, from, by),
        from <= pos <= a.len(),
    ensures
        lowercase_end(b, pos + by) == lowercase_end(a, pos) + by,
    decreases a.len() - pos,
{
    if pos < a.len() {
        assert(a[pos] == b[pos + by]);
        if is_lowercase_byte(a[pos]) {
            lemma_lowercase_end_shifted(a, b, from, by, pos + 1);
        }
    }
}

/// The byte of `b` that stands for the byte of `a` at `pos`.
pub proof fn lemma_byte_shifted(a: Seq<u8>, b: Seq<u8>, from: int, by: int, pos: int)
    requires
        shifted(a, b, from, by),
        from <= pos < a.len(),
    ensures
        a[pos] == b[pos + by],
{
}

/// A run of bytes of `b` that stands for a run of `a` holds the same bytes.
pub proof fn lemma_subrange_shifted(
    a: Seq<u8>,
    b: Seq<u8>,
    from: int,
    by: int,
    start: int,
    end: int,
)
    requires
        shifted(a, b, from, by),
        from <= start <= end <= a.len(),
    ensures
        b.subrange(start + by, end + by) == a.subrange(start, end),
{
    let x = a.subrange(start, end);
    let y = b.subrange(start + by, end + by);
    assert forall|i: int| 0 <= i < x.len() implies #[trigger] x[i] == y[i] by {
        lemma_byte_shifted(a, b, from, by, start + i);
    }
    assert(x =~= y);
}

pub proof fn lemma_number_end_shifted(a: Seq<u8>, b: Seq<u8>, from: int, by: int, pos: int)
    requires
        shifted(a, b, from, by),
        from <= pos < a.len(),
    ensures
        starts_number(b, pos + by) == starts_number(a, pos),
        starts_number(a, pos) ==> number_end(b, pos + by) == number_end(a, pos) + by,
{
    lemma_digits_end_shifted(a, b, from, by, pos);
    lemma_digits_end_shifted(a, b, from, by, pos + 1);
    if starts_number(a, pos) {
        lemma_number_end(a, pos);
        let digits = if a[pos] == 0x2d {
            pos + 1
        } else {
            pos
        };
        lemma_digits_end(a, digits + 1);
        let whole_end = digits_end(a, digits);
        lemma_digits_end_shifted(a, b, from, by, whole_end + 1);
        if whole_end < a.len() {
            lemma_byte_shifted(a, b, from, by, whole_end);
        }
        let mantissa_end = fraction_end(a, whole_end);
        if whole_end + 1 <= a.len() {
            lemma_digits_end(a, whole_end + 1);
        }
        assert(fraction_end(b, whole_end + by) == mantissa_end + by);
        if mantissa_end < a.len() {
            lemma_byte_shifted(a, b, from, by, mantissa_end);
            if mantissa_end + 1 < a.len() {
                lemma_byte_shifted(a, b, from, by, mantissa_end + 1);
            }
            let start = exponent_digits_start(a, mantissa_end);
            assert(exponent_digits_start(b, mantissa_end + by) == start + by);
            lemma_digits_end_shifted(a, b, from, by, start);
        }
    }
}

pub proof fn lemma_hex4_shifted(a: Seq<u8>, b: Seq<u8>, from: int, by: int, pos: int)
    requires
        shifted(a, b, from, by),
        from <= pos,
    ensures
        hex4(b, pos + by) == hex4(a, pos),
{
    if pos + 4 <= a.len() {
        lemma_byte_shifted(a, b, from, by, pos);
        lemma_byte_shifted(a, b, from, by, pos + 1);
        lemma_byte_shifted(a, b, from, by, pos + 2);
        lemma_byte_shifted(a, b, from, by, pos + 3);
    }
}

pub proof fn lemma_escape_shifted(a: Seq<u8>, b: Seq<u8>, from: int, by: int, pos: int)
    requires
        shifted(a, b, from, by),
        from <= pos < a.len(),
    ensures
        escape_at(b, pos + by) == escape_at(a, pos),
{
    if pos + 1 < a.len() {
        lemma_byte_shifted(a, b, from, by, pos + 1);
        lemma_hex4_shifted(a, b, from, by, pos + 2);
        lemma_hex4_shifted(a, b, from, by, pos + 8);
        if pos + 7 < a.len() {
            lemma_byte_shifted(a, b, from, by, pos + 6);
            lemma_byte_shifted(a, b, from, by, pos + 7);
        }
    }
}

pub proof fn lemma_string_body_shifted(
    a: Seq<u8>,
    b: Seq<u8>,
    from: int,
    by: int,
    pos: int,
    content: Seq<u8>,
)
    requires
        shifted(a, b, from, by),
        from <= pos <= a.len(),
    ensures
        match string_body(a, pos, content) {
            StringBody::Closed { content: c, close } => string_body(b, pos + by, content) == (
            StringBody::Closed { content: c, close: close + by }),
            StringBody::Unterminated => string_body(b, pos + by, content)
                == StringBody::Unterminated,
            StringBody::BadEscape(at) => string_body(b, pos + by, content)
                == StringBody::BadEscape(at + by),
        },
    decreases a.len() - pos,
{
    if pos < a.len() {
        lemma_byte_shifted(a, b, from, by, pos);
        if a[pos] == 0x22 {
        } else if a[pos] == 0x5c {
            lemma_escape_shifted(a, b, from, by, pos);
            if escape_at(a, pos).is_some() {
                lemma_escape_length(a, pos);
                let escape = escape_at(a, pos).unwrap();
                lemma_string_body_shifted(
                    a,
                    b,
                    from,
                    by,
                    pos + escape.length,
                    content + escape.bytes,
                );
            }
        } else {
            lemma_string_body_shifted(a, b, from, by, pos + 1, content.push(a[pos]));
        }
    }
}

/// A scan of the shifted text hands out the token that the scan of the text hands out,
/// and ends at the place that stands for the same place.
pub proof fn lemma_scan_shifted(a: Seq<u8>, b: Seq<u8>, from: int, by: int, pos: int)
    requires
        shifted(a, b, from, by),
        from <= pos <= a.len(),
        scan(a, pos).result is Ok,
    ensures
        scan(b, pos + by).result == scan(a, pos).result,
        scan(b, pos + by).end == scan(a, pos).end + by,
{
    lemma_whitespace_end(a, pos);
    lemma_whitespace_end_shifted(a, b, from, by, pos);
    let start = whitespace_end(a, pos);
    if start < a.len() {
        lemma_byte_shifted(a, b, from, by, start);
        lemma_number_end_shifted(a, b, from, by, start);
        if starts_number(a, start) {
            lemma_number_end(a, start);
            let end = number_end(a, start);
            lemma_subrange_shifted(a, b, from, by, start, end);
        } else if is_lowercase_byte(a[start]) {
            lemma_lowercase_end_shifted(a, b, from, by, start);
            lemma_lowercase_end(a, start);
            let end = lowercase_end(a, start);
            lemma_subrange_shifted(a, b, from, by, start, end);
        } else if a[start] == 0x22 {
            lemma_string_body_shifted(a, b, from, by, start + 1, Seq::empty());
        }
    }
}

} // verus!
