//! Bytes and text: how runs of input bytes become strings.

use vstd::prelude::*;
use vstd::utf8::{decode_utf8, encode_utf8, is_ascii_chars, valid_utf8};
use vstd::utf8::{encode_utf8_decode_utf8, encode_utf8_valid_utf8, is_ascii_chars_encode_utf8};

verus! {

/// The characters that a run of ASCII bytes spells, one per byte.
pub open spec fn ascii_text(bytes: Seq<u8>) -> Seq<char> {
    Seq::new(bytes.len(), |i: int| bytes[i] as char)
}

/// True when every byte is below 128.
pub open spec fn all_ascii(bytes: Seq<u8>) -> bool {
    forall|i: int| 0 <= i < bytes.len() ==> #[trigger] bytes[i] < 128
}

/// A run of ASCII bytes is well-formed UTF-8 and decodes byte by byte.
pub proof fn lemma_ascii_decodes(bytes: Seq<u8>)
    requires
        all_ascii(bytes),
    ensures
        valid_utf8(bytes),
        decode_utf8(bytes) == ascii_text(bytes),
        encode_utf8(ascii_text(bytes)) == bytes,
{
    let chars = ascii_text(bytes);
    assert(is_ascii_chars(chars)) by {
        assert forall|i: int| 0 <= i < chars.len() implies '\0' <= #[trigger] chars[i]
            <= '\u{7f}' by {
            assert(bytes[i] < 128);
        }
    }
    is_ascii_chars_encode_utf8(chars);
    assert(encode_utf8(chars) =~= bytes) by {
        assert forall|i: int| 0 <= i < bytes.len() implies encode_utf8(chars)[i] == bytes[i] by {
            assert(bytes[i] < 128);
            assert(chars[i] as u8 == encode_utf8(chars)[i]);
        }
    }
    encode_utf8_valid_utf8(chars);
    encode_utf8_decode_utf8(chars);
}

/// `String::from_utf8` of std: it answers with a string exactly when the bytes are
/// well-formed UTF-8, and the string then holds the characters that the bytes encode.
#[verifier::external_body]
pub(crate) fn string_from_utf8(bytes: Vec<u8>) -> (text: Option<String>)
    ensures
        text.is_some() == valid_utf8(bytes@),
        text matches Some(s) ==> s@ == decode_utf8(bytes@),
{
    String::from_utf8(bytes).ok()
}

/// A copy of the bytes of `input` from `from` up to, not including, `to`.
pub fn copy_range(input: &Vec<u8>, from: usize, to: usize) -> (run: Vec<u8>)
    requires
        from <= to <= input@.len(),
    ensures
        run@ == input@.subrange(from as int, to as int),
{
    let mut run: Vec<u8> = Vec::new();
    let mut i: usize = from;
    while i < to
        invariant
            from <= i <= to <= input@.len(),
            run@ == input@.subrange(from as int, i as int),
        decreases to - i,
    {
        run.push(input[i]);
        i += 1;
        assert(run@ =~= input@.subrange(from as int, i as int));
    }
    run
}

/// Appends the bytes of `more` to `buffer`.
pub fn push_all(buffer: &mut Vec<u8>, more: &Vec<u8>)
    ensures
        final(buffer)@ == old(buffer)@ + more@,
{
    let ghost before = buffer@;
    let mut i: usize = 0;
    while i < more.len()
        invariant
            i <= more@.len(),
            buffer@ == before + more@.subrange(0, i as int),
        decreases more@.len() - i,
    {
        buffer.push(more[i]);
        i += 1;
        assert(buffer@ =~= before + more@.subrange(0, i as int));
    }
    assert(more@.subrange(0, i as int) =~= more@);
}

} // verus!
