//! General properties of the editing operations, stated over the byte-level
//! model (`spliced`, `cut_out`) and the UTF-8 functions of vstd.

use vstd::prelude::*;

use crate::buffer::{cut_out, spliced};
use vstd::utf8::{
    decode_utf8, encode_utf8, encode_utf8_decode_utf8, encode_utf8_valid_utf8, is_char_boundary,
    valid_utf8, valid_utf8_concat, valid_utf8_split,
};

verus! {

/// Decoding a concatenation of two valid UTF-8 byte sequences decodes each
/// part on its own: no character encoding spans the seam.
pub proof fn lemma_decode_utf8_concat(b1: Seq<u8>, b2: Seq<u8>)
    requires
        valid_utf8(b1),
        valid_utf8(b2),
    ensures
        valid_utf8(b1 + b2),
        decode_utf8(b1 + b2) == decode_utf8(b1) + decode_utf8(b2),
    decreases b1.len(),
{
    valid_utf8_concat(b1, b2);
    if b1.len() == 0 {
        assert(b1 + b2 =~= b2);
        assert(decode_utf8(b1) + decode_utf8(b2) =~= decode_utf8(b2));
    } else {
        let joined = b1 + b2;
        assert(vstd::utf8::pop_first_scalar(joined) =~= vstd::utf8::pop_first_scalar(b1) + b2);
        lemma_decode_utf8_concat(vstd::utf8::pop_first_scalar(b1), b2);
        assert(decode_utf8(joined) =~= decode_utf8(b1) + decode_utf8(b2));
    }
}

/// Two consecutive insertions — the second one right after the bytes the
/// first one placed, so the gap does not move in between — have the same
/// effect as inserting the concatenation of both payloads once.
pub proof fn lemma_consecutive_inserts(content: Seq<u8>, a: Seq<u8>, b: Seq<u8>, offset: int)
    requires
        0 <= offset <= content.len(),
    ensures
        spliced(spliced(content, offset, a), offset + a.len(), b) == spliced(
            content,
            offset,
            a + b,
        ),
{
    assert(spliced(spliced(content, offset, a), offset + a.len(), b) =~= spliced(
        content,
        offset,
        a + b,
    ));
}

/// Removing a range has the same effect as clearing the buffer and
/// reinserting the retained prefix and suffix with two insertions.
pub proof fn lemma_remove_is_clear_and_reinsert(content: Seq<u8>, start: int, end: int)
    requires
        0 <= start <= end <= content.len(),
    ensures
        cut_out(content, start, end) == spliced(
            spliced(Seq::<u8>::empty(), 0, content.subrange(0, start)),
            start,
            content.subrange(end, content.len() as int),
        ),
{
    assert(cut_out(content, start, end) =~= spliced(
        spliced(Seq::<u8>::empty(), 0, content.subrange(0, start)),
        start,
        content.subrange(end, content.len() as int),
    ));
}

/// Round trip of an insertion through the byte encoding: inserting encoded
/// text at a character boundary of valid UTF-8 content keeps the content
/// valid, and the content decodes to exactly the text edit a plain string
/// type would perform — split, splice the new characters in, rejoin.
pub proof fn lemma_insert_matches_text_edit(content: Seq<u8>, offset: int, text: Seq<char>)
    requires
        valid_utf8(content),
        is_char_boundary(content, offset),
    ensures
        valid_utf8(spliced(content, offset, encode_utf8(text))),
        decode_utf8(spliced(content, offset, encode_utf8(text))) == decode_utf8(
            content.subrange(0, offset),
        ) + text + decode_utf8(content.subrange(offset, content.len() as int)),
{
    let prefix = content.subrange(0, offset);
    let suffix = content.subrange(offset, content.len() as int);
    let data = encode_utf8(text);
    valid_utf8_split(content, offset);
    encode_utf8_valid_utf8(text);
    lemma_decode_utf8_concat(prefix, data);
    lemma_decode_utf8_concat(prefix + data, suffix);
    encode_utf8_decode_utf8(text);
    assert(spliced(content, offset, data) =~= (prefix + data) + suffix);
}

/// Round trip of a removal through the byte encoding: removing a range whose
/// ends are character boundaries of valid UTF-8 content keeps the content
/// valid, and the content decodes to the retained prefix and suffix texts.
pub proof fn lemma_remove_matches_text_edit(content: Seq<u8>, start: int, end: int)
    requires
        valid_utf8(content),
        is_char_boundary(content, start),
        is_char_boundary(content, end),
        start <= end,
    ensures
        valid_utf8(cut_out(content, start, end)),
        decode_utf8(cut_out(content, start, end)) == decode_utf8(content.subrange(0, start))
            + decode_utf8(content.subrange(end, content.len() as int)),
{
    let prefix = content.subrange(0, start);
    let suffix = content.subrange(end, content.len() as int);
    valid_utf8_split(content, start);
    valid_utf8_split(content, end);
    lemma_decode_utf8_concat(prefix, suffix);
}

} // verus!


