//! Byte-level vocabulary for UTF-8 text: splicing, cutting, character
//! widths and character boundaries.

use vstd::prelude::*;
use vstd::utf8::*;

verus! {

/// `b` with `t` inserted at offset `i`.
pub open spec fn splice_in(b: Seq<u8>, i: int, t: Seq<u8>) -> Seq<u8> {
    b.subrange(0, i) + t + b.subrange(i, b.len() as int)
}

/// `b` without the bytes at the offsets `from ..= to`.
pub open spec fn cut_out(b: Seq<u8>, from: int, to: int) -> Seq<u8> {
    b.subrange(0, from) + b.subrange(to + 1, b.len() as int)
}

/// An offset at which text can be inserted: inside the text or at its end,
/// and not inside a multi-byte character.
pub open spec fn insertable(b: Seq<u8>, i: int) -> bool {
    0 <= i <= b.len() && is_char_boundary(b, i)
}

/// A range `from ..= to` that can be removed: non-empty, inside the text,
/// and made of whole characters.
pub open spec fn removable(b: Seq<u8>, from: int, to: int) -> bool {
    0 <= from <= to < b.len() && is_char_boundary(b, from) && is_char_boundary(b, to + 1)
}

/// Number of bytes in the UTF-8 encoding of `c`.
pub open spec fn char_width(c: char) -> int {
    encode_scalar(c as u32).len() as int
}

/// The UTF-8 encoding of the single character `c`.
pub open spec fn char_bytes(c: char) -> Seq<u8> {
    encode_scalar(c as u32)
}

/// The character whose encoding starts at offset `i` of `b`.
pub open spec fn char_at(b: Seq<u8>, i: int) -> char {
    decode_first_scalar(b.subrange(i, b.len() as int)) as char
}

/// Number of bytes in the UTF-8 encoding of `c`.
pub fn char_len(c: char) -> (n: usize)
    ensures
        n == char_width(c),
        1 <= n <= 4,
{
    let u: u32 = c as u32;
    proof {
        char_is_scalar(c);
    }
    if u < 0x80 {
        1
    } else if u < 0x800 {
        2
    } else if u < 0x10000 {
        3
    } else {
        4
    }
}

/// A character is between one and four bytes wide.
pub proof fn lemma_char_width(c: char)
    ensures
        1 <= char_width(c) <= 4,
        char_bytes(c).len() == char_width(c),
        encode_utf8(seq![c]) == char_bytes(c),
        valid_utf8(char_bytes(c)),
{
    char_is_scalar(c);
    assert(seq![c].drop_first() =~= Seq::<char>::empty());
    assert(encode_utf8(Seq::<char>::empty()) =~= Seq::<u8>::empty());
    assert(seq![c][0] == c);
    assert(encode_utf8(seq![c]) =~= char_bytes(c));
    encode_utf8_valid_utf8(seq![c]);
}

/// Encoding distributes over concatenation.
pub proof fn lemma_encode_utf8_concat(a: Seq<char>, b: Seq<char>)
    ensures
        encode_utf8(a + b) == encode_utf8(a) + encode_utf8(b),
    decreases a.len(),
{
    if a.len() == 0 {
        assert(a + b =~= b);
        assert(encode_utf8(a) + encode_utf8(b) =~= encode_utf8(b));
    } else {
        lemma_encode_utf8_concat(a.drop_first(), b);
        assert((a + b).drop_first() =~= a.drop_first() + b);
        assert(encode_utf8(a + b) =~= encode_utf8(a) + encode_utf8(b));
    }
}

/// In valid UTF-8 an offset inside the text is a character boundary exactly
/// when the byte there is not a continuation byte; the end is always one.
pub proof fn lemma_boundary_local(b: Seq<u8>, i: int)
    requires
        valid_utf8(b),
        0 <= i <= b.len(),
    ensures
        is_char_boundary(b, i) <==> (i == b.len() || !is_continuation_byte(b[i])),
{
    if i == b.len() {
        is_char_boundary_start_end_of_seq(b);
    } else {
        is_char_boundary_iff_not_is_continuation_byte(b, i);
    }
}

/// The offset just behind a character that starts on a boundary is a
/// boundary.
pub proof fn lemma_boundary_step(b: Seq<u8>, i: int)
    requires
        valid_utf8(b),
        0 <= i < b.len(),
        is_char_boundary(b, i),
    ensures
        i + length_of_first_scalar(b.subrange(i, b.len() as int)) <= b.len(),
        is_char_boundary(b, i + length_of_first_scalar(b.subrange(i, b.len() as int))),
        valid_first_scalar(b.subrange(i, b.len() as int)),
    decreases b.len(),
{
    if i == 0 {
        assert(b.subrange(0, b.len() as int) =~= b);
        reveal_with_fuel(is_char_boundary, 2);
        let rest = pop_first_scalar(b);
        assert(is_char_boundary(rest, 0));
    } else {
        let l = length_of_first_scalar(b);
        let rest = pop_first_scalar(b);
        reveal_with_fuel(is_char_boundary, 2);
        assert(i >= l);
        assert(is_char_boundary(rest, i - l));
        if i - l < rest.len() {
            lemma_boundary_step(rest, i - l);
            assert(rest.subrange(i - l, rest.len() as int) =~= b.subrange(i, b.len() as int));
        }
    }
}

/// Splicing valid text in at a boundary gives valid text.
pub proof fn lemma_splice_valid(b: Seq<u8>, i: int, t: Seq<u8>)
    requires
        valid_utf8(b),
        valid_utf8(t),
        insertable(b, i),
    ensures
        valid_utf8(splice_in(b, i, t)),
{
    valid_utf8_split(b, i);
    valid_utf8_concat(b.subrange(0, i), t);
    valid_utf8_concat(b.subrange(0, i) + t, b.subrange(i, b.len() as int));
}

/// Cutting whole characters out of valid text gives valid text, and the cut
/// piece is valid too.
pub proof fn lemma_cut_valid(b: Seq<u8>, from: int, to: int)
    requires
        valid_utf8(b),
        removable(b, from, to),
    ensures
        valid_utf8(cut_out(b, from, to)),
        valid_utf8(b.subrange(from, to + 1)),
{
    valid_utf8_split(b, from);
    valid_utf8_split(b, to + 1);
    valid_utf8_concat(b.subrange(0, from), b.subrange(to + 1, b.len() as int));
    let head = b.subrange(0, to + 1);
    lemma_boundary_local(b, from);
    lemma_boundary_local(head, from);
    valid_utf8_split(head, from);
    assert(head.subrange(from, head.len() as int) =~= b.subrange(from, to + 1));
}

} // verus!
