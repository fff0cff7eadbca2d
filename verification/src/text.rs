//! Byte offsets into text.
//!
//! A body of text is modelled as its sequence of characters; offsets count
//! the bytes of its UTF-8 encoding, and only offsets on character
//! boundaries can delimit a piece of it.

use vstd::prelude::*;
use vstd::utf8::*;

verus! {

/// The number of bytes that `text` occupies.
pub open spec fn byte_len(text: Seq<char>) -> nat {
    encode_utf8(text).len()
}

/// Whether byte offset `offset` of `text` lies between two characters, or at
/// either end.
pub open spec fn on_boundary(text: Seq<char>, offset: int) -> bool {
    0 <= offset <= byte_len(text) && is_char_boundary(encode_utf8(text), offset)
}

/// The characters of `text` that occupy the bytes from `start` up to `end`.
pub open spec fn chars_between(text: Seq<char>, start: int, end: int) -> Seq<char> {
    decode_utf8(encode_utf8(text).subrange(start, end))
}

/// The first character boundary of `bytes` after `pos`.
pub open spec fn next_boundary(bytes: Seq<u8>, pos: int) -> int
    decreases bytes.len() - pos,
{
    if pos + 1 >= bytes.len() || is_char_boundary(bytes, pos + 1) {
        pos + 1
    } else {
        next_boundary(bytes, pos + 1)
    }
}

/// The boundary after `pos` lies after `pos` and not beyond the end.
pub proof fn lemma_next_boundary(bytes: Seq<u8>, pos: int)
    requires
        valid_utf8(bytes),
        0 <= pos < bytes.len(),
    ensures
        pos < next_boundary(bytes, pos) <= bytes.len(),
        is_char_boundary(bytes, next_boundary(bytes, pos)),
    decreases bytes.len() - pos,
{
    if pos + 1 >= bytes.len() {
        is_char_boundary_start_end_of_seq(bytes);
    } else if !is_char_boundary(bytes, pos + 1) {
        lemma_next_boundary(bytes, pos + 1);
    }
}

/// Both ends of a text are boundaries, and its encoding is well formed.
pub proof fn lemma_ends_are_boundaries(text: Seq<char>)
    ensures
        valid_utf8(encode_utf8(text)),
        on_boundary(text, 0),
        on_boundary(text, byte_len(text) as int),
{
    encode_utf8_valid_utf8(text);
    is_char_boundary_start_end_of_seq(encode_utf8(text));
}

/// A boundary of the whole is a boundary of every piece that contains it, and
/// every piece cut at boundaries is well-formed UTF-8.
pub proof fn lemma_boundary_within_piece(bytes: Seq<u8>, start: int, mid: int, end: int)
    requires
        valid_utf8(bytes),
        0 <= start <= mid <= end <= bytes.len(),
        is_char_boundary(bytes, start),
        is_char_boundary(bytes, mid),
        is_char_boundary(bytes, end),
    ensures
        valid_utf8(bytes.subrange(start, end)),
        is_char_boundary(bytes.subrange(start, end), mid - start),
{
    let head = bytes.subrange(0, end);
    valid_utf8_split(bytes, end);
    assert(valid_utf8(head));
    assert(is_char_boundary(head, start)) by {
        if start < end {
            is_char_boundary_iff_not_is_continuation_byte(bytes, start);
            is_char_boundary_iff_not_is_continuation_byte(head, start);
        } else {
            is_char_boundary_start_end_of_seq(head);
        }
    }
    valid_utf8_split(head, start);
    let piece = bytes.subrange(start, end);
    assert(head.subrange(start, head.len() as int) =~= piece);
    if mid < end {
        is_char_boundary_iff_not_is_continuation_byte(bytes, mid);
        is_char_boundary_iff_not_is_continuation_byte(piece, mid - start);
    } else {
        is_char_boundary_start_end_of_seq(piece);
    }
}

/// Two adjoining pieces decode to the concatenation of what each decodes to.
pub proof fn lemma_pieces_concat(text: Seq<char>, start: int, mid: int, end: int)
    requires
        start <= mid <= end,
        on_boundary(text, start),
        on_boundary(text, mid),
        on_boundary(text, end),
    ensures
        chars_between(text, start, end) == chars_between(text, start, mid) + chars_between(
            text,
            mid,
            end,
        ),
{
    let bytes = encode_utf8(text);
    encode_utf8_valid_utf8(text);
    lemma_boundary_within_piece(bytes, start, mid, end);
    let piece = bytes.subrange(start, end);
    decode_utf8_split(piece, mid - start);
    assert(piece.subrange(0, mid - start) =~= bytes.subrange(start, mid));
    assert(piece.subrange(mid - start, piece.len() as int) =~= bytes.subrange(mid, end));
}

/// The piece from one end of a text to the other is the text itself.
pub proof fn lemma_whole_text(text: Seq<char>)
    ensures
        chars_between(text, 0, byte_len(text) as int) == text,
{
    let bytes = encode_utf8(text);
    assert(bytes.subrange(0, bytes.len() as int) =~= bytes);
    encode_utf8_decode_utf8(text);
}

/// An empty piece holds no character.
pub proof fn lemma_empty_piece(text: Seq<char>, at: int)
    requires
        0 <= at <= byte_len(text),
    ensures
        chars_between(text, at, at) == Seq::<char>::empty(),
{
    let piece = encode_utf8(text).subrange(at, at);
    assert(piece.len() == 0);
    assert(valid_utf8(piece));
}

/// The text of `body` between two boundaries, as a slice of it.
pub fn byte_slice<'a>(body: &'a str, start: usize, end: usize) -> (piece: &'a str)
    requires
        start <= end,
        on_boundary(body@, start as int),
        on_boundary(body@, end as int),
    ensures
        piece@ == chars_between(body@, start as int, end as int),
        encode_utf8(piece@) == encode_utf8(body@).subrange(start as int, end as int),
{
    proof {
        let bytes = encode_utf8(body@);
        encode_utf8_valid_utf8(body@);
        lemma_boundary_within_piece(bytes, 0, start as int, end as int);
    }
    let (head, _) = body.split_at(end);
    let (_, piece) = head.split_at(start);
    proof {
        let bytes = encode_utf8(body@);
        assert(encode_utf8(piece@) =~= bytes.subrange(start as int, end as int));
        encode_utf8_decode_utf8(piece@);
    }
    piece
}

/// The boundary that follows the character starting at `pos`.
pub fn skip_char(body: &str, pos: usize) -> (next: usize)
    requires
        pos < byte_len(body@),
    ensures
        next == next_boundary(encode_utf8(body@), pos as int),
        pos < next <= byte_len(body@),
        on_boundary(body@, next as int),
{
    let len = body.as_bytes().len();
    let mut next: usize = pos + 1;
    proof {
        lemma_ends_are_boundaries(body@);
    }
    while next < len && !body.is_char_boundary(next)
        invariant
            len == byte_len(body@),
            pos < next <= len,
            on_boundary(body@, len as int),
            next_boundary(encode_utf8(body@), pos as int) == next_boundary(
                encode_utf8(body@),
                next - 1,
            ),
        decreases len - next,
    {
        next = next + 1;
    }
    next
}

} // verus!
