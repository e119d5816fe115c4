//! Text as bytes.
//!
//! Documents, identifiers and file contents are Rust strings, and every
//! contract of this crate speaks of their UTF-8 bytes: offsets are byte
//! offsets, and searching is done on bytes. This module holds what is needed
//! to go from one to the other without ever cutting a character in two.

use crate::search::matches_at;
use vstd::prelude::*;
use vstd::utf8::*;

verus! {

/// The bytes of a text given by its characters.
pub open spec fn bytes_of(chars: Seq<char>) -> Seq<u8> {
    encode_utf8(chars)
}

/// A byte that encodes a character by itself.
pub open spec fn is_ascii_byte(byte: u8) -> bool {
    byte <= 0x7f
}

/// The bytes of a concatenation are the concatenation of the bytes.
pub proof fn lemma_bytes_of_concat(a: Seq<char>, b: Seq<char>)
    ensures
        bytes_of(a + b) == bytes_of(a) + bytes_of(b),
    decreases a.len(),
{
    if a.len() > 0 {
        lemma_bytes_of_concat(a.drop_first(), b);
        assert((a + b).drop_first() =~= a.drop_first() + b);
    }
}

/// Texts with the same bytes are the same text.
pub proof fn lemma_same_bytes_same_text(a: Seq<char>, b: Seq<char>)
    requires
        bytes_of(a) == bytes_of(b),
    ensures
        a == b,
{
    encode_utf8_decode_utf8(a);
    encode_utf8_decode_utf8(b);
}

/// In well-formed text a character may start at every ASCII byte, and
/// another one right behind it.
pub proof fn lemma_boundaries_around_ascii(bytes: Seq<u8>, at: int)
    requires
        valid_utf8(bytes),
        0 <= at < bytes.len(),
        is_ascii_byte(bytes[at]),
    ensures
        is_char_boundary(bytes, at),
        is_char_boundary(bytes, at + 1),
{
    is_char_boundary_iff_not_is_continuation_byte(bytes, at);
    if at + 1 == bytes.len() {
        is_char_boundary_start_end_of_seq(bytes);
    } else {
        // What follows the byte is well-formed text of its own, so it
        // begins with the first byte of a character.
        valid_utf8_split(bytes, at);
        assert(valid_utf8(pop_first_scalar(bytes.subrange(at, bytes.len() as int))));
        is_char_boundary_iff_not_is_continuation_byte(bytes, at + 1);
    }
}

/// Tells whether two texts are the same, byte for byte.
pub fn same_text(a: &str, b: &str) -> (same: bool)
    ensures
        same == (bytes_of(a@) == bytes_of(b@)),
        same == (a@ == b@),
{
    let left = a.as_bytes();
    let right = b.as_bytes();
    proof {
        if bytes_of(a@) == bytes_of(b@) {
            lemma_same_bytes_same_text(a@, b@);
        }
    }
    if left.len() != right.len() {
        return false;
    }
    let same = matches_at(left, right, 0);
    assert(left@.subrange(0, left@.len() as int) =~= left@);
    same
}

/// The part of `text` between two character boundaries.
pub(crate) fn slice<'a>(text: &'a str, from: usize, to: usize) -> (part: &'a str)
    requires
        from <= to <= bytes_of(text@).len(),
        is_char_boundary(bytes_of(text@), from as int),
        is_char_boundary(bytes_of(text@), to as int),
    ensures
        bytes_of(part@) == bytes_of(text@).subrange(from as int, to as int),
{
    proof {
        encode_utf8_valid_utf8(text@);
    }
    let (head, _) = text.split_at(to);
    proof {
        encode_utf8_valid_utf8(head@);
        let all = bytes_of(text@);
        if from < to {
            is_char_boundary_iff_not_is_continuation_byte(all, from as int);
            is_char_boundary_iff_not_is_continuation_byte(bytes_of(head@), from as int);
        } else {
            is_char_boundary_start_end_of_seq(bytes_of(head@));
        }
    }
    let (_, part) = head.split_at(from);
    part
}

} // verus!
