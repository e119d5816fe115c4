//! The pair of tokens that delimits one file's region in the document.

use crate::text::{bytes_of, lemma_bytes_of_concat};
use vstd::prelude::*;
use vstd::string::StringExecFns;
use vstd::utf8::*;

verus! {

/// The token that opens the region of `identifier`: `<code `, the
/// identifier, `>`.
pub open spec fn start_token(identifier: Seq<u8>) -> Seq<u8> {
    bytes_of("<code "@) + identifier + bytes_of(">"@)
}

/// The token that closes the region of `identifier`: `</code `, the
/// identifier, `>`.
pub open spec fn end_token(identifier: Seq<u8>) -> Seq<u8> {
    bytes_of("</code "@) + identifier + bytes_of(">"@)
}

/// The two tokens of one identifier. They are computed when needed and never
/// stored with the document.
pub struct Marker {
    pub start_token: String,
    pub end_token: String,
}

impl Marker {
    /// The marker of `identifier`.
    pub fn for_identifier(identifier: &str) -> (marker: Marker)
        ensures
            bytes_of(marker.start_token@) == start_token(bytes_of(identifier@)),
            bytes_of(marker.end_token@) == end_token(bytes_of(identifier@)),
    {
        let mut start = String::from_str("<code ");
        start.append(identifier);
        start.append(">");
        let mut end = String::from_str("</code ");
        end.append(identifier);
        end.append(">");
        proof {
            lemma_bytes_of_concat("<code "@, identifier@);
            lemma_bytes_of_concat("<code "@ + identifier@, ">"@);
            lemma_bytes_of_concat("</code "@, identifier@);
            lemma_bytes_of_concat("</code "@ + identifier@, ">"@);
        }
        Marker { start_token: start, end_token: end }
    }
}

/// Both tokens begin with `<` and end with `>`, so each begins and ends
/// with a byte that is a character by itself; neither is empty.
pub proof fn lemma_token_ends(identifier: Seq<u8>)
    ensures
        start_token(identifier).len() == identifier.len() + 7,
        end_token(identifier).len() == identifier.len() + 8,
        start_token(identifier).first() == 0x3c,
        start_token(identifier).last() == 0x3e,
        end_token(identifier).first() == 0x3c,
        end_token(identifier).last() == 0x3e,
{
    reveal_strlit("<code ");
    reveal_strlit("</code ");
    reveal_strlit(">");
    is_ascii_chars_encode_utf8("<code "@);
    is_ascii_chars_encode_utf8("</code "@);
    is_ascii_chars_encode_utf8(">"@);
}

} // verus!
