//! Byte/text conversions shared by the metainfo and tracker layers:
//! UTF-8 validated strings and decimal rendering of numbers.

use vstd::prelude::*;

verus! {

use vstd::utf8::{valid_utf8, decode_utf8, encode_utf8, is_ascii_chars};
use vstd::utf8::{is_ascii_chars_encode_utf8, encode_utf8_valid_utf8, encode_utf8_decode_utf8};
use crate::bencode::{nat_digits, is_digit};

/// The characters of an all-ASCII byte sequence, byte for byte.
pub open spec fn ascii_chars_of(bytes: Seq<u8>) -> Seq<char> {
    Seq::new(bytes.len(), |i: int| bytes[i] as char)
}

/// An all-ASCII byte sequence is valid UTF-8 and decodes byte for byte.
pub proof fn lemma_ascii_bytes_utf8(bytes: Seq<u8>)
    requires
        forall|i: int| 0 <= i < bytes.len() ==> #[trigger] bytes[i] < 128,
    ensures
        valid_utf8(bytes),
        decode_utf8(bytes) == ascii_chars_of(bytes),
{
    let chars = ascii_chars_of(bytes);
    assert(is_ascii_chars(chars)) by {
        assert forall|i: int| 0 <= i < chars.len() implies '\0' <= #[trigger] chars[i]
            <= '\u{7f}' by {
            assert(bytes[i] < 128);
        }
    }
    is_ascii_chars_encode_utf8(chars);
    assert(encode_utf8(chars) =~= bytes);
    encode_utf8_valid_utf8(chars);
    encode_utf8_decode_utf8(chars);
}

/// Relies on `String::from_utf8`: it succeeds exactly on valid UTF-8
/// input and yields the string of the decoded characters.
#[verifier::external_body]
pub(crate) fn string_from_utf8(bytes: Vec<u8>) -> (r: Option<String>)
    ensures
        r is Some <==> valid_utf8(bytes@),
        r is Some ==> r->0@ == decode_utf8(bytes@),
{
    match String::from_utf8(bytes) {
        Ok(s) => Some(s),
        Err(_) => None,
    }
}

/// The decimal digits of `n` as characters, most significant first.
pub open spec fn nat_digit_chars(n: nat) -> Seq<char> {
    ascii_chars_of(nat_digits(n))
}

/// Render `n` in minimal decimal form.
pub fn nat_to_string(n: u64) -> (r: String)
    ensures
        r@ == nat_digit_chars(n as nat),
{
    let mut digits: Vec<u8> = Vec::new();
    crate::bencode::push_nat_digits(n, &mut digits);
    proof {
        assert(digits@ =~= nat_digits(n as nat));
        crate::bencode::lemma_nat_digits_valid(n as nat);
        assert forall|i: int| 0 <= i < digits@.len() implies #[trigger] digits@[i] < 128 by {
            assert(is_digit(digits@[i]));
        }
        lemma_ascii_bytes_utf8(digits@);
    }
    let r = string_from_utf8(digits);
    match r {
        Some(s) => s,
        None => vstd::pervasive::unreached(),
    }
}

} // verus!
