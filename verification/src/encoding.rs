//! Bytes as text and text as bytes: base64 and UTF-8.

use base64::engine::general_purpose::STANDARD;
use base64::Engine;
use vstd::prelude::*;

verus! {

/// Why base64 text could not be decoded.
#[verifier::external_type_specification]
#[verifier::external_body]
pub struct ExDecodeError(base64::DecodeError);

/// The base64 text of bytes, in the standard alphabet with padding.
pub uninterp spec fn base64_text(bytes: Seq<u8>) -> Seq<char>;

/// The bytes that base64 text stands for, if it is well formed.
pub uninterp spec fn base64_bytes(encoded: Seq<u8>) -> Option<Seq<u8>>;

/// Whether `c` occurs in base64 text.
pub open spec fn is_base64_char(c: char) -> bool {
    ||| 'A' <= c <= 'Z'
    ||| 'a' <= c <= 'z'
    ||| '0' <= c <= '9'
    ||| c == '+'
    ||| c == '/'
    ||| c == '='
}

/// `Engine::encode` of base64, with the standard engine: four characters of its
/// alphabet for every three bytes begun, from which `Engine::decode` gets the
/// bytes back.
#[verifier::external_body]
pub(crate) fn base64_encode(bytes: &Vec<u8>) -> (r: String)
    requires
        (bytes@.len() + 2) / 3 * 4 <= isize::MAX,
    ensures
        r@ == base64_text(bytes@),
        r@.len() == (bytes@.len() + 2) / 3 * 4,
        forall|i: int| 0 <= i < r@.len() ==> is_base64_char(#[trigger] r@[i]),
        base64_bytes(vstd::utf8::encode_utf8(r@)) == Some(bytes@),
{
    STANDARD.encode(bytes)
}

/// `Engine::decode` of base64, with the standard engine.
#[verifier::external_body]
pub(crate) fn base64_decode(encoded: &[u8]) -> (r: Result<Vec<u8>, base64::DecodeError>)
    ensures
        match r {
            Ok(v) => base64_bytes(encoded@) == Some(v@),
            Err(_) => base64_bytes(encoded@) is None,
        },
{
    STANDARD.decode(encoded)
}

/// `std::str::from_utf8`: the text of bytes that are well formed UTF-8, and
/// nothing for others.
#[verifier::external_body]
pub(crate) fn utf8_text(bytes: &Vec<u8>) -> (r: Option<String>)
    ensures
        match r {
            Some(s) => vstd::utf8::valid_utf8(bytes@) && s@ == vstd::utf8::decode_utf8(bytes@),
            None => !vstd::utf8::valid_utf8(bytes@),
        },
{
    std::str::from_utf8(bytes).ok().map(|s| s.to_owned())
}

}
