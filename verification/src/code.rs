//! Two-letter country codes.

use vstd::prelude::*;
use vstd::string::*;
use vstd::utf8::*;

verus! {

/// A country code: two bytes, ASCII letters by convention.
pub type ShortCountryCode = [u8; 2];

/// The two bytes of a code, or the absence of one.
pub open spec fn code_pair(code: Option<ShortCountryCode>) -> Option<(u8, u8)> {
    match code {
        Some(c) => Some((c[0], c[1])),
        None => None,
    }
}

/// `ascii::AsciiChar::from_ascii` on a byte, turned back into a byte with
/// `AsciiChar::as_byte`. The crate accepts exactly the bytes below 128 and
/// its character then holds the byte it was made from.
#[verifier::external_body]
pub(crate) fn ascii_byte(b: u8) -> (r: Option<u8>)
    ensures
        r == (if b < 128 { Some(b) } else { None::<u8> }),
{
    match ascii::AsciiChar::from_ascii(b) {
        Ok(letter) => Some(letter.as_byte()),
        Err(_) => None,
    }
}

/// `std::str::from_utf8`: the bytes as text exactly when they are valid
/// UTF-8, and the text then consists of those bytes.
#[verifier::external_body]
fn utf8_text(bytes: &[u8]) -> (r: Option<&str>)
    ensures
        r is Some <==> valid_utf8(bytes@),
        r is Some ==> r.unwrap().spec_bytes() == bytes@,
{
    match core::str::from_utf8(bytes) {
        Ok(text) => Some(text),
        Err(_) => None,
    }
}

/// Two ASCII bytes are valid UTF-8 and decode to the two characters with
/// the same numbers.
pub proof fn lemma_ascii_pair_decodes(bytes: Seq<u8>)
    requires
        bytes.len() == 2,
        bytes[0] < 128,
        bytes[1] < 128,
    ensures
        valid_utf8(bytes),
        decode_utf8(bytes) == seq![bytes[0] as char, bytes[1] as char],
{
    let chars = seq![bytes[0] as char, bytes[1] as char];
    is_ascii_chars_encode_utf8(chars);
    assert(encode_utf8(chars) =~= bytes);
    encode_utf8_valid_utf8(chars);
    encode_utf8_decode_utf8(chars);
}

/// Renders a code as a string of two characters.
///
/// The bytes come from the input as it was, so the rendering gives nothing
/// where they are not valid UTF-8. Two ASCII bytes always render, each as the
/// character with its number.
pub fn code_to_str(code: ShortCountryCode) -> (r: Option<String>)
    ensures
        r is Some <==> valid_utf8(code@),
        r is Some ==> r.unwrap()@ == decode_utf8(code@),
        code[0] < 128 && code[1] < 128 ==> r is Some && r.unwrap()@ == seq![
            code[0] as char,
            code[1] as char,
        ],
{
    proof {
        if code[0] < 128 && code[1] < 128 {
            lemma_ascii_pair_decodes(code@);
        }
    }
    match utf8_text(code.as_slice()) {
        Some(text) => {
            proof {
                encode_utf8_decode_utf8(text@);
            }
            Some(text.to_owned())
        },
        None => None,
    }
}

} // verus!
