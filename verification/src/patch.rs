//! The bytes to write over a match, read from hexadecimal text. The digits
//! are decoded by the `hex` crate.

use vstd::prelude::*;
use vstd::string::StringSliceAdditionalSpecFns;
use crate::matcher::{hex_value, is_hex_digit};

verus! {

/// `hex::FromHexError`, the reason for which digits were refused. It is
/// handed on as it came.
#[verifier::external_type_specification]
#[verifier::external_body]
pub struct ExFromHexError(hex::FromHexError);

/// Whether `digits` is a whole number of pairs of hexadecimal digits.
pub open spec fn is_hex_text(digits: Seq<u8>) -> bool {
    &&& digits.len() % 2 == 0
    &&& forall|i: int| 0 <= i < digits.len() ==> is_hex_digit(#[trigger] digits[i])
}

/// The bytes that the pairs of `digits` stand for, the first digit of each
/// pair being the upper half of its byte.
pub open spec fn hex_bytes(digits: Seq<u8>) -> Seq<u8> {
    Seq::new(
        digits.len() / 2,
        |i: int| (hex_value(digits[2 * i]) * 16 + hex_value(digits[2 * i + 1])) as u8,
    )
}

/// The text without what may stand between the pairs of digits: every
/// space, and every `\x`.
pub open spec fn stripped(text: Seq<u8>) -> Seq<u8>
    decreases text.len(),
{
    if text.len() == 0 {
        Seq::empty()
    } else if text[0] == 0x20 {
        stripped(text.skip(1))
    } else if text.len() >= 2 && text[0] == 0x5c && text[1] == 0x78 {
        stripped(text.skip(2))
    } else {
        seq![text[0]] + stripped(text.skip(1))
    }
}

/// `hex::decode`: the bytes that the digits stand for, or an error where
/// their number is odd or one of them is no hexadecimal digit.
#[verifier::external_body]
fn decode_hex(digits: &[u8]) -> (decoded: Result<Vec<u8>, hex::FromHexError>)
    ensures
        decoded is Ok <==> is_hex_text(digits@),
        decoded matches Ok(bytes) ==> bytes@ == hex_bytes(digits@),
{
    hex::decode(digits)
}

/// Why a text was not taken as a patch.
#[derive(Debug)]
pub enum PatchError {
    /// The text is not made of pairs of hexadecimal digits.
    Malformed(hex::FromHexError),
}

/// `text` without its spaces and `\x` marks.
pub fn strip(text: &[u8]) -> (digits: Vec<u8>)
    ensures
        digits@ == stripped(text@),
{
    let mut digits: Vec<u8> = Vec::new();
    let mut i: usize = 0;
    assert(text@.skip(0) =~= text@);
    assert(digits@ + stripped(text@) =~= stripped(text@));
    while i < text.len()
        invariant
            i <= text@.len(),
            digits@ + stripped(text@.skip(i as int)) == stripped(text@),
        decreases text@.len() - i,
    {
        let ghost rest = text@.skip(i as int);
        if text[i] == 0x20 {
            assert(rest.skip(1) =~= text@.skip(i + 1));
            i += 1;
        } else if i + 1 < text.len() && text[i] == 0x5c && text[i + 1] == 0x78 {
            assert(rest.skip(2) =~= text@.skip(i + 2));
            i += 2;
        } else {
            assert(rest.skip(1) =~= text@.skip(i + 1));
            assert(digits@.push(text@[i as int]) + stripped(rest.skip(1)) =~= digits@ + (seq![rest[0]]
                + stripped(rest.skip(1))));
            digits.push(text[i]);
            i += 1;
        }
    }
    assert(digits@ + stripped(text@.skip(i as int)) =~= digits@);
    digits
}

/// The bytes that `text` stands for: pairs of hexadecimal digits, which
/// spaces may part and `\x` may precede.
///
/// An empty text, or one of spaces and marks alone, gives no bytes.
pub fn decode_patch(text: &str) -> (patch: Result<Vec<u8>, PatchError>)
    ensures
        patch is Ok <==> is_hex_text(stripped(text.spec_bytes())),
        patch matches Ok(bytes) ==> bytes@ == hex_bytes(stripped(text.spec_bytes())),
{
    let digits = strip(text.as_bytes());
    match decode_hex(digits.as_slice()) {
        Ok(bytes) => Ok(bytes),
        Err(error) => Err(PatchError::Malformed(error)),
    }
}

} // verus!
