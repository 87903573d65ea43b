//! SHA-256 and hexadecimal text, the two primitives every hash in the chain is
//! built from. Both are computed by outside crates (`sha2`, `hex`); this module
//! holds the only calls into them.
use vstd::prelude::*;

use crate::text::{char_debug, decimal_digits, spec_char_debug, u64_decimal};
use sha2::Digest;

verus! {

/// The SHA-256 digest of a byte string, as `sha2` computes it.
pub uninterp spec fn spec_sha256(data: Seq<u8>) -> Seq<u8>;

/// The SHA-256 digest of `data`.
///
/// Calls `sha2::Sha256::digest`. Trusted: the digest is the named function of
/// the input bytes, and it is 32 bytes long (the output size of SHA-256).
/// Nothing else about the digest is stated.
#[verifier::external_body]
pub(crate) fn sha256(data: &[u8]) -> (digest: Vec<u8>)
    ensures
        digest@ == spec_sha256(data@),
        digest@.len() == 32,
{
    sha2::Sha256::digest(data).to_vec()
}

/// The lowercase hexadecimal digit of a nibble.
pub open spec fn hex_digit(nibble: u8) -> char {
    if nibble < 10 {
        ((nibble + 48) as u8) as char
    } else {
        ((nibble + 87) as u8) as char
    }
}

/// Lowercase hexadecimal text of a byte string: two digits per byte, high
/// nibble first.
pub open spec fn spec_hex(bytes: Seq<u8>) -> Seq<char>
    decreases bytes.len(),
{
    if bytes.len() == 0 {
        seq![]
    } else {
        seq![hex_digit(bytes[0] / 16), hex_digit(bytes[0] % 16)] + spec_hex(bytes.drop_first())
    }
}

/// A lowercase hexadecimal digit.
pub open spec fn is_hex_char(c: char) -> bool {
    ('0' <= c && c <= '9') || ('a' <= c && c <= 'f')
}

/// A SHA-256 digest as text: 64 lowercase hexadecimal digits.
pub open spec fn is_hex_digest(text: Seq<char>) -> bool {
    text.len() == 64 && forall|i: int| 0 <= i < 64 ==> is_hex_char(#[trigger] text[i])
}

/// Hex text is two lowercase digits per byte.
pub proof fn lemma_hex_text(bytes: Seq<u8>)
    ensures
        spec_hex(bytes).len() == 2 * bytes.len(),
        forall|i: int| 0 <= i < spec_hex(bytes).len() ==> is_hex_char(#[trigger] spec_hex(bytes)[i]),
    decreases bytes.len(),
{
    if bytes.len() > 0 {
        lemma_hex_text(bytes.drop_first());
        let (hi, lo) = (bytes[0] / 16, bytes[0] % 16);
        assert(is_hex_char(hex_digit(hi)));
        assert(is_hex_char(hex_digit(lo)));
        let head = seq![hex_digit(hi), hex_digit(lo)];
        let tail = spec_hex(bytes.drop_first());
        assert forall|i: int| 0 <= i < spec_hex(bytes).len() implies is_hex_char(
            #[trigger] spec_hex(bytes)[i],
        ) by {
            if i >= 2 {
                assert(spec_hex(bytes)[i] == tail[i - 2]);
            }
        }
    }
}

/// `bytes` as lowercase hexadecimal text.
///
/// Calls `hex::encode`, which writes each byte as two lowercase digits, high
/// nibble first (the crate's documented behaviour, table `0123456789abcdef`).
#[verifier::external_body]
pub(crate) fn hex_encode(bytes: &[u8]) -> (text: String)
    ensures
        text@ == spec_hex(bytes@),
{
    hex::encode(bytes)
}

/// Why a hexadecimal string did not decode, one variant per `hex::FromHexError`.
#[derive(Debug, Clone, Copy, PartialEq, Eq, Structural)]
pub enum HexError {
    /// A byte that is not a hex digit, as a character, and its byte index.
    InvalidHexCharacter { c: char, index: usize },
    /// The string has an odd number of bytes.
    OddLength,
    /// The string did not fit the requested length.
    InvalidStringLength,
}

/// The value of a hex digit byte (either case), if it is one.
pub open spec fn hex_value(b: u8) -> Option<u8> {
    if 48 <= b <= 57 {
        Some((b - 48) as u8)
    } else if 97 <= b <= 102 {
        Some((b - 87) as u8)
    } else if 65 <= b <= 70 {
        Some((b - 55) as u8)
    } else {
        None
    }
}

/// The error for the byte `b` at `index`, or the digit value it has.
pub open spec fn hex_value_at(b: u8, index: int) -> Result<u8, HexError> {
    match hex_value(b) {
        Some(v) => Ok(v),
        None => Err(HexError::InvalidHexCharacter { c: b as char, index: index as usize }),
    }
}

/// Decode the digit pairs of `text` from byte `start` (an even index) onward,
/// stopping at the first byte that is not a digit.
pub open spec fn hex_pairs(text: Seq<u8>, start: int) -> Result<Seq<u8>, HexError>
    decreases text.len() - start,
{
    if start < 0 || start + 2 > text.len() {
        Ok(seq![])
    } else {
        match hex_value_at(text[start], start) {
            Err(e) => Err(e),
            Ok(high) => match hex_value_at(text[start + 1], start + 1) {
                Err(e) => Err(e),
                Ok(low) => match hex_pairs(text, start + 2) {
                    Err(e) => Err(e),
                    Ok(rest) => Ok(seq![(high * 16 + low) as u8] + rest),
                },
            },
        }
    }
}

/// What `hex::decode` returns for the bytes `text`: an odd length first, then
/// the first byte that is not a hex digit, else the decoded bytes.
pub open spec fn spec_hex_decode(text: Seq<u8>) -> Result<Seq<u8>, HexError> {
    if text.len() % 2 != 0 {
        Err(HexError::OddLength)
    } else {
        hex_pairs(text, 0)
    }
}

/// Decode hexadecimal text.
///
/// Calls `hex::decode`. Trusted to behave as its source shows: odd-length input
/// is refused first, then the pairs are read in order and the first non-digit
/// byte (as a character, with its byte index) is the error; digits of either
/// case are accepted.
#[verifier::external_body]
pub(crate) fn hex_decode(text: &str) -> (decoded: Result<Vec<u8>, HexError>)
    ensures
        match decoded {
            Ok(bytes) => spec_hex_decode(vstd::utf8::encode_utf8(text@)) == Ok::<Seq<u8>, HexError>(bytes@),
            Err(e) => spec_hex_decode(vstd::utf8::encode_utf8(text@)) == Err::<Seq<u8>, HexError>(e),
        },
{
    match hex::decode(text) {
        Ok(bytes) => Ok(bytes),
        Err(hex::FromHexError::InvalidHexCharacter { c, index }) => Err(HexError::InvalidHexCharacter { c, index }),
        Err(hex::FromHexError::OddLength) => Err(HexError::OddLength),
        Err(hex::FromHexError::InvalidStringLength) => Err(HexError::InvalidStringLength),
    }
}

/// The message `hex::FromHexError` displays for an error.
pub open spec fn hex_error_text(e: HexError) -> Seq<char> {
    match e {
        HexError::InvalidHexCharacter { c, index } => "Invalid character "@ + spec_char_debug(c)
            + " at position "@ + decimal_digits(index as nat),
        HexError::OddLength => "Odd number of digits"@,
        HexError::InvalidStringLength => "Invalid string length"@,
    }
}

/// The message of a hex decoding error, as `hex::FromHexError` displays it.
pub fn hex_error_message(e: HexError) -> (text: String)
    ensures
        text@ == hex_error_text(e),
{
    match e {
        HexError::InvalidHexCharacter { c, index } => {
            let mut text = String::from_str("Invalid character ");
            let shown = char_debug(c);
            text.append(shown.as_str());
            text.append(" at position ");
            let position = u64_decimal(index as u64);
            text.append(position.as_str());
            text
        },
        HexError::OddLength => String::from_str("Odd number of digits"),
        HexError::InvalidStringLength => String::from_str("Invalid string length"),
    }
}

} // verus!
