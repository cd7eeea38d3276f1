//! The printable text that stands for the bytes of a file.
//!
//! The text is base64 over the BinHex alphabet, without padding. Nothing of
//! that coding is proved here: its results are named, and the contracts of
//! this crate speak of the names.

use crate::error::ArchiveError;
use vstd::prelude::*;

verus! {

/// `base64::DecodeError`: what `base64` says of a text that it cannot
/// decode. Nothing inside it is read here.
#[verifier::external_type_specification]
#[verifier::external_body]
pub struct ExDecodeError(base64::DecodeError);

/// The text that stands for `bytes`.
pub uninterp spec fn transcoded(bytes: Seq<u8>) -> Seq<char>;

/// The length of the text that stands for `n` bytes: four characters for
/// every three bytes, and two or three for one or two bytes that are left.
pub open spec fn text_length(n: nat) -> nat {
    n / 3 * 4 + if n % 3 == 0 {
        0nat
    } else if n % 3 == 1 {
        2nat
    } else {
        3nat
    }
}

/// The bytes that `text` stands for; none where it stands for no bytes.
pub uninterp spec fn untranscoded(text: Seq<char>) -> Option<Seq<u8>>;

/// Calls `base64::Engine::encode_string` on an engine of the BinHex
/// alphabet without padding. Believed of it: the text depends on the bytes
/// alone, has the length that `base64::encoded_len` gives for unpadded
/// text, and decoding it with the same engine gives the bytes back.
#[verifier::external_body]
pub(crate) fn encode_string(bytes: &[u8]) -> (text: Vec<char>)
    ensures
        text@ == transcoded(bytes@),
        text@.len() == text_length(bytes@.len()),
        untranscoded(text@) == Some(bytes@),
{
    let engine = base64::engine::GeneralPurpose::new(
        &base64::alphabet::BIN_HEX,
        base64::engine::general_purpose::NO_PAD,
    );
    let mut text = String::new();
    base64::Engine::encode_string(&engine, bytes, &mut text);
    text.chars().collect()
}

/// Calls `base64::Engine::decode` on an engine of the BinHex alphabet
/// without padding. Believed of it: whether it succeeds, and with which
/// bytes, depends on the text alone.
#[verifier::external_body]
fn decode_string(text: &[char]) -> (r: Result<Vec<u8>, base64::DecodeError>)
    ensures
        match r {
            Ok(bytes) => untranscoded(text@) == Some(bytes@),
            Err(_) => untranscoded(text@) is None,
        },
{
    let engine = base64::engine::GeneralPurpose::new(
        &base64::alphabet::BIN_HEX,
        base64::engine::general_purpose::NO_PAD,
    );
    let text: String = text.iter().collect();
    base64::Engine::decode(&engine, text)
}

/// What became of reading a text back: the bytes, or the failure to decode.
pub fn decoded(outcome: Result<Vec<u8>, base64::DecodeError>) -> (r: Result<Vec<u8>, ArchiveError>)
    ensures
        match outcome {
            Ok(bytes) => r matches Ok(same) && same@ == bytes@,
            Err(_) => r == Err::<Vec<u8>, ArchiveError>(ArchiveError::Decode),
        },
{
    match outcome {
        Ok(bytes) => Ok(bytes),
        Err(_) => Err(ArchiveError::Decode),
    }
}

/// The bytes that `text` stands for; a text that stands for none is a
/// decoding failure.
pub fn from_text(text: &[char]) -> (r: Result<Vec<u8>, ArchiveError>)
    ensures
        match untranscoded(text@) {
            Some(bytes) => r matches Ok(found) && found@ == bytes,
            None => r == Err::<Vec<u8>, ArchiveError>(ArchiveError::Decode),
        },
{
    decoded(decode_string(text))
}

} // verus!
