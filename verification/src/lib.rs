//! A reversible text codec driven by a small grammar.
//!
//! A grammar is a set of named sections, each a list of alternative rules
//! made of literal text and references to other sections.  Compiling it
//! yields a flat table with which [`encode`] turns any byte string into text
//! that follows the grammar, and [`decode`] recovers the bytes from the text.

use decoder::{decodable, decode_result, error_matches};
use encoder::{encodable, encode_text};
use vstd::prelude::*;
use vstd::utf8::{decode_utf8, encode_utf8, encode_utf8_decode_utf8, valid_utf8};

pub mod decoder;
pub mod encoder;
pub mod file;
pub mod round_trip;
pub mod share_str;
pub mod syntax;
pub mod termination;

pub use decoder::{decode, decode_within, DecodeError};
pub use encoder::{encode, encode_within};
pub use syntax::{compile, table_view, table_wf, Section};

verus! {

/// Why an encoded text did not yield a text.
#[derive(Debug)]
pub enum DecodeModeError {
    /// The encoded text does not decode.
    Decode(DecodeError),
    /// The bytes decoded are not a text in UTF-8.
    NotUtf8,
}

/// The string whose UTF-8 form `bytes` are, by `String::from_utf8`; `None`
/// where they are not valid UTF-8.
#[verifier::external_body]
fn string_from_utf8(bytes: Vec<u8>) -> (r: Option<String>)
    ensures
        r is Some <==> valid_utf8(bytes@),
        r matches Some(s) ==> encode_utf8(s@) == bytes@,
{
    match String::from_utf8(bytes) {
        Ok(s) => Some(s),
        Err(_) => None,
    }
}

/// Encodes the text `decode_text`, taken as its bytes in UTF-8.
pub fn encode_mode(map: &Vec<Section>, decode_text: &str) -> (r: String)
    requires
        table_wf(table_view(map@)),
        encodable(table_view(map@), encode_utf8(decode_text@)),
    ensures
        r@ == encode_text(table_view(map@), encode_utf8(decode_text@)),
{
    let origin = decode_text.as_bytes();
    encode(map, origin)
}

/// Decodes `encoded_text` to the text whose bytes in UTF-8 it encodes.
pub fn decode_mode(map: &Vec<Section>, encoded_text: &str) -> (r: Result<String, DecodeModeError>)
    requires
        table_wf(table_view(map@)),
        decodable(table_view(map@), encoded_text@),
    ensures
        match decode_result(table_view(map@), encoded_text@) {
            Err(failure) => (r matches Err(DecodeModeError::Decode(e)) && error_matches(
                e,
                encoded_text@,
                failure,
            )),
            Ok(bytes) => if valid_utf8(bytes) {
                r matches Ok(s) && s@ == decode_utf8(bytes)
            } else {
                r matches Err(DecodeModeError::NotUtf8)
            },
        },
{
    let decoded = match decode(map, encoded_text) {
        Ok(bytes) => bytes,
        Err(e) => {
            return Err(DecodeModeError::Decode(e));
        },
    };
    match string_from_utf8(decoded) {
        Some(s) => {
            proof {
                encode_utf8_decode_utf8(s@);
            }
            Ok(s)
        },
        None => Err(DecodeModeError::NotUtf8),
    }
}

} // verus!
