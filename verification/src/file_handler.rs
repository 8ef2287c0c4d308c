//! From the bytes of a file to its text.

use std::string::FromUtf8Error;
use vstd::prelude::*;
use vstd::utf8::{encode_utf8, valid_utf8};

verus! {

/// `std::io::Error`, carried through as it is.
#[verifier::external_type_specification]
#[verifier::external_body]
pub struct ExIoError(std::io::Error);

/// `std::string::FromUtf8Error`, carried through as it is.
#[verifier::external_type_specification]
#[verifier::external_body]
pub struct ExFromUtf8Error(FromUtf8Error);

/// Why a file could not be read as text.
#[derive(Debug)]
pub enum ReadFileError {
    /// The file could not be read.
    IoError(std::io::Error),
    /// The bytes of the file are not UTF-8.
    ParseError(FromUtf8Error),
}

/// `String::from_utf8`: the string whose UTF-8 encoding is `bytes`, or an
/// error where `bytes` is no UTF-8 encoding of anything.
#[verifier::external_body]
pub(crate) fn utf8_string(bytes: Vec<u8>) -> (text: Result<String, FromUtf8Error>)
    ensures
        text is Ok <==> valid_utf8(bytes@),
        text matches Ok(s) ==> encode_utf8(s@) == bytes@,
{
    String::from_utf8(bytes)
}

/// The text that `bytes` encode.
pub fn decode(bytes: Vec<u8>) -> (text: Result<String, ReadFileError>)
    ensures
        text is Ok <==> valid_utf8(bytes@),
        text matches Ok(s) ==> encode_utf8(s@) == bytes@,
        text matches Err(e) ==> e is ParseError,
{
    match utf8_string(bytes) {
        Ok(content) => Ok(content),
        Err(e) => Err(ReadFileError::ParseError(e)),
    }
}

} // verus!
