use std::string::FromUtf8Error;
use vstd::prelude::*;

verus! {

/// The error that `String::from_utf8` reports for bytes that are not UTF-8.
#[verifier::external_type_specification]
#[verifier::external_body]
pub struct ExFromUtf8Error(FromUtf8Error);

/// The error type of `std::io`.
#[verifier::external_type_specification]
#[verifier::external_body]
pub struct ExIoError(std::io::Error);

/// Wraps `cause` in an `io::Error` of kind `InvalidData` with `io::Error::new`.
///
/// Trusted, with nothing stated of the result: `io::Error` is opaque here, so
/// neither its kind (`InvalidData`) nor its source (`cause`) is stated.
#[verifier::external_body]
pub(crate) fn invalid_data_error(cause: FromUtf8Error) -> std::io::Error {
    std::io::Error::new(std::io::ErrorKind::InvalidData, cause)
}

/// Errors reported by this library.
#[derive(Debug)]
pub enum Error {
    /// A value that the library does not recognise, with a message.
    CustomError(String),
    /// A timestamp that does not name a date, with a message.
    DateError(String),
}

} // verus!
