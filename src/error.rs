use vstd::prelude::*;

verus! {

#[verifier::external_type_specification]
#[verifier::external_body]
pub struct ExIoError(std::io::Error);

/// An encoding label that names no known encoding.
#[derive(Debug)]
pub enum UnknownEncoding {
    Encoding(String),
}

/// The ways a run can fail before or while reading its input.
#[derive(Debug)]
pub enum CSVError {
    /// Reading or writing failed.
    IO(std::io::Error),
    /// The encoding label names no known encoding.
    UnknownEncoding(UnknownEncoding),
    /// The delimiter is not a single one-byte character.
    InvalidDelimiter(String),
}

} // verus!
