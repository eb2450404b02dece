use vstd::prelude::*;

use crate::error::{CSVError, UnknownEncoding};

verus! {

/// Whether `label` names an encoding of the Encoding Standard.
pub uninterp spec fn is_encoding_label(label: Seq<char>) -> bool;

/// The text that `bytes` decode to in the encoding named `label`, used whatever
/// the bytes begin with: a byte order mark of that encoding is dropped, and each
/// undecodable sequence is replaced by U+FFFD.
pub uninterp spec fn decoded(label: Seq<char>, bytes: Seq<u8>) -> Seq<char>;

/// Relies on encoding_rs::Encoding::for_label: it finds an encoding exactly for the
/// labels of the Encoding Standard.
#[verifier::external_body]
fn known_encoding(label: &str) -> (r: bool)
    ensures
        r == is_encoding_label(label@),
{
    encoding_rs::Encoding::for_label(label.as_bytes()).is_some()
}

/// Relies on encoding_rs_io::DecodeReaderBytesBuilder with an explicit encoding
/// (found by encoding_rs::Encoding::for_label), read to the end: the text is
/// `bytes` decoded in that encoding, with replacement characters. Reading from a
/// byte slice cannot fail, and the decoder only ever yields valid UTF-8, so the
/// read always succeeds.
#[verifier::external_body]
fn decode_bytes(label: &str, bytes: &[u8]) -> (r: Result<String, std::io::Error>)
    requires
        is_encoding_label(label@),
    ensures
        r is Ok,
        r matches Ok(s) ==> s@ == decoded(label@, bytes@),
{
    let mut text = String::new();
    let encoding = encoding_rs::Encoding::for_label(label.as_bytes());
    let mut reader = encoding_rs_io::DecodeReaderBytesBuilder::new().encoding(encoding).build(bytes);
    std::io::Read::read_to_string(&mut reader, &mut text).map(|_| text)
}

/// Decodes the contents of a file in the encoding named `encoding`. An unknown
/// label is refused before anything is decoded; any other input decodes, its
/// undecodable byte sequences replaced, never refused.
pub fn read_encoded(contents: &[u8], encoding: &str) -> (r: Result<String, CSVError>)
    ensures
        !is_encoding_label(encoding@) <==> (r matches Err(
            CSVError::UnknownEncoding(UnknownEncoding::Encoding(e)),
        ) && e@ == encoding@),
        is_encoding_label(encoding@) ==> r is Ok,
        r matches Ok(s) ==> s@ == decoded(encoding@, contents@),
{
    if !known_encoding(encoding) {
        return Err(CSVError::UnknownEncoding(UnknownEncoding::Encoding(encoding.to_owned())));
    }
    match decode_bytes(encoding, contents) {
        Ok(s) => Ok(s),
        Err(e) => Err(CSVError::IO(e)),
    }
}

} // verus!
