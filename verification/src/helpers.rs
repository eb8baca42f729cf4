use vstd::prelude::*;

use vstd::string::StrSliceExecFns;
use vstd::utf8::decode_utf8;
use vstd::utf8::encode_utf8;
use vstd::utf8::valid_utf8;

verus! {

/// Encodes a file-extension string as the raw bytes that a DAG root node
/// carries: the UTF-8 encoding of the string.
pub fn convert_file_extension_to_raw(extension: &str) -> (r: Option<Vec<u8>>)
    ensures
        r matches Some(b) && b@ == encode_utf8(extension@),
{
    Some(extension.as_bytes_vec())
}

/// Decodes the raw bytes of a DAG root node back into the file-extension
/// string, if the bytes are valid UTF-8.
///
/// Relies on `String::from_utf8`: it succeeds exactly on valid UTF-8 input
/// and returns the string whose UTF-8 encoding is that input.
#[verifier::external_body]
pub fn convert_raw_to_file_extension(raw: Vec<u8>) -> (r: Option<String>)
    ensures
        r matches Some(s) ==> valid_utf8(raw@) && s@ == decode_utf8(raw@),
        r is None ==> !valid_utf8(raw@),
{
    String::from_utf8(raw).ok()
}

} // verus!
