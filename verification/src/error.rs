//! What can stop an enumeration, and the decoding of a command's output.

use vstd::prelude::*;
use vstd::utf8::{decode_utf8, encode_utf8, encode_utf8_decode_utf8, valid_utf8};

verus! {

/// The highest rank. It is the rank of every device that the service order
/// listing does not name; the ranks that the listing gives out lie below
/// it.
pub const MAX_RANK: u8 = 255;

/// Why an enumeration cannot go on.
#[derive(Debug, Clone, Copy, PartialEq, Eq, Structural)]
pub enum PortError {
    /// A command gave output that is not valid UTF-8 text.
    ExternalCommandFailure,
    /// The line with this index (counted from zero) of the service order
    /// listing does not end with a closing parenthesis or holds no field
    /// before it.
    MalformedServiceOrderLine { line: usize },
    /// The service order listing has more than [`MAX_RANK`] lines: the rank
    /// of a line would reach the rank of the devices that are not listed.
    ServiceOrderOverflow,
}

#[verifier::external_type_specification]
#[verifier::external_body]
pub struct ExFromUtf8Error(std::string::FromUtf8Error);

/// `String::from_utf8` succeeds exactly on well-formed UTF-8, and the bytes
/// of the string are then the bytes given.
pub assume_specification[ String::from_utf8 ](vec: Vec<u8>) -> (r: Result<
    String,
    std::string::FromUtf8Error,
>)
    ensures
        r is Ok <==> valid_utf8(vec@),
        r matches Ok(s) ==> encode_utf8(s@) == vec@,
;

/// The text that a command wrote, from the bytes of its standard output:
/// the characters that the bytes encode, or `ExternalCommandFailure` where
/// the bytes are not well-formed UTF-8.
pub fn decode_output(stdout: Vec<u8>) -> (text: Result<String, PortError>)
    ensures
        text is Ok <==> valid_utf8(stdout@),
        text matches Ok(s) ==> s@ == decode_utf8(stdout@),
        text matches Err(e) ==> e == PortError::ExternalCommandFailure,
{
    match String::from_utf8(stdout) {
        Ok(s) => {
            proof {
                encode_utf8_decode_utf8(s@);
            }
            Ok(s)
        },
        Err(_) => Err(PortError::ExternalCommandFailure),
    }
}

} // verus!
