use crate::error::DecodeError;
use vstd::prelude::*;
use vstd::string::StringSliceAdditionalSpecFns;
use vstd::utf8::valid_utf8;

verus! {

#[verifier::external_type_specification]
#[verifier::external_body]
pub struct ExUtf8Error(core::str::Utf8Error);

/// Relies on core::str::from_utf8: it returns `Ok` exactly when the bytes are
/// well-formed UTF-8, and the returned slice is over those same bytes.
pub assume_specification[ core::str::from_utf8 ](v: &[u8]) -> (r: Result<
    &str,
    core::str::Utf8Error,
>)
    ensures
        r is Ok <==> valid_utf8(v@),
        r matches Ok(s) ==> s.spec_bytes() == v@,
;

/// Checks whether the bytes are well-formed UTF-8.
pub fn is_valid_utf8(v: &[u8]) -> (r: bool)
    ensures
        r == valid_utf8(v@),
{
    core::str::from_utf8(v).is_ok()
}

/// The bytes as text when they are well-formed UTF-8, `InvalidText` otherwise.
pub fn text_of(v: &[u8]) -> (r: Result<&str, DecodeError>)
    ensures
        r is Ok <==> valid_utf8(v@),
        r matches Ok(s) ==> s.spec_bytes() == v@,
        r is Err ==> r == Err::<&str, DecodeError>(DecodeError::InvalidText),
{
    match core::str::from_utf8(v) {
        Ok(s) => Ok(s),
        Err(_) => Err(DecodeError::InvalidText),
    }
}

} // verus!
