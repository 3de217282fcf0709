use vstd::prelude::*;

verus! {

/// The ways a decode can fail.
///
/// `MagicMismatch`: one of the two fixed header magics did not match.
/// `Truncated`: fewer bytes or bits remain than a field requires.
/// `Misaligned`: a byte-granularity read was requested mid-byte.
/// `InvalidText`: a name field did not hold well-formed UTF-8.
#[derive(Clone, Copy, Debug, PartialEq, Eq, Structural)]
pub enum DecodeError {
    MagicMismatch,
    Truncated,
    Misaligned,
    InvalidText,
}

} // verus!
