//! How the end of a binary trace is told from a corrupt one.

use crate::trace::cbor::CborError;
use vstd::prelude::*;

verus! {

/// True when reading a binary event failed because the bytes had ended: that
/// ends a trace, and is no corruption.
pub fn is_cbor_eof(err: &CborError) -> (r: bool)
    ensures
        r == (*err == CborError::Truncated),
{
    match err {
        CborError::Truncated => true,
        CborError::Malformed => false,
    }
}

} // verus!
