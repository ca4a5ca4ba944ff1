use vstd::prelude::*;

use crate::rsrv::{AttrIndex, ServerAttribute};

verus! {

/// Why a handshake, a frame or an expression could not be decoded.
#[derive(Debug, PartialEq, Eq)]
pub enum DecodeError {
    /// A fixed-size input had the wrong number of bytes.
    InvalidLength,
    /// A literal field of the handshake held something other than what it must hold.
    UnsupportedAttribute { field: AttrIndex, expected: (u8, u8, u8, u8), actual: (u8, u8, u8, u8) },
    /// The version field of the handshake is not plain text.
    InvalidVersion(ServerAttribute),
    /// The input ended before the bytes that were required.
    Truncated,
    /// The frame header asks for the large-object framing, which is not supported.
    UnsupportedFraming,
    /// A payload carries a type tag that is not a known datum type.
    UnknownDatumType(u8),
    /// An expression node carries a type tag outside the known set.
    UnknownExpressionType(u32),
    /// An expression node carries a known type tag that has no decoding rule.
    UnsupportedExpressionType(u32),
    /// Expressions are nested deeper than the reader allows.
    RecursionLimitExceeded,
}

} // verus!
