//! ABI codec for a TVM-style smart-contract platform.
//!
//! Typed function calls are encoded into a tree of bounded cells (at most
//! 1023 data bits and 4 child references each); payloads that overflow a
//! cell are spilled into chained child cells.  The codec also frames calls
//! with a version byte and a function identifier derived from a SHA-256
//! hash of the canonical signature, and can attach and verify Ed25519
//! signatures over the serialized payload.

use vstd::prelude::*;

pub mod bits;
pub mod bitstring;
pub mod cell;
pub mod slice;
pub mod types;
pub mod value;
pub mod dint;
pub mod encode;
pub mod crypto;
pub mod boc;
pub mod decode;
pub mod call;
pub mod status;
pub mod laws;

verus! {

/// The pinned ABI version emitted as the first byte of every call.
pub const ABI_VERSION: u8 = 0;

/// Errors surfaced by the codec.
///
/// Encoding failures signal misuse; decoding failures report malformed or
/// truncated input from untrusted peers.
#[derive(Clone, Copy, PartialEq, Eq, Structural, Debug)]
pub enum AbiError {
    /// A requested item (a function by name) is missing.
    NotFound,
    /// Misuse of a builder or reader.
    InvalidOperation,
    /// Malformed input met while decoding.
    InvalidData,
    /// An out-of-range parameter.
    InvalidArg,
    /// An internal invariant would be violated.
    InternalError,
    /// A cell hash did not match on verification.
    WrongHash,
    /// An Ed25519 signature failed to verify.
    SignatureError,
    /// A read ran past the end of the available data.
    DataExhausted,
}

/// Default value for optional boolean flags of the call parameters.
pub fn bool_false() -> (r: bool)
    ensures
        r == false,
{
    false
}

} // verus!
