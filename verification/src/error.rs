//! Codec errors.

use vstd::prelude::*;

verus! {

/// Error raised by the wire codec. Every variant carries the actual size
/// first and the size that would have been needed second.
#[derive(Debug, Clone, Copy, PartialEq, Eq, Structural)]
pub enum Error {
    /// A leaf id needs exactly 36 bytes.
    WrongLengthForLeafId(usize, usize),
    /// A fixed-width byte string did not have its expected width.
    WrongLengthForFixedBytes(usize, usize),
    /// A serialized leaf was shorter than its header plus data demand.
    WrongLengthForLeaf(usize, usize),
    /// A serialized transaction was shorter (or, for the signed form, of
    /// another size) than its framing demands.
    WrongLengthForTx(usize, usize),
    /// A serialized script was shorter than its framing demands.
    WrongLengthForScript(usize, usize),
    /// A serialized unlock script was shorter than its framing demands.
    WrongLengthForUnlockScript(usize, usize),
    /// A script type byte was neither of the known type tags. Carries the
    /// offending byte.
    InvalidScriptType(u8),
}

} // verus!
