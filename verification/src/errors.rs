use vstd::prelude::*;

verus! {

/// Failure kinds that an encode or decode can report. The recoverable
/// conditions (degenerate autocorrelation, out-of-range sparse index) are
/// handled in place and never surface here.
#[derive(Clone, Copy, Debug, PartialEq, Eq, Structural)]
pub enum CodecError {
    /// A header or block prefix could not be read in full.
    Truncated,
    /// The leading four bytes are not the container magic.
    BadMagic,
    /// The version field selects no known body schema.
    BadVersion,
    /// The Rice or rANS coder ran out of bytes mid-symbol.
    BitstreamUnderflow,
    /// The rANS frequency table does not sum to the fixed total.
    FrequencyTableInvalid,
    /// A block payload grew past what its length prefix can frame.
    BlockTooLarge,
}

} // verus!
