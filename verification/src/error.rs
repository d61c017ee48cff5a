use vstd::prelude::*;

verus! {

/// Why an embedding or an extraction was refused.
#[derive(Clone, Copy, Debug, PartialEq, Eq, Structural)]
pub enum StegoError {
    /// The payload does not fit in the carrier at the requested bit width.
    CapacityExceeded,
    /// The bit width is not one of 1 to 8.
    InvalidBitWidth,
    /// The length read from the carrier asks for more payload than the
    /// carrier can hold.
    MalformedHeader,
    /// The host binary has no recognisable code region, or its format is not
    /// one this library rewrites.
    UnsupportedCarrierLayout,
    /// The audio container could not be decoded into 16-bit samples.
    EncodingError,
}

} // verus!
