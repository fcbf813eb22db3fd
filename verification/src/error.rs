use vstd::prelude::*;

verus! {

/// Common error for the framing codec.
///
/// Two variants are declared for the benefit of a wrapping protocol layer and
/// are never produced by this crate: `DuplicateSpecialChar` (a malformed
/// escape-table configuration, unreachable with the fixed built-in table) and
/// `InvalidChecksum` (checksum validation belongs to the layer above).
#[derive(Debug, Clone, PartialEq, Eq, Structural)]
pub enum HDLCError {
    /// Catches duplicate special characters.
    DuplicateSpecialChar,
    /// Catches an escape marker followed by a byte that is not a recognized
    /// substitute.
    FendCharInData,
    /// Catches an escape marker as the last byte of the frame interior, with
    /// no following byte to interpret.
    MissingTradeChar,
    /// No first frame boundary marker on the message.
    MissingFirstFend,
    /// No final frame boundary marker on the message.
    MissingFinalFend,
    /// Too much data to fit the requested encode capacity.
    TooMuchData,
    /// Too few data to be a well-formed frame.
    TooFewData,
    /// Checksum for a decoded frame is invalid (raised only by a wrapping
    /// protocol layer, never by this codec).
    InvalidChecksum,
    /// Decoded payload cannot fit the requested decode capacity.
    TooMuchDecodedData,
}

} // verus!
