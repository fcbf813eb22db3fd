use vstd::prelude::*;

verus! {

/// The byte announcing that the next byte is a substitute to be
/// reverse-mapped.
pub const ESCAPE_MARKER: u8 = 0x7d;

/// The byte marking the start and the end of a frame.
pub const FRAME_BOUNDARY_MARKER: u8 = 0x7e;

/// The fixed escape table, forward direction: the substitute for a reserved
/// byte, or `None` for a byte that is not reserved.
///
/// The reserved values are the codec's own escape and boundary markers
/// (`0x7D`, `0x7E`) and two control values (`0x11`, `0x13`) escaped for
/// transport-layer compatibility.
pub open spec fn substitute_for(b: u8) -> Option<u8> {
    if b == 0x7d {
        Some(0x5d)
    } else if b == 0x7e {
        Some(0x5e)
    } else if b == 0x11 {
        Some(0x31)
    } else if b == 0x13 {
        Some(0x33)
    } else {
        None
    }
}

/// The fixed escape table, reverse direction: the original byte for a
/// substitute, or `None` for a byte that is not a valid substitute.
pub open spec fn original_for(b: u8) -> Option<u8> {
    if b == 0x5d {
        Some(0x7d)
    } else if b == 0x5e {
        Some(0x7e)
    } else if b == 0x31 {
        Some(0x11)
    } else if b == 0x33 {
        Some(0x13)
    } else {
        None
    }
}

/// Whether a byte must be escaped before transmission.
pub open spec fn is_reserved(b: u8) -> bool {
    substitute_for(b) is Some
}

/// Forward escape-table lookup: the substitute for a reserved byte.
pub fn forward_lookup(b: u8) -> (r: Option<u8>)
    ensures
        r == substitute_for(b),
{
    if b == 0x7d {
        Some(0x5d)
    } else if b == 0x7e {
        Some(0x5e)
    } else if b == 0x11 {
        Some(0x31)
    } else if b == 0x13 {
        Some(0x33)
    } else {
        None
    }
}

/// Reverse escape-table lookup: the original byte for a substitute.
pub fn reverse_lookup(b: u8) -> (r: Option<u8>)
    ensures
        r == original_for(b),
{
    if b == 0x5d {
        Some(0x7d)
    } else if b == 0x5e {
        Some(0x7e)
    } else if b == 0x31 {
        Some(0x11)
    } else if b == 0x33 {
        Some(0x13)
    } else {
        None
    }
}

/// The two columns of the escape table are each other's inverse, and no
/// value stands in both columns: the eight bytes of the table are pairwise
/// distinct.
pub proof fn lemma_escape_table_inverse(b: u8)
    ensures
        substitute_for(b) matches Some(s) ==> original_for(s) == Some(b),
        original_for(b) matches Some(o) ==> substitute_for(o) == Some(b),
        substitute_for(b) is Some ==> original_for(b) is None,
        original_for(b) is Some ==> substitute_for(b) is None,
{
}

} // verus!
