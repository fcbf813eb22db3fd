use vstd::prelude::*;

use crate::error::HDLCError;
use crate::escape::ESCAPE_MARKER;
use crate::escape::FRAME_BOUNDARY_MARKER;
use crate::escape::original_for;
use crate::escape::substitute_for;

verus! {

/// The encoding of one payload byte: a reserved byte becomes the escape
/// marker followed by its substitute, any other byte passes through.
pub open spec fn escape_byte(b: u8) -> Seq<u8> {
    match substitute_for(b) {
        Some(s) => seq![ESCAPE_MARKER, s],
        None => seq![b],
    }
}

/// The escaped form of a whole payload: each byte's encoding, in order.
pub open spec fn escape_bytes(data: Seq<u8>) -> Seq<u8>
    decreases data.len(),
{
    if data.len() == 0 {
        Seq::empty()
    } else {
        escape_byte(data[0]) + escape_bytes(data.drop_first())
    }
}

/// The complete frame for a payload: the escaped payload between two frame
/// boundary markers.
pub open spec fn frame_of(data: Seq<u8>) -> Seq<u8> {
    seq![FRAME_BOUNDARY_MARKER] + escape_bytes(data) + seq![FRAME_BOUNDARY_MARKER]
}

/// What encoding returns: the frame, unless the payload fails the
/// conservative capacity precheck `len > capacity / 2 - 2`.
///
/// The precheck is deliberately stricter than the tight worst-case bound
/// `2 * len + 2` (every byte escaped, plus the two boundary markers); it is
/// kept exactly as stated for behavioural compatibility. A payload it
/// admits always fits: its frame is at most `capacity - 2` bytes long.
pub open spec fn encode_spec(data: Seq<u8>, capacity: int) -> Result<Seq<u8>, HDLCError> {
    if data.len() > capacity / 2 - 2 {
        Err(HDLCError::TooMuchData)
    } else {
        Ok(frame_of(data))
    }
}

/// What decoding the frame interior returns when at most `room` more output
/// bytes may be appended, scanning left to right and stopping at the first
/// violation.
///
/// An escape marker must be followed by a recognized substitute
/// (`MissingTradeChar` when nothing follows, `FendCharInData` when what
/// follows is not a substitute); every appended byte needs room
/// (`TooMuchDecodedData` otherwise). A raw boundary marker strictly inside
/// the interior is not special here: it passes through unchanged.
pub open spec fn unescape_bytes(s: Seq<u8>, room: int) -> Result<Seq<u8>, HDLCError>
    decreases s.len(),
{
    if s.len() == 0 {
        Ok(Seq::empty())
    } else if s[0] == ESCAPE_MARKER {
        if s.len() == 1 {
            Err(HDLCError::MissingTradeChar)
        } else {
            match original_for(s[1]) {
                Some(org) => if room <= 0 {
                    Err(HDLCError::TooMuchDecodedData)
                } else {
                    match unescape_bytes(s.skip(2), room - 1) {
                        Ok(rest) => Ok(seq![org] + rest),
                        Err(e) => Err(e),
                    }
                },
                None => Err(HDLCError::FendCharInData),
            }
        }
    } else if room <= 0 {
        Err(HDLCError::TooMuchDecodedData)
    } else {
        match unescape_bytes(s.skip(1), room - 1) {
            Ok(rest) => Ok(seq![s[0]] + rest),
            Err(e) => Err(e),
        }
    }
}

/// What decoding returns: the input must be at least four bytes long
/// (`TooFewData` otherwise), must begin and end with the frame boundary
/// marker (`MissingFirstFend` / `MissingFinalFend` otherwise), and its
/// interior is then unescaped into at most `capacity` bytes.
pub open spec fn decode_spec(input: Seq<u8>, capacity: int) -> Result<Seq<u8>, HDLCError> {
    if input.len() < 4 {
        Err(HDLCError::TooFewData)
    } else if input[0] != FRAME_BOUNDARY_MARKER {
        Err(HDLCError::MissingFirstFend)
    } else if input[input.len() - 1] != FRAME_BOUNDARY_MARKER {
        Err(HDLCError::MissingFinalFend)
    } else {
        unescape_bytes(input.subrange(1, input.len() - 1), capacity)
    }
}

/// Escaping a payload at least keeps its length and at most doubles it.
pub proof fn lemma_escape_bytes_len(data: Seq<u8>)
    ensures
        data.len() <= escape_bytes(data).len() <= 2 * data.len(),
    decreases data.len(),
{
    if data.len() > 0 {
        lemma_escape_bytes_len(data.drop_first());
    }
}

/// Escaping distributes over concatenation of payloads.
pub proof fn lemma_escape_bytes_append(a: Seq<u8>, b: Seq<u8>)
    ensures
        escape_bytes(a + b) == escape_bytes(a) + escape_bytes(b),
    decreases a.len(),
{
    if a.len() == 0 {
        assert(a + b =~= b);
        assert(escape_bytes(a) + escape_bytes(b) =~= escape_bytes(b));
    } else {
        assert((a + b).drop_first() =~= a.drop_first() + b);
        assert((a + b)[0] == a[0]);
        lemma_escape_bytes_append(a.drop_first(), b);
        assert(escape_byte(a[0]) + (escape_bytes(a.drop_first()) + escape_bytes(b)) =~= (
        escape_byte(a[0]) + escape_bytes(a.drop_first())) + escape_bytes(b));
    }
}

/// The escaped form of a single byte is that byte's encoding.
pub proof fn lemma_escape_bytes_singleton(b: u8)
    ensures
        escape_bytes(seq![b]) == escape_byte(b),
{
    assert(seq![b].drop_first() =~= Seq::<u8>::empty());
    assert(escape_bytes(Seq::<u8>::empty()) == Seq::<u8>::empty());
    assert(escape_bytes(seq![b]) == escape_byte(b) + escape_bytes(seq![b].drop_first()));
    assert(escape_byte(b) + Seq::<u8>::empty() =~= escape_byte(b));
}

/// Extending a payload by one byte appends that byte's encoding.
pub proof fn lemma_escape_bytes_snoc(data: Seq<u8>, i: int)
    requires
        0 <= i < data.len(),
    ensures
        escape_bytes(data.take(i + 1)) == escape_bytes(data.take(i)) + escape_byte(data[i]),
{
    assert(data.take(i + 1) =~= data.take(i) + seq![data[i]]);
    lemma_escape_bytes_append(data.take(i), seq![data[i]]);
    lemma_escape_bytes_singleton(data[i]);
}

} // verus!
