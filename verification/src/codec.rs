use vstd::prelude::*;

use crate::buffer::BoundedBuffer;
use crate::error::HDLCError;
use crate::escape::ESCAPE_MARKER;
use crate::escape::FRAME_BOUNDARY_MARKER;
use crate::escape::forward_lookup;
use crate::escape::reverse_lookup;
use crate::framing::decode_spec;
use crate::framing::encode_spec;
use crate::framing::escape_bytes;
use crate::framing::frame_of;
use crate::framing::lemma_escape_bytes_len;
use crate::framing::lemma_escape_bytes_snoc;
use crate::framing::unescape_bytes;

verus! {

/// Produces the escaped (encoded) frame for `data`, surrounded by the two
/// frame boundary markers, writing at most `capacity` bytes.
///
/// Fails with `TooMuchData` exactly when the payload fails the conservative
/// capacity precheck `data.len() > capacity / 2 - 2`; a payload the precheck
/// admits is always framed in full.
pub fn encode(data: &[u8], capacity: usize) -> (r: Result<Vec<u8>, HDLCError>)
    ensures
        match r {
            Ok(v) => encode_spec(data@, capacity as int) == Ok::<Seq<u8>, HDLCError>(v@)
                && v@.len() <= capacity,
            Err(e) => encode_spec(data@, capacity as int) == Err::<Seq<u8>, HDLCError>(e),
        },
{
    let half: usize = capacity / 2;
    if half < 2 || data.len() > half - 2 {
        return Err(HDLCError::TooMuchData);
    }
    let mut output = BoundedBuffer::new(capacity);
    if output.push(FRAME_BOUNDARY_MARKER).is_err() {
        return Err(HDLCError::TooMuchData);
    }
    let mut i: usize = 0;
    while i < data.len()
        invariant
            i <= data.len(),
            data@.len() <= capacity as int / 2 - 2,
            output.cap() == capacity,
            output@ == seq![FRAME_BOUNDARY_MARKER] + escape_bytes(data@.take(i as int)),
        decreases data.len() - i,
    {
        proof {
            lemma_escape_bytes_snoc(data@, i as int);
            lemma_escape_bytes_len(data@.take(i as int));
        }
        let b = data[i];
        match forward_lookup(b) {
            Some(substitute) => {
                if output.push(ESCAPE_MARKER).is_err() {
                    return Err(HDLCError::TooMuchData);
                }
                if output.push(substitute).is_err() {
                    return Err(HDLCError::TooMuchData);
                }
            },
            None => {
                if output.push(b).is_err() {
                    return Err(HDLCError::TooMuchData);
                }
            },
        }
        proof {
            assert(output@ =~= seq![FRAME_BOUNDARY_MARKER] + escape_bytes(
                data@.take(i as int + 1),
            ));
        }
        i = i + 1;
    }
    proof {
        assert(data@.take(data@.len() as int) =~= data@);
        lemma_escape_bytes_len(data@);
    }
    if output.push(FRAME_BOUNDARY_MARKER).is_err() {
        return Err(HDLCError::TooMuchData);
    }
    proof {
        assert(output@ =~= frame_of(data@));
    }
    Ok(output.into_vec())
}

/// Produces the unescaped (decoded) payload of `input`, without the two
/// frame boundary markers, writing at most `capacity` bytes.
///
/// Fails with `TooFewData` on an input shorter than four bytes, with
/// `MissingFirstFend` / `MissingFinalFend` on an input that does not begin /
/// end with the boundary marker, with `MissingTradeChar` on an escape marker
/// that ends the interior, with `FendCharInData` on an escape marker followed
/// by an unrecognized substitute, and with `TooMuchDecodedData` on an output
/// byte past `capacity` — each detected at the first violation, left to
/// right.
pub fn decode(input: &[u8], capacity: usize) -> (r: Result<Vec<u8>, HDLCError>)
    ensures
        match r {
            Ok(v) => decode_spec(input@, capacity as int) == Ok::<Seq<u8>, HDLCError>(v@)
                && v@.len() <= capacity,
            Err(e) => decode_spec(input@, capacity as int) == Err::<Seq<u8>, HDLCError>(e),
        },
{
    if input.len() < 4 {
        return Err(HDLCError::TooFewData);
    }
    if input[0] != FRAME_BOUNDARY_MARKER {
        return Err(HDLCError::MissingFirstFend);
    }
    let end: usize = input.len() - 1;
    if input[end] != FRAME_BOUNDARY_MARKER {
        return Err(HDLCError::MissingFinalFend);
    }
    let ghost interior = input@.subrange(1, input@.len() - 1);
    let mut output = BoundedBuffer::new(capacity);
    proof {
        let res = unescape_bytes(interior, capacity as int);
        if res is Ok {
            assert(Seq::<u8>::empty() + res->Ok_0 =~= res->Ok_0);
        }
        assert(interior.skip(0) =~= interior);
    }
    let mut i: usize = 1;
    while i < end
        invariant
            1 <= i <= end,
            end == input@.len() - 1,
            input@.len() >= 4,
            input@[0] == FRAME_BOUNDARY_MARKER,
            input@[end as int] == FRAME_BOUNDARY_MARKER,
            interior == input@.subrange(1, input@.len() - 1),
            output.cap() == capacity,
            output.wf(),
            unescape_bytes(interior, capacity as int) == (match unescape_bytes(
                interior.skip(i - 1),
                capacity - output@.len(),
            ) {
                Ok(rest) => Ok::<Seq<u8>, HDLCError>(output@ + rest),
                Err(e) => Err::<Seq<u8>, HDLCError>(e),
            }),
        decreases end - i,
    {
        let ghost k = i - 1;
        let ghost remaining = interior.skip(k);
        proof {
            assert(remaining.len() == end - i);
            assert(remaining[0] == interior[k]);
            assert(interior[k] == input@[i as int]);
        }
        let byte = input[i];
        if byte == ESCAPE_MARKER {
            if i + 1 == end {
                proof {
                    assert(remaining.len() == 1);
                }
                return Err(HDLCError::MissingTradeChar);
            }
            proof {
                assert(remaining[1] == interior[k + 1]);
                assert(interior[k + 1] == input@[i + 1]);
            }
            let next = input[i + 1];
            match reverse_lookup(next) {
                None => {
                    return Err(HDLCError::FendCharInData);
                },
                Some(original) => {
                    let ghost out_before = output@;
                    if output.push(original).is_err() {
                        return Err(HDLCError::TooMuchDecodedData);
                    }
                    proof {
                        assert(remaining.skip(2) =~= interior.skip(k + 2));
                        let res = unescape_bytes(interior.skip(k + 2), capacity - output@.len());
                        if res is Ok {
                            assert(out_before + (seq![original] + res->Ok_0) =~= output@
                                + res->Ok_0);
                        }
                    }
                    i = i + 2;
                },
            }
        } else {
            let ghost out_before = output@;
            if output.push(byte).is_err() {
                return Err(HDLCError::TooMuchDecodedData);
            }
            proof {
                assert(remaining.skip(1) =~= interior.skip(k + 1));
                let res = unescape_bytes(interior.skip(k + 1), capacity - output@.len());
                if res is Ok {
                    assert(out_before + (seq![byte] + res->Ok_0) =~= output@ + res->Ok_0);
                }
            }
            i = i + 1;
        }
    }
    proof {
        assert(interior.skip(i - 1).len() == 0);
        assert(output@ + Seq::<u8>::empty() =~= output@);
    }
    Ok(output.into_vec())
}

} // verus!
