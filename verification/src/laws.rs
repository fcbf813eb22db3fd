use vstd::prelude::*;

use crate::error::HDLCError;
use crate::escape::ESCAPE_MARKER;
use crate::escape::FRAME_BOUNDARY_MARKER;
use crate::escape::is_reserved;
use crate::escape::substitute_for;
use crate::framing::decode_spec;
use crate::framing::encode_spec;
use crate::framing::escape_byte;
use crate::framing::escape_bytes;
use crate::framing::frame_of;
use crate::framing::lemma_escape_bytes_append;
use crate::framing::lemma_escape_bytes_len;
use crate::framing::unescape_bytes;

verus! {

/// Unescaping an escaped payload recovers it exactly, whenever there is room
/// for every payload byte.
pub proof fn lemma_unescape_escape(data: Seq<u8>, room: int)
    requires
        room >= data.len(),
    ensures
        unescape_bytes(escape_bytes(data), room) == Ok::<Seq<u8>, HDLCError>(data),
    decreases data.len(),
{
    if data.len() == 0 {
        assert(data =~= Seq::<u8>::empty());
        assert(escape_bytes(data) =~= Seq::<u8>::empty());
    } else {
        let rest = data.drop_first();
        let b = data[0];
        let escaped = escape_bytes(data);
        lemma_unescape_escape(rest, room - 1);
        if is_reserved(b) {
            let s = substitute_for(b)->Some_0;
            assert(escaped =~= seq![ESCAPE_MARKER, s] + escape_bytes(rest));
            assert(escaped[0] == ESCAPE_MARKER);
            assert(escaped[1] == s);
            lemma_escape_bytes_len(rest);
            assert(escaped.skip(2) =~= escape_bytes(rest));
            assert(seq![b] + rest =~= data);
        } else {
            assert(escaped =~= seq![b] + escape_bytes(rest));
            assert(escaped[0] == b);
            assert(escaped[0] != ESCAPE_MARKER);
            assert(escaped.skip(1) =~= escape_bytes(rest));
            assert(seq![b] + rest =~= data);
        }
    }
}

/// Round trip: a payload the encoder's capacity precheck admits is framed in
/// full, and decoding that frame with room for every payload byte gives back
/// the payload, byte for byte and in order.
///
/// The decoder's four-byte floor keeps the law away from payloads whose
/// escaped form is shorter than two bytes (the empty payload, or a single
/// unreserved byte): their frames are rejected with `TooFewData`.
pub proof fn lemma_round_trip(data: Seq<u8>, encode_capacity: int, decode_capacity: int)
    requires
        data.len() <= encode_capacity / 2 - 2,
        escape_bytes(data).len() >= 2,
        decode_capacity >= data.len(),
    ensures
        encode_spec(data, encode_capacity) == Ok::<Seq<u8>, HDLCError>(frame_of(data)),
        decode_spec(frame_of(data), decode_capacity) == Ok::<Seq<u8>, HDLCError>(data),
{
    let frame = frame_of(data);
    let escaped = escape_bytes(data);
    assert(frame.len() == escaped.len() + 2);
    assert(frame[0] == FRAME_BOUNDARY_MARKER);
    assert(frame[frame.len() - 1] == FRAME_BOUNDARY_MARKER);
    assert(frame.subrange(1, frame.len() - 1) =~= escaped);
    lemma_unescape_escape(data, decode_capacity);
}

/// Every byte of an escaped payload differs from the frame boundary marker,
/// so the only boundary markers of a frame are its two ends.
pub proof fn lemma_escape_bytes_no_boundary(data: Seq<u8>)
    ensures
        forall|k: int|
            0 <= k < escape_bytes(data).len() ==> escape_bytes(data)[k] != FRAME_BOUNDARY_MARKER,
    decreases data.len(),
{
    if data.len() > 0 {
        lemma_escape_bytes_no_boundary(data.drop_first());
        assert forall|k: int| 0 <= k < escape_bytes(data).len() implies escape_bytes(data)[k]
            != FRAME_BOUNDARY_MARKER by {
            let unit = escape_byte(data[0]);
            assert(escape_bytes(data) == unit + escape_bytes(data.drop_first()));
            if k >= unit.len() {
                assert(escape_bytes(data)[k] == escape_bytes(data.drop_first())[k - unit.len()]);
            }
        }
    }
}

/// Escaping correctness, first half: a reserved byte anywhere in the payload
/// shows up in the frame as the escape marker followed by its substitute, at
/// the offset where that byte's encoding begins.
pub proof fn lemma_escaped_pair_at_position(data: Seq<u8>, i: int)
    requires
        0 <= i < data.len(),
        is_reserved(data[i]),
    ensures
        ({
            let p: int = 1 + escape_bytes(data.take(i)).len() as int;
            &&& p + 1 < frame_of(data).len() - 1
            &&& frame_of(data)[p] == ESCAPE_MARKER
            &&& substitute_for(data[i]) == Some(frame_of(data)[p + 1])
        }),
{
    let p: int = 1 + escape_bytes(data.take(i)).len() as int;
    let before = escape_bytes(data.take(i));
    let unit = escape_byte(data[i]);
    let after = escape_bytes(data.skip(i + 1));
    assert(data =~= data.take(i) + (seq![data[i]] + data.skip(i + 1)));
    lemma_escape_bytes_append(data.take(i), seq![data[i]] + data.skip(i + 1));
    lemma_escape_bytes_append(seq![data[i]], data.skip(i + 1));
    crate::framing::lemma_escape_bytes_singleton(data[i]);
    assert(escape_bytes(data) == before + (unit + after));
    let s = substitute_for(data[i])->Some_0;
    assert(unit == seq![ESCAPE_MARKER, s]);
    assert(escape_bytes(data)[p - 1] == (unit + after)[0]);
    assert(escape_bytes(data)[p] == (unit + after)[1]);
    assert(frame_of(data)[p] == escape_bytes(data)[p - 1]);
    assert(frame_of(data)[p + 1] == escape_bytes(data)[p]);
}

/// Escaping correctness, second half: no unescaped frame boundary marker
/// appears anywhere in a frame except as its first and last byte.
pub proof fn lemma_no_boundary_in_interior(data: Seq<u8>, j: int)
    requires
        1 <= j < frame_of(data).len() - 1,
    ensures
        frame_of(data)[j] != FRAME_BOUNDARY_MARKER,
{
    lemma_escape_bytes_no_boundary(data);
    assert(frame_of(data)[j] == escape_bytes(data)[j - 1]);
}

/// Boundary rejection: an input shorter than four bytes is rejected with
/// `TooFewData`; one that does not start with the boundary marker with
/// `MissingFirstFend`; one that starts but does not end with it with
/// `MissingFinalFend` — whatever the capacity.
pub proof fn lemma_boundary_rejection(input: Seq<u8>, capacity: int)
    ensures
        input.len() < 4 ==> decode_spec(input, capacity) == Err::<Seq<u8>, HDLCError>(
            HDLCError::TooFewData,
        ),
        input.len() >= 4 && input[0] != FRAME_BOUNDARY_MARKER ==> decode_spec(input, capacity)
            == Err::<Seq<u8>, HDLCError>(HDLCError::MissingFirstFend),
        input.len() >= 4 && input[0] == FRAME_BOUNDARY_MARKER && input[input.len() - 1]
            != FRAME_BOUNDARY_MARKER ==> decode_spec(input, capacity) == Err::<
            Seq<u8>,
            HDLCError,
        >(HDLCError::MissingFinalFend),
{
}

/// Unescaping a longer input decomposes: once a prefix unescapes cleanly,
/// the rest of the interior is unescaped with the room that prefix left
/// over, and its result is appended to the prefix's.
pub proof fn lemma_unescape_append(a: Seq<u8>, b: Seq<u8>, room: int)
    requires
        unescape_bytes(a, room) is Ok,
    ensures
        unescape_bytes(a + b, room) == (match unescape_bytes(
            b,
            room - unescape_bytes(a, room)->Ok_0.len(),
        ) {
            Ok(rest) => Ok::<Seq<u8>, HDLCError>(unescape_bytes(a, room)->Ok_0 + rest),
            Err(e) => Err::<Seq<u8>, HDLCError>(e),
        }),
    decreases a.len(),
{
    if a.len() == 0 {
        assert(a + b =~= b);
        let res = unescape_bytes(b, room);
        if res is Ok {
            assert(Seq::<u8>::empty() + res->Ok_0 =~= res->Ok_0);
        }
    } else if a[0] == ESCAPE_MARKER {
        let tail = a.skip(2);
        assert((a + b)[0] == a[0]);
        assert((a + b)[1] == a[1]);
        assert((a + b).skip(2) =~= tail + b);
        lemma_unescape_append(tail, b, room - 1);
        let org = crate::escape::original_for(a[1])->Some_0;
        let prefix_rest = unescape_bytes(tail, room - 1)->Ok_0;
        assert(unescape_bytes(a, room)->Ok_0 == seq![org] + prefix_rest);
        let res = unescape_bytes(b, room - 1 - prefix_rest.len());
        if res is Ok {
            assert(seq![org] + (prefix_rest + res->Ok_0) =~= (seq![org] + prefix_rest)
                + res->Ok_0);
        }
    } else {
        let tail = a.skip(1);
        assert((a + b)[0] == a[0]);
        assert((a + b).skip(1) =~= tail + b);
        lemma_unescape_append(tail, b, room - 1);
        let prefix_rest = unescape_bytes(tail, room - 1)->Ok_0;
        assert(unescape_bytes(a, room)->Ok_0 == seq![a[0]] + prefix_rest);
        let res = unescape_bytes(b, room - 1 - prefix_rest.len());
        if res is Ok {
            assert(seq![a[0]] + (prefix_rest + res->Ok_0) =~= (seq![a[0]] + prefix_rest)
                + res->Ok_0);
        }
    }
}

/// Dangling escape: a frame whose interior unescapes cleanly up to a bare
/// trailing escape marker is rejected with `MissingTradeChar`.
pub proof fn lemma_dangling_escape(prefix: Seq<u8>, capacity: int)
    requires
        prefix.len() >= 1,
        unescape_bytes(prefix, capacity) is Ok,
    ensures
        decode_spec(
            seq![FRAME_BOUNDARY_MARKER] + prefix + seq![ESCAPE_MARKER] + seq![
                FRAME_BOUNDARY_MARKER,
            ],
            capacity,
        ) == Err::<Seq<u8>, HDLCError>(HDLCError::MissingTradeChar),
{
    let frame = seq![FRAME_BOUNDARY_MARKER] + prefix + seq![ESCAPE_MARKER] + seq![
        FRAME_BOUNDARY_MARKER,
    ];
    let interior = prefix + seq![ESCAPE_MARKER];
    assert(frame.len() == prefix.len() + 3);
    assert(frame[0] == FRAME_BOUNDARY_MARKER);
    assert(frame[frame.len() - 1] == FRAME_BOUNDARY_MARKER);
    assert(frame.subrange(1, frame.len() - 1) =~= interior);
    lemma_unescape_append(prefix, seq![ESCAPE_MARKER], capacity);
    let leftover = capacity - unescape_bytes(prefix, capacity)->Ok_0.len();
    assert(seq![ESCAPE_MARKER].len() == 1);
    assert(unescape_bytes(seq![ESCAPE_MARKER], leftover) == Err::<Seq<u8>, HDLCError>(
        HDLCError::MissingTradeChar,
    ));
}

/// Capacity enforcement on encoding: a payload longer than
/// `capacity / 2 - 2` is rejected with `TooMuchData`.
pub proof fn lemma_encode_capacity(data: Seq<u8>, capacity: int)
    requires
        data.len() > capacity / 2 - 2,
    ensures
        encode_spec(data, capacity) == Err::<Seq<u8>, HDLCError>(HDLCError::TooMuchData),
{
}

/// With room for fewer bytes than a cleanly unescaping interior produces,
/// unescaping fails with `TooMuchDecodedData`.
pub proof fn lemma_unescape_insufficient_room(s: Seq<u8>, room: int, small: int)
    requires
        unescape_bytes(s, room) is Ok,
        0 <= small < unescape_bytes(s, room)->Ok_0.len(),
    ensures
        unescape_bytes(s, small) == Err::<Seq<u8>, HDLCError>(HDLCError::TooMuchDecodedData),
    decreases s.len(),
{
    if s[0] == ESCAPE_MARKER {
        if small > 0 {
            lemma_unescape_insufficient_room(s.skip(2), room - 1, small - 1);
        }
    } else {
        if small > 0 {
            lemma_unescape_insufficient_room(s.skip(1), room - 1, small - 1);
        }
    }
}

/// Capacity enforcement on decoding: a frame for a payload the decoder has
/// too little room for is rejected with `TooMuchDecodedData`.
pub proof fn lemma_decode_insufficient_capacity(data: Seq<u8>, capacity: int)
    requires
        escape_bytes(data).len() >= 2,
        0 <= capacity < data.len(),
    ensures
        decode_spec(frame_of(data), capacity) == Err::<Seq<u8>, HDLCError>(
            HDLCError::TooMuchDecodedData,
        ),
{
    let frame = frame_of(data);
    let escaped = escape_bytes(data);
    assert(frame.len() == escaped.len() + 2);
    assert(frame[0] == FRAME_BOUNDARY_MARKER);
    assert(frame[frame.len() - 1] == FRAME_BOUNDARY_MARKER);
    assert(frame.subrange(1, frame.len() - 1) =~= escaped);
    lemma_unescape_escape(data, data.len() as int);
    lemma_unescape_insufficient_room(escaped, data.len() as int, capacity);
}

} // verus!
