//! Where the frame search looks, in which order, and what it finds.
//!
//! The search tries windows of growing width. Within one width it moves in
//! from both ends of the bytes at once: the window at distance 0 from the
//! left end, the one at distance 0 from the right end, then distance 1 from
//! the left, and so on. The first window that is a frame wins. This module
//! states that order without reference to any loop, and proves that it
//! singles out one window whenever some window is a frame.
use vstd::prelude::*;

use crate::crc::{crc_trailer, is_frame, lemma_payload_with_trailer_is_frame};
use crate::ring::popped;

verus! {

/// Whether the window of `width` bytes that starts at `start` lies inside
/// `bytes` and is a frame.
pub open spec fn frame_at(bytes: Seq<u8>, start: int, width: int) -> bool {
    &&& 0 <= start
    &&& start + width <= bytes.len()
    &&& is_frame(bytes.subrange(start, start + width))
}

/// The turn at which a window of `width` bytes starting at `start` is
/// visited, among the windows of that width in `len` bytes. Windows nearer
/// to an end come earlier; of two windows equally near, the left one.
pub open spec fn visit_rank(len: int, width: int, start: int) -> int {
    let mirror = len - width - start;
    if start <= mirror {
        2 * start
    } else {
        2 * mirror + 1
    }
}

/// Whether the window at `start` of `width` bytes is the one the search
/// settles on: it is a frame with a payload of at least `min_len` bytes, no
/// narrower window with such a payload is a frame, and no frame of the same
/// width is visited before it.
pub open spec fn is_first_frame(bytes: Seq<u8>, min_len: nat, start: int, width: int) -> bool {
    &&& min_len + 2 <= width
    &&& frame_at(bytes, start, width)
    &&& forall|s: int, w: int| min_len + 2 <= w < width ==> !frame_at(bytes, s, w)
    &&& forall|s: int| #[trigger]
        frame_at(bytes, s, width) ==> visit_rank(bytes.len() as int, width, start) <= visit_rank(
            bytes.len() as int,
            width,
            s,
        )
}

/// Whether some window with a payload of at least `min_len` bytes is a frame.
pub open spec fn has_frame(bytes: Seq<u8>, min_len: nat) -> bool {
    exists|s: int, w: int| min_len + 2 <= w && frame_at(bytes, s, w)
}

/// The payload of the frame that the search settles on, as the index of its
/// first byte and the index just past its last, or `None` if no window is a
/// frame.
pub open spec fn first_frame(bytes: Seq<u8>, min_len: nat) -> Option<(int, int)> {
    if exists|start: int, width: int| is_first_frame(bytes, min_len, start, width) {
        let (start, width) = choose|start: int, width: int|
            is_first_frame(bytes, min_len, start, width);
        Some((start, start + width - 2))
    } else {
        None
    }
}

/// At most one window is the first frame.
pub proof fn lemma_first_frame_unique(
    bytes: Seq<u8>,
    min_len: nat,
    start: int,
    width: int,
    other_start: int,
    other_width: int,
)
    requires
        is_first_frame(bytes, min_len, start, width),
        is_first_frame(bytes, min_len, other_start, other_width),
    ensures
        start == other_start,
        width == other_width,
{
}

/// A window that is the first frame is what `first_frame` gives.
pub proof fn lemma_first_frame_is(bytes: Seq<u8>, min_len: nat, start: int, width: int)
    requires
        is_first_frame(bytes, min_len, start, width),
    ensures
        first_frame(bytes, min_len) == Some((start, start + width - 2)),
{
    let (s, w) = choose|s: int, w: int| is_first_frame(bytes, min_len, s, w);
    lemma_first_frame_unique(bytes, min_len, start, width, s, w);
}

/// What `first_frame` gives is the payload of a window that is the first
/// frame.
pub proof fn lemma_first_frame_some(bytes: Seq<u8>, min_len: nat)
    requires
        first_frame(bytes, min_len) is Some,
    ensures
        ({
            let (start, end) = first_frame(bytes, min_len)->0;
            &&& is_first_frame(bytes, min_len, start, end - start + 2)
            &&& 0 <= start
            &&& start + min_len <= end
            &&& start + 3 <= end
            &&& end + 2 <= bytes.len()
        }),
{
}

/// Nothing is found unless some window is a frame.
pub proof fn lemma_first_frame_none(bytes: Seq<u8>, min_len: nat)
    requires
        !has_frame(bytes, min_len),
    ensures
        first_frame(bytes, min_len) is None,
{
    if first_frame(bytes, min_len) is Some {
        let (start, end) = first_frame(bytes, min_len)->0;
        assert(frame_at(bytes, start, end - start + 2));
    }
}

/// Bytes too few to hold a payload of `min_len` bytes and a CRC, or fewer
/// than five, hold no frame.
pub proof fn lemma_too_short_for_a_frame(bytes: Seq<u8>, min_len: nat)
    requires
        bytes.len() < min_len + 2 || bytes.len() <= 4,
    ensures
        !has_frame(bytes, min_len),
        first_frame(bytes, min_len) is None,
{
    lemma_first_frame_none(bytes, min_len);
}

/// An empty buffer gives nothing and stays empty, whether it is asked for
/// a byte or for a frame.
pub proof fn lemma_empty_gives_nothing(min_len: nat)
    ensures
        popped(Seq::empty()) == (None::<u8>, Seq::<u8>::empty()),
        first_frame(Seq::empty(), min_len) is None,
{
    lemma_too_short_for_a_frame(Seq::empty(), min_len);
}

/// Among the windows that are frames, one has the least width.
proof fn lemma_narrowest_frame(bytes: Seq<u8>, min_len: nat, start: int, width: int) -> (found: (
    int,
    int,
))
    requires
        min_len + 2 <= width,
        frame_at(bytes, start, width),
    ensures
        min_len + 2 <= found.1 <= width,
        frame_at(bytes, found.0, found.1),
        forall|s: int, w: int| min_len + 2 <= w < found.1 ==> !frame_at(bytes, s, w),
    decreases width,
{
    if exists|s: int, w: int| min_len + 2 <= w < width && frame_at(bytes, s, w) {
        let (s, w) = choose|s: int, w: int| min_len + 2 <= w < width && frame_at(bytes, s, w);
        lemma_narrowest_frame(bytes, min_len, s, w)
    } else {
        (start, width)
    }
}

/// Among the frames of one width, one is visited first.
proof fn lemma_earliest_frame(bytes: Seq<u8>, start: int, width: int) -> (found: int)
    requires
        frame_at(bytes, start, width),
    ensures
        frame_at(bytes, found, width),
        forall|s: int| #[trigger]
            frame_at(bytes, s, width) ==> visit_rank(bytes.len() as int, width, found)
                <= visit_rank(bytes.len() as int, width, s),
    decreases visit_rank(bytes.len() as int, width, start),
{
    let len = bytes.len() as int;
    if exists|s: int|
        frame_at(bytes, s, width) && visit_rank(len, width, s) < visit_rank(len, width, start) {
        let s = choose|s: int|
            frame_at(bytes, s, width) && visit_rank(len, width, s) < visit_rank(len, width, start);
        lemma_earliest_frame(bytes, s, width)
    } else {
        start
    }
}

/// The search finds a frame exactly when some window with a payload of at
/// least `min_len` bytes is a frame.
pub proof fn lemma_first_frame_exists(bytes: Seq<u8>, min_len: nat)
    ensures
        first_frame(bytes, min_len) is Some <==> has_frame(bytes, min_len),
{
    if has_frame(bytes, min_len) {
        let (s, w) = choose|s: int, w: int| min_len + 2 <= w && frame_at(bytes, s, w);
        let (narrow_start, width) = lemma_narrowest_frame(bytes, min_len, s, w);
        let start = lemma_earliest_frame(bytes, narrow_start, width);
        assert(is_first_frame(bytes, min_len, start, width));
        lemma_first_frame_is(bytes, min_len, start, width);
    } else {
        lemma_first_frame_none(bytes, min_len);
    }
}

/// A payload followed by its checksum is found behind leading noise, and
/// with bytes following it, as long as no other window that is a frame is
/// visited before it: the search then gives exactly the payload, and what
/// lies behind its CRC is what followed it.
pub proof fn lemma_frame_behind_noise(
    noise: Seq<u8>,
    payload: Seq<u8>,
    rest: Seq<u8>,
    min_len: nat,
)
    requires
        payload.len() >= 3,
        payload.len() >= min_len,
        ({
            let bytes = noise + payload + crc_trailer(payload) + rest;
            let width = payload.len() as int + 2;
            &&& forall|s: int, w: int| min_len + 2 <= w < width ==> !frame_at(bytes, s, w)
            &&& forall|s: int| #[trigger]
                frame_at(bytes, s, width) ==> visit_rank(
                    bytes.len() as int,
                    width,
                    noise.len() as int,
                ) <= visit_rank(bytes.len() as int, width, s)
        }),
    ensures
        ({
            let bytes = noise + payload + crc_trailer(payload) + rest;
            let start = noise.len() as int;
            let end = start + payload.len();
            &&& first_frame(bytes, min_len) == Some((start, end))
            &&& bytes.subrange(start, end) == payload
            &&& bytes.skip(end + 2) == rest
        }),
{
    let bytes = noise + payload + crc_trailer(payload) + rest;
    let start = noise.len() as int;
    let end = start + payload.len();
    let window = bytes.subrange(start, end + 2);
    assert(window == payload + crc_trailer(payload));
    lemma_payload_with_trailer_is_frame(payload);
    assert(frame_at(bytes, start, window.len() as int));
    lemma_first_frame_is(bytes, min_len, start, window.len() as int);
    assert(bytes.subrange(start, end) == payload);
    assert(bytes.skip(end + 2) == rest);
}

} // verus!
