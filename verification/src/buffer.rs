//! The ring buffer itself: storage, configuration, and the operations on it.
use vstd::arithmetic::div_mod::{lemma_mod_self_0, lemma_small_mod};
use vstd::pervasive::unreached;
use vstd::prelude::*;

use crate::ring::{popped, pushed};
use crate::search::{
    first_frame, frame_at, has_frame, is_first_frame, lemma_first_frame_exists,
    lemma_first_frame_is, lemma_first_frame_none, lemma_first_frame_some,
    lemma_too_short_for_a_frame,
};

verus! {

/// Ring storage for received bytes, with the framing configuration.
#[derive(Debug)]
pub struct ModbusBuffer<const CAPACITY: usize> {
    ring_buffer: [u8; CAPACITY],
    /// Slot of the oldest byte.
    head: usize,
    /// Slot that the next byte is written to.
    tail: usize,
    size: usize,
    /// Shortest payload (CRC not counted) that is looked for.
    min_frame_len: usize,
    /// Longest payload (CRC not counted) that the buffer was configured for.
    max_frame_len: usize,
    /// Whether a push into a full buffer drops the oldest byte.
    overwrite: bool,
}

/// The slot that lies `offset` places after `head` in a ring of `capacity` slots.
pub open spec fn ring_slot(head: int, offset: int, capacity: int) -> int {
    if head + offset < capacity {
        head + offset
    } else {
        head + offset - capacity
    }
}

impl<const CAPACITY: usize> View for ModbusBuffer<CAPACITY> {
    type V = Seq<u8>;

    /// The buffered bytes, oldest first.
    closed spec fn view(&self) -> Seq<u8> {
        Seq::new(
            self.size as nat,
            |i: int| self.ring_buffer@[ring_slot(self.head as int, i, CAPACITY as int)],
        )
    }
}

impl<const CAPACITY: usize> ModbusBuffer<CAPACITY> {
    /// The representation invariant: positions lie inside the ring and
    /// `tail` is where `head` and `size` put it.
    pub closed spec fn wf(&self) -> bool {
        &&& CAPACITY > 4
        &&& self.head < CAPACITY
        &&& self.size <= CAPACITY
        &&& self.tail as int == ring_slot(self.head as int, self.size as int, CAPACITY as int)
    }

    /// The shortest payload length that the frame search accepts.
    pub closed spec fn min_len(&self) -> nat {
        self.min_frame_len as nat
    }

    /// The configured upper bound on the payload length.
    pub closed spec fn max_len(&self) -> nat {
        self.max_frame_len as nat
    }

    /// Whether a push into a full buffer replaces the oldest byte.
    pub closed spec fn overwrites(&self) -> bool {
        self.overwrite
    }

    /// Whether two buffers are configured alike.
    pub open spec fn same_settings(&self, other: &Self) -> bool {
        &&& self.min_len() == other.min_len()
        &&& self.max_len() == other.max_len()
        &&& self.overwrites() == other.overwrites()
    }

    /// An empty buffer with the default configuration: payloads of three
    /// bytes and more, and overwriting on overflow. The capacity must exceed
    /// four bytes: the shortest frame has five.
    pub fn new() -> (buffer: Self)
        requires
            CAPACITY > 4,
        ensures
            buffer.wf(),
            buffer@ == Seq::<u8>::empty(),
            buffer.min_len() == 3,
            buffer.max_len() == CAPACITY,
            buffer.overwrites(),
    {
        if CAPACITY <= 4 {
            // only a caller that was not verified gets here
            unreached::<()>();
        }
        ModbusBuffer {
            ring_buffer: [0u8; CAPACITY],
            head: 0,
            tail: 0,
            size: 0,
            min_frame_len: 3,
            max_frame_len: CAPACITY,
            overwrite: true,
        }
    }

    /// Sets the shortest payload length, CRC not counted, that the frame
    /// search accepts.
    pub fn min_frame_len(self, min_frame_len: usize) -> (buffer: Self)
        requires
            self.wf(),
        ensures
            buffer.wf(),
            buffer@ == self@,
            buffer.min_len() == min_frame_len,
            buffer.max_len() == self.max_len(),
            buffer.overwrites() == self.overwrites(),
    {
        let mut buffer = self;
        buffer.min_frame_len = min_frame_len;
        buffer
    }

    /// Sets the longest payload length, CRC not counted, that the buffer is
    /// configured for. The frame search does not consult it.
    pub fn max_frame_len(self, max_frame_len: usize) -> (buffer: Self)
        requires
            self.wf(),
        ensures
            buffer.wf(),
            buffer@ == self@,
            buffer.min_len() == self.min_len(),
            buffer.max_len() == max_frame_len,
            buffer.overwrites() == self.overwrites(),
    {
        let mut buffer = self;
        buffer.max_frame_len = max_frame_len;
        buffer
    }

    /// Chooses what a push into a full buffer does: drop the oldest byte
    /// (`true`), or be an error of the caller (`false`).
    pub fn overwrite(self, overwrite: bool) -> (buffer: Self)
        requires
            self.wf(),
        ensures
            buffer.wf(),
            buffer@ == self@,
            buffer.min_len() == self.min_len(),
            buffer.max_len() == self.max_len(),
            buffer.overwrites() == overwrite,
    {
        let mut buffer = self;
        buffer.overwrite = overwrite;
        buffer
    }

    /// Appends `item`. A full buffer drops its oldest byte to make room; a
    /// buffer that does not overwrite must not be full.
    pub fn push(&mut self, item: u8)
        requires
            old(self).wf(),
            old(self).overwrites() || old(self)@.len() < CAPACITY,
        ensures
            final(self).wf(),
            final(self).same_settings(old(self)),
            final(self)@ == pushed(old(self)@, CAPACITY as nat, item),
    {
        proof {
            lemma_next_slot(self.head, CAPACITY);
            lemma_next_slot(self.tail, CAPACITY);
        }
        if self.size == CAPACITY {
            if self.overwrite {
                self.ring_buffer[self.head] = item;
                self.head = (self.head + 1) % CAPACITY;
                self.tail = (self.tail + 1) % CAPACITY;
            } else {
                // only a caller that was not verified gets here
                unreached::<()>();
            }
        } else {
            self.ring_buffer[self.tail] = item;
            self.tail = (self.tail + 1) % CAPACITY;
            self.size += 1;
        }
        assert(self@ =~= pushed(old(self)@, CAPACITY as nat, item));
    }

    /// Removes the oldest byte and returns it, or returns `None` and leaves
    /// the buffer alone if it is empty.
    pub fn pop(&mut self) -> (item: Option<u8>)
        requires
            old(self).wf(),
        ensures
            final(self).wf(),
            final(self).same_settings(old(self)),
            item == popped(old(self)@).0,
            final(self)@ == popped(old(self)@).1,
    {
        if self.size == 0 {
            None
        } else {
            proof {
                lemma_next_slot(self.head, CAPACITY);
            }
            let item: u8 = self.ring_buffer[self.head];
            self.head = (self.head + 1) % CAPACITY;
            self.size -= 1;
            assert(self@ =~= old(self)@.skip(1));
            Some(item)
        }
    }

    /// The number of buffered bytes.
    pub fn len(&self) -> (n: usize)
        requires
            self.wf(),
        ensures
            n == self@.len(),
    {
        self.size
    }

    /// Whether no byte is buffered.
    pub fn is_empty(&self) -> (empty: bool)
        requires
            self.wf(),
        ensures
            empty == (self@.len() == 0),
    {
        self.size == 0
    }

    /// Whether every slot is taken.
    pub fn is_full(&self) -> (full: bool)
        requires
            self.wf(),
        ensures
            full == (self@.len() == CAPACITY),
    {
        self.size == CAPACITY
    }

    /// Copies the buffered bytes, oldest first, to the front of
    /// `output_buffer` and returns how many there are. The rest of
    /// `output_buffer` and the buffer itself stay as they are.
    pub fn frame(&self, output_buffer: &mut [u8; CAPACITY]) -> (count: Option<usize>)
        requires
            self.wf(),
        ensures
            count == Some(self@.len() as usize),
            final(output_buffer)@ == self@ + old(output_buffer)@.skip(self@.len() as int),
    {
        let ghost before = output_buffer@;
        let mut index: usize = 0;
        assert(output_buffer@ =~= self@.take(0) + before.skip(0));
        if self.size > 0 {
            if self.head < self.tail {
                // one run, from head up to tail
                for slot in self.head..self.tail
                    invariant
                        self.wf(),
                        before.len() == CAPACITY,
                        self.head < self.tail,
                        index == slot - self.head,
                        output_buffer@ == self@.take(index as int) + before.skip(index as int),
                {
                    output_buffer[index] = self.ring_buffer[slot];
                    index += 1;
                    assert(output_buffer@ =~= self@.take(index as int) + before.skip(index as int));
                }
            } else {
                // two runs: from head to the end of the ring, then from its start to tail
                for slot in self.head..CAPACITY
                    invariant
                        self.wf(),
                        before.len() == CAPACITY,
                        self.head >= self.tail,
                        self.size > 0,
                        index == slot - self.head,
                        output_buffer@ == self@.take(index as int) + before.skip(index as int),
                {
                    output_buffer[index] = self.ring_buffer[slot];
                    index += 1;
                    assert(output_buffer@ =~= self@.take(index as int) + before.skip(index as int));
                }
                for slot in 0..self.tail
                    invariant
                        self.wf(),
                        before.len() == CAPACITY,
                        self.head >= self.tail,
                        self.size > 0,
                        index == CAPACITY - self.head + slot,
                        output_buffer@ == self@.take(index as int) + before.skip(index as int),
                {
                    output_buffer[index] = self.ring_buffer[slot];
                    index += 1;
                    assert(output_buffer@ =~= self@.take(index as int) + before.skip(index as int));
                }
            }
        }
        assert(self@.take(self@.len() as int) == self@);
        Some(self.size)
    }

    /// Searches `buffer` for a frame whose payload has at least the
    /// configured minimal length. Windows are tried from the narrowest up,
    /// and within one width from both ends inwards, the left end first.
    /// Returns the index of the payload's first byte and the index just past
    /// its last byte, for the first window that is a frame.
    pub fn try_decode_buffer(&self, buffer: &[u8]) -> (found: Option<(usize, usize)>)
        ensures
            found is Some <==> has_frame(buffer@, self.min_len()),
            match found {
                Some((start, end)) => first_frame(buffer@, self.min_len()) == Some(
                    (start as int, end as int),
                ),
                None => first_frame(buffer@, self.min_len()) is None,
            },
    {
        proof {
            lemma_first_frame_exists(buffer@, self.min_len());
        }
        let len: usize = buffer.len();
        if len < 2 || len - 2 < self.min_frame_len {
            proof {
                lemma_too_short_for_a_frame(buffer@, self.min_len());
            }
            return None;
        }
        let mut window_size: usize = self.min_frame_len + 2;

        while window_size <= len
            invariant
                len == buffer@.len(),
                self.min_frame_len + 2 <= window_size <= len + 1,
                forall|s: int, w: int|
                    self.min_frame_len + 2 <= w < window_size ==> !frame_at(buffer@, s, w),
            decreases len + 1 - window_size,
        {
            for i in 0..len - window_size + 1
                invariant
                    len == buffer@.len(),
                    self.min_frame_len + 2 <= window_size <= len,
                    i > 0 ==> window_size < len,
                    forall|s: int, w: int|
                        self.min_frame_len + 2 <= w < window_size ==> !frame_at(buffer@, s, w),
                    forall|s: int| #[trigger]
                        frame_at(buffer@, s, window_size as int) ==> i <= s && i <= len
                            - window_size - s,
            {
                // from the left end
                if Self::check_crc(&buffer[i..i + window_size]) {
                    proof {
                        assert(frame_at(buffer@, i as int, window_size as int));
                        assert(is_first_frame(
                            buffer@,
                            self.min_len(),
                            i as int,
                            window_size as int,
                        ));
                        lemma_first_frame_is(buffer@, self.min_len(), i as int, window_size as int);
                    }
                    return Some((i, i + window_size - 2));
                }
                if len == window_size {
                    proof {
                        assert forall|s: int, w: int| self.min_len() + 2 <= w implies !frame_at(
                            buffer@,
                            s,
                            w,
                        ) by {
                            if w == window_size && frame_at(buffer@, s, w) {
                                assert(s == 0);
                            }
                        }
                        lemma_first_frame_none(buffer@, self.min_len());
                    }
                    return None;
                }
                // from the right end
                let j: usize = len - i - window_size;
                if Self::check_crc(&buffer[j..j + window_size]) {
                    proof {
                        assert(frame_at(buffer@, j as int, window_size as int));
                        assert(is_first_frame(
                            buffer@,
                            self.min_len(),
                            j as int,
                            window_size as int,
                        ));
                        lemma_first_frame_is(buffer@, self.min_len(), j as int, window_size as int);
                    }
                    return Some((j, j + window_size - 2));
                }
            }
            window_size += 1;
        }
        proof {
            lemma_first_frame_none(buffer@, self.min_len());
        }
        None
    }

    /// Looks for a frame among the buffered bytes. If there is one, its
    /// payload is copied to the front of `buffer`, the frame and everything
    /// before it leave the ring, and the payload's length is returned; the
    /// bytes behind the frame stay. If there is none, nothing changes.
    pub fn try_decode_frame(&mut self, buffer: &mut [u8; CAPACITY]) -> (length: Option<usize>)
        requires
            old(self).wf(),
        ensures
            final(self).wf(),
            final(self).same_settings(old(self)),
            length is Some <==> has_frame(old(self)@, old(self).min_len()),
            match first_frame(old(self)@, old(self).min_len()) {
                Some((start, end)) => {
                    &&& length == Some((end - start) as usize)
                    &&& final(self)@ == old(self)@.skip(end + 2)
                    &&& final(buffer)@ == old(self)@.subrange(start, end) + old(buffer)@.skip(
                        end - start,
                    )
                },
                None => {
                    &&& length is None
                    &&& final(self)@ == old(self)@
                    &&& final(buffer)@ == old(buffer)@
                },
            },
    {
        proof {
            lemma_first_frame_exists(self@, self.min_len());
        }
        if self.size == 0 || self.size < self.min_frame_len {
            proof {
                lemma_too_short_for_a_frame(self@, self.min_len());
            }
            return None;
        }
        let ghost bytes = self@;
        let ghost before = buffer@;
        let mut frame: [u8; CAPACITY] = [0u8; CAPACITY];
        // copy data into `frame`
        let len: usize = self.frame(&mut frame).unwrap();
        assert(frame@.subrange(0, len as int) == bytes);

        if let Some((head, tail)) = self.try_decode_buffer(&frame[0..len]) {
            proof {
                lemma_first_frame_some(bytes, self.min_len());
            }
            // remove the frame and what lies before it
            let len_to_remove: usize = tail + 2;
            for removed in 0..len_to_remove
                invariant
                    self.wf(),
                    self.same_settings(old(self)),
                    len_to_remove <= bytes.len(),
                    self@ == bytes.skip(removed as int),
            {
                self.pop();
                assert(bytes.skip(removed as int).skip(1) == bytes.skip(removed + 1));
            }

            let frame_length: usize = tail - head;

            // copy the payload
            for k in 0..frame_length
                invariant
                    head + frame_length == tail,
                    tail <= len <= CAPACITY,
                    before.len() == CAPACITY,
                    frame@.subrange(0, len as int) == bytes,
                    buffer@ == bytes.subrange(head as int, head + k) + before.skip(k as int),
            {
                assert(frame@.subrange(0, len as int)[head + k] == frame@[head + k]);
                buffer[k] = frame[head + k];
                assert(buffer@ =~= bytes.subrange(head as int, head + k + 1) + before.skip(k + 1));
            }

            Some(frame_length)
        } else {
            None
        }
    }
}

/// Stepping to the next slot with `%` lands on the slot one place on.
proof fn lemma_next_slot(position: usize, capacity: usize)
    requires
        position < capacity,
    ensures
        (position + 1) % (capacity as int) == ring_slot(position as int, 1, capacity as int),
{
    if position + 1 < capacity {
        lemma_small_mod((position + 1) as nat, capacity as nat);
    } else {
        lemma_mod_self_0(capacity as int);
    }
}

} // verus!
