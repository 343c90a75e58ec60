//! The buffer seen as a bounded queue of bytes: what a push and a pop do to
//! the sequence of buffered bytes, and the laws that follow.
use vstd::prelude::*;

verus! {

/// The contents after `byte` is pushed into a buffer of `capacity` slots that
/// holds `contents`: the byte joins at the end, and in a full buffer the
/// oldest byte leaves to make room.
pub open spec fn pushed(contents: Seq<u8>, capacity: nat, byte: u8) -> Seq<u8> {
    if contents.len() < capacity {
        contents.push(byte)
    } else {
        contents.skip(1).push(byte)
    }
}

/// The contents after each byte of `bytes` is pushed in turn.
pub open spec fn pushed_all(contents: Seq<u8>, capacity: nat, bytes: Seq<u8>) -> Seq<u8>
    decreases bytes.len(),
{
    if bytes.len() == 0 {
        contents
    } else {
        pushed(pushed_all(contents, capacity, bytes.drop_last()), capacity, bytes.last())
    }
}

/// What a pop hands out, and the contents it leaves: the oldest byte leaves
/// the buffer, and an empty buffer gives nothing and stays as it is.
pub open spec fn popped(contents: Seq<u8>) -> (Option<u8>, Seq<u8>) {
    if contents.len() == 0 {
        (None, contents)
    } else {
        (Some(contents[0]), contents.skip(1))
    }
}

/// The contents after `count` pops.
pub open spec fn drained(contents: Seq<u8>, count: nat) -> Seq<u8>
    decreases count,
{
    if count == 0 {
        contents
    } else {
        popped(drained(contents, (count - 1) as nat)).1
    }
}

/// The newest `capacity` bytes of `bytes`, or all of them if there are fewer.
pub open spec fn newest(bytes: Seq<u8>, capacity: nat) -> Seq<u8> {
    if bytes.len() <= capacity {
        bytes
    } else {
        bytes.skip(bytes.len() - capacity)
    }
}

/// Pushing never lets the contents outgrow the capacity.
pub proof fn lemma_pushed_all_len(contents: Seq<u8>, capacity: nat, bytes: Seq<u8>)
    requires
        capacity > 0,
        contents.len() <= capacity,
    ensures
        pushed_all(contents, capacity, bytes).len() <= capacity,
    decreases bytes.len(),
{
    if bytes.len() > 0 {
        lemma_pushed_all_len(contents, capacity, bytes.drop_last());
    }
}

/// A run of pushes keeps the newest bytes: the buffer then holds the newest
/// `capacity` bytes of what it held before followed by what was pushed, so
/// each push beyond the capacity drops exactly the oldest byte.
pub proof fn lemma_pushed_all_keeps_newest(contents: Seq<u8>, capacity: nat, bytes: Seq<u8>)
    requires
        capacity > 0,
        contents.len() <= capacity,
    ensures
        pushed_all(contents, capacity, bytes) == newest(contents + bytes, capacity),
    decreases bytes.len(),
{
    if bytes.len() == 0 {
        assert(contents + bytes == contents);
    } else {
        let earlier = bytes.drop_last();
        lemma_pushed_all_keeps_newest(contents, capacity, earlier);
        let held = newest(contents + earlier, capacity);
        assert((contents + earlier).push(bytes.last()) == contents + bytes);
        assert(pushed(held, capacity, bytes.last()) == newest(contents + bytes, capacity));
    }
}

/// While the pushed bytes fit, none is lost: an empty buffer that received
/// `bytes` holds exactly `bytes`.
pub proof fn lemma_pushed_all_within_capacity(capacity: nat, bytes: Seq<u8>)
    requires
        capacity > 4,
        bytes.len() <= capacity,
    ensures
        pushed_all(Seq::empty(), capacity, bytes) == bytes,
        pushed_all(Seq::empty(), capacity, bytes).len() == bytes.len(),
{
    lemma_pushed_all_keeps_newest(Seq::empty(), capacity, bytes);
    assert(Seq::<u8>::empty() + bytes == bytes);
}

/// Popping `count` times removes the `count` oldest bytes, or all bytes if
/// there are fewer.
pub proof fn lemma_drained_skips(contents: Seq<u8>, count: nat)
    ensures
        drained(contents, count) == if count <= contents.len() {
            contents.skip(count as int)
        } else {
            Seq::empty()
        },
    decreases count,
{
    if count == 0 {
        assert(contents.skip(0) == contents);
    } else {
        lemma_drained_skips(contents, (count - 1) as nat);
        if count <= contents.len() {
            assert(contents.skip(count - 1).skip(1) == contents.skip(count as int));
        } else if count - 1 == contents.len() {
            assert(contents.skip(count - 1) == Seq::<u8>::empty());
        }
    }
}

/// First in, first out: after `bytes` went into an empty buffer that can
/// hold them, the buffer holds as many bytes as were pushed and the pop that
/// follows `index` earlier pops hands out `bytes[index]`.
pub proof fn lemma_first_in_first_out(capacity: nat, bytes: Seq<u8>, index: nat)
    requires
        capacity > 4,
        bytes.len() <= capacity,
        index < bytes.len(),
    ensures
        pushed_all(Seq::empty(), capacity, bytes).len() == bytes.len(),
        popped(drained(pushed_all(Seq::empty(), capacity, bytes), index)).0 == Some(bytes[index as int]),
{
    lemma_pushed_all_within_capacity(capacity, bytes);
    lemma_drained_skips(bytes, index);
}

/// Overflow with overwriting: once more than `capacity` bytes went into an
/// empty buffer, it is full and holds the last `capacity` of them.
pub proof fn lemma_overflow_keeps_newest(capacity: nat, bytes: Seq<u8>)
    requires
        capacity > 4,
        bytes.len() >= capacity,
    ensures
        pushed_all(Seq::empty(), capacity, bytes).len() == capacity,
        pushed_all(Seq::empty(), capacity, bytes) == bytes.skip(bytes.len() - capacity),
{
    lemma_pushed_all_keeps_newest(Seq::empty(), capacity, bytes);
    assert(Seq::<u8>::empty() + bytes == bytes);
    if bytes.len() == capacity {
        assert(bytes.skip(0) == bytes);
    }
}

} // verus!
