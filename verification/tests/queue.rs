use modbus_buffer::ModbusBuffer;

#[test]
fn new_buffer_is_empty() {
    let buff = ModbusBuffer::<5>::new();
    assert_eq!(buff.len(), 0);
    assert!(buff.is_empty());
    assert!(!buff.is_full());
}

#[test]
fn pops_in_push_order() {
    let mut buff = ModbusBuffer::<16>::new();
    let bytes: [u8; 16] = [9, 8, 7, 6, 5, 4, 3, 2, 1, 0, 250, 251, 252, 253, 254, 255];
    for (count, byte) in bytes.iter().enumerate() {
        assert_eq!(buff.len(), count);
        buff.push(*byte);
    }
    assert_eq!(buff.len(), 16);
    assert!(buff.is_full());
    for (count, byte) in bytes.iter().enumerate() {
        assert_eq!(buff.len(), 16 - count);
        assert_eq!(buff.pop(), Some(*byte));
    }
    assert!(buff.is_empty());
    assert_eq!(buff.pop(), None);
}

#[test]
fn pop_on_empty_changes_nothing() {
    let mut buff = ModbusBuffer::<6>::new();
    assert_eq!(buff.pop(), None);
    assert_eq!(buff.len(), 0);
    buff.push(0x42);
    assert_eq!(buff.len(), 1);
    assert_eq!(buff.pop(), Some(0x42));
    assert_eq!(buff.pop(), None);
    assert_eq!(buff.len(), 0);
}

#[test]
fn overflow_drops_the_oldest_bytes() {
    let mut buff = ModbusBuffer::<5>::new();
    for byte in 0..12u8 {
        buff.push(byte);
        assert_eq!(buff.len(), usize::from(byte + 1).min(5));
    }
    assert!(buff.is_full());
    for byte in 7..12u8 {
        assert_eq!(buff.pop(), Some(byte));
    }
    assert_eq!(buff.pop(), None);
}

#[test]
fn interleaved_pushes_and_pops_wrap_around() {
    let mut buff = ModbusBuffer::<5>::new();
    let mut next_in: u8 = 0;
    let mut next_out: u8 = 0;
    for _ in 0..20 {
        for _ in 0..3 {
            buff.push(next_in);
            next_in += 1;
        }
        for _ in 0..3 {
            assert_eq!(buff.pop(), Some(next_out));
            next_out += 1;
        }
        assert!(buff.is_empty());
    }
}

#[test]
fn without_overwrite_a_buffer_fills_up() {
    let mut buff = ModbusBuffer::<5>::new().overwrite(false);
    for byte in 0..5u8 {
        assert!(!buff.is_full());
        buff.push(byte);
    }
    assert!(buff.is_full());
    assert_eq!(buff.len(), 5);
    assert_eq!(buff.pop(), Some(0));
    assert!(!buff.is_full());
    buff.push(5);
    for byte in 1..6u8 {
        assert_eq!(buff.pop(), Some(byte));
    }
}

#[test]
fn frame_copies_across_the_wrap() {
    let mut buff = ModbusBuffer::<6>::new();
    for byte in 1..=6u8 {
        buff.push(byte);
    }
    assert_eq!(buff.pop(), Some(1));
    assert_eq!(buff.pop(), Some(2));
    assert_eq!(buff.pop(), Some(3));
    buff.push(7);
    buff.push(8);
    // the ring now holds 4 5 6 7 8, with 7 and 8 in its first two slots
    let mut output = [0xEEu8; 6];
    assert_eq!(buff.frame(&mut output), Some(5));
    assert_eq!(output, [4, 5, 6, 7, 8, 0xEE]);
    // the ring itself is untouched
    assert_eq!(buff.len(), 5);
    assert_eq!(buff.pop(), Some(4));
}

#[test]
fn frame_of_an_empty_buffer_copies_nothing() {
    let buff = ModbusBuffer::<5>::new();
    let mut output = [7u8; 5];
    assert_eq!(buff.frame(&mut output), Some(0));
    assert_eq!(output, [7u8; 5]);
}

#[test]
fn frame_of_a_drained_buffer_copies_nothing() {
    let mut buff = ModbusBuffer::<5>::new();
    buff.push(1);
    buff.push(2);
    assert_eq!(buff.pop(), Some(1));
    assert_eq!(buff.pop(), Some(2));
    let mut output = [7u8; 5];
    assert_eq!(buff.frame(&mut output), Some(0));
    assert_eq!(output, [7u8; 5]);
}

#[test]
fn frame_of_a_full_buffer() {
    let mut buff = ModbusBuffer::<5>::new();
    for byte in 0..7u8 {
        buff.push(byte);
    }
    let mut output = [0u8; 5];
    assert_eq!(buff.frame(&mut output), Some(5));
    assert_eq!(output, [2, 3, 4, 5, 6]);
}
