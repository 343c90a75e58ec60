use modbus_buffer::ModbusBuffer;

const REQUEST: [u8; 8] = [0x12, 0x06, 0x22, 0x22, 0xAB, 0xCD, 0x9F, 0xBE];

fn with_crc(payload: &[u8]) -> Vec<u8> {
    let crc = ModbusBuffer::<8>::crc16(payload);
    let mut frame = payload.to_vec();
    frame.push((crc >> 8) as u8);
    frame.push((crc & 0xff) as u8);
    frame
}

#[test]
fn crc16_of_nothing_is_the_seed() {
    assert_eq!(ModbusBuffer::<8>::crc16(&[]), 0xFFFF);
}

#[test]
fn crc16_of_the_check_string() {
    // CRC-16/MODBUS of "123456789" is 0x4B37; the result carries it byte-swapped.
    assert_eq!(ModbusBuffer::<8>::crc16(b"123456789"), 0x374B);
}

#[test]
fn crc16_of_a_write_request() {
    assert_eq!(ModbusBuffer::<8>::crc16(&REQUEST[..6]), 0x9FBE);
}

#[test]
fn crc16_of_a_read_request() {
    // 01 03 00 00 00 0A goes on the wire followed by C5 CD.
    assert_eq!(ModbusBuffer::<8>::crc16(&[0x01, 0x03, 0x00, 0x00, 0x00, 0x0A]), 0xC5CD);
}

#[test]
fn crc16_does_not_depend_on_the_capacity() {
    assert_eq!(
        ModbusBuffer::<5>::crc16(&REQUEST[..6]),
        ModbusBuffer::<64>::crc16(&REQUEST[..6])
    );
}

#[test]
fn check_crc_accepts_a_frame() {
    assert!(ModbusBuffer::<8>::check_crc(&REQUEST));
    assert!(ModbusBuffer::<8>::check_crc(&[0x01, 0x03, 0x00, 0x00, 0x00, 0x0A, 0xC5, 0xCD]));
}

#[test]
fn check_crc_wants_the_high_byte_first() {
    assert!(!ModbusBuffer::<8>::check_crc(&[0x12, 0x06, 0x22, 0x22, 0xAB, 0xCD, 0xBE, 0x9F]));
}

#[test]
fn check_crc_round_trip() {
    let payloads: [&[u8]; 5] = [
        &[0x00, 0x00, 0x00],
        &[0x01, 0x02, 0x03],
        &[0xFF, 0xFF, 0xFF, 0xFF],
        &[0x11, 0x10, 0x00, 0x01, 0x00, 0x02, 0x04, 0x00, 0x0A, 0x01, 0x02],
        b"123456789",
    ];
    for payload in payloads {
        assert!(ModbusBuffer::<8>::check_crc(&with_crc(payload)));
    }
}

#[test]
fn check_crc_detects_a_corrupted_byte() {
    for position in 0..REQUEST.len() {
        for bit in 0..8 {
            let mut corrupted = REQUEST;
            corrupted[position] ^= 1 << bit;
            assert!(!ModbusBuffer::<8>::check_crc(&corrupted));
        }
    }
}

#[test]
fn check_crc_rejects_short_candidates() {
    assert!(!ModbusBuffer::<8>::check_crc(&[]));
    assert!(!ModbusBuffer::<8>::check_crc(&[0xFF, 0xFF]));
    // two payload bytes with their correct checksum: four bytes are too few
    let short = with_crc(&[0x12, 0x06]);
    assert_eq!(short.len(), 4);
    assert!(!ModbusBuffer::<8>::check_crc(&short));
    // three payload bytes are enough
    let shortest = with_crc(&[0x12, 0x06, 0x22]);
    assert_eq!(shortest.len(), 5);
    assert!(ModbusBuffer::<8>::check_crc(&shortest));
}
