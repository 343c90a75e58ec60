//! CRC-16/MODBUS, and what makes a run of bytes a frame.
use vstd::prelude::*;

use crate::buffer::ModbusBuffer;

verus! {

/// The reflected generator polynomial of CRC-16/MODBUS.
pub const CRC_POLYNOMIAL: u16 = 0xA001;

/// The value the CRC register starts from.
pub const CRC_SEED: u16 = 0xFFFF;

/// One shift of the CRC register: the low bit leaves, and if it was set the
/// polynomial is folded in.
pub open spec fn crc_shift(register: u16) -> u16 {
    if register & 0x0001 != 0 {
        (register >> 1) ^ CRC_POLYNOMIAL
    } else {
        register >> 1
    }
}

/// `count` shifts of the CRC register.
pub open spec fn crc_shifts(register: u16, count: nat) -> u16
    decreases count,
{
    if count == 0 {
        register
    } else {
        crc_shift(crc_shifts(register, (count - 1) as nat))
    }
}

/// The register after one more byte: the byte is folded into the low half,
/// then the register is shifted once per bit.
pub open spec fn crc_absorb(register: u16, byte: u8) -> u16 {
    crc_shifts(register ^ (byte as u16), 8)
}

/// The CRC register after all of `data` went through it.
pub open spec fn crc_register(data: Seq<u8>) -> u16
    decreases data.len(),
{
    if data.len() == 0 {
        CRC_SEED
    } else {
        crc_absorb(crc_register(data.drop_last()), data.last())
    }
}

/// The checksum of `data`: the final register with its two bytes swapped, so
/// that its high byte is the one that goes on the wire first.
pub open spec fn modbus_crc16(data: Seq<u8>) -> u16 {
    let register = crc_register(data);
    (register << 8) | (register >> 8)
}

/// The high byte of a checksum.
pub open spec fn crc_high(crc: u16) -> u8 {
    ((crc & 0xff00) >> 8) as u8
}

/// The low byte of a checksum.
pub open spec fn crc_low(crc: u16) -> u8 {
    (crc & 0x00ff) as u8
}

/// The two bytes that close a frame whose payload is `payload`: its
/// checksum, high byte first.
pub open spec fn crc_trailer(payload: Seq<u8>) -> Seq<u8> {
    seq![crc_high(modbus_crc16(payload)), crc_low(modbus_crc16(payload))]
}

/// A frame is a payload of at least three bytes followed by its trailer.
pub open spec fn is_frame(candidate: Seq<u8>) -> bool {
    &&& candidate.len() > 4
    &&& candidate.skip(candidate.len() - 2) == crc_trailer(candidate.take(candidate.len() - 2))
}

/// On the wire the low byte of the CRC register goes first: it is the high
/// byte of the checksum, and the register's high byte is the low one.
pub proof fn lemma_trailer_is_register_low_byte_first(data: Seq<u8>)
    ensures
        crc_high(modbus_crc16(data)) == (crc_register(data) & 0x00ff) as u8,
        crc_low(modbus_crc16(data)) == (crc_register(data) >> 8) as u8,
{
    let register = crc_register(data);
    assert(((((register << 8) | (register >> 8)) & 0xff00) >> 8) as u8 == (register & 0x00ff) as u8
        && (((register << 8) | (register >> 8)) & 0x00ff) as u8 == (register >> 8) as u8)
        by (bit_vector);
}

/// Two bytes behind a payload make a frame exactly when the payload has at
/// least three bytes and the two bytes are its trailer.
pub proof fn lemma_only_its_trailer_closes_a_frame(payload: Seq<u8>, trailer: Seq<u8>)
    requires
        trailer.len() == 2,
    ensures
        is_frame(payload + trailer) <==> payload.len() >= 3 && trailer == crc_trailer(payload),
{
    let candidate = payload + trailer;
    assert(candidate.take(candidate.len() - 2) == payload);
    assert(candidate.skip(candidate.len() - 2) == trailer);
}

/// Round trip: a payload of at least three bytes followed by its checksum,
/// high byte first, is a frame.
pub proof fn lemma_payload_with_trailer_is_frame(payload: Seq<u8>)
    requires
        payload.len() >= 3,
    ensures
        is_frame(payload + crc_trailer(payload)),
{
    lemma_only_its_trailer_closes_a_frame(payload, crc_trailer(payload));
}

impl<const CAPACITY: usize> ModbusBuffer<CAPACITY> {
    /// Computes the CRC-16/MODBUS checksum of `data`.
    pub fn crc16(data: &[u8]) -> (crc: u16)
        ensures
            crc == modbus_crc16(data@),
    {
        let mut crc: u16 = CRC_SEED;
        for i in 0..data.len()
            invariant
                crc == crc_register(data@.take(i as int)),
        {
            let ghost before = crc;
            crc ^= data[i] as u16;
            for bit in 0..8u32
                invariant
                    crc == crc_shifts(before ^ (data@[i as int] as u16), bit as nat),
            {
                if (crc & 0x0001) != 0 {
                    crc >>= 1;
                    crc ^= CRC_POLYNOMIAL;
                } else {
                    crc >>= 1;
                }
            }
            proof {
                let next = data@.take(i + 1);
                assert(next.drop_last() == data@.take(i as int));
                assert(next.last() == data@[i as int]);
            }
        }
        assert(data@.take(data@.len() as int) == data@);
        crc << 8 | crc >> 8
    }

    /// Tells whether `frame` is a payload of at least three bytes followed
    /// by the checksum of that payload, high byte first.
    pub fn check_crc(frame: &[u8]) -> (valid: bool)
        ensures
            valid == is_frame(frame@),
    {
        let len: usize = frame.len();
        if len > 4 {
            let crc: u16 = Self::crc16(&frame[0..len - 2]);
            assert((crc & 0xff00) >> 8 <= 0xff && crc & 0x00ff <= 0xff) by (bit_vector);
            let high: u8 = ((crc & 0xff00) >> 8) as u8;
            let low: u8 = (crc & 0x00ff) as u8;
            proof {
                let trailer = frame@.skip(len - 2);
                let expected = crc_trailer(frame@.take(len - 2));
                assert(frame@.subrange(0, len - 2) == frame@.take(len - 2));
                assert(trailer.len() == 2 && trailer[0] == frame@[len - 2] && trailer[1] == frame@[len - 1]);
                assert(expected.len() == 2 && expected[0] == high && expected[1] == low);
                assert((high == trailer[0] && low == trailer[1]) <==> trailer =~= expected);
            }
            high == frame[len - 2] && low == frame[len - 1]
        } else {
            false
        }
    }
}

} // verus!
