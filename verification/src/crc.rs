//! The checksum engine: a 20-bit CRC with the polynomial 0x1C4047, fed bit
//! by bit, the most significant bit of each byte first.

use crate::radix::{le_value, low_bytes, pow256};
use vstd::prelude::*;

verus! {

/// The polynomial without its leading term, which falls out of the register.
pub const CRC_POLY: u32 = 0xc4047;

/// The highest bit of the 20-bit register.
pub const CRC_TOP_BIT: u32 = 0x80000;

/// The 20 bits of the register.
pub const CRC_MASK: u32 = 0xfffff;

/// Symbols that a checksum takes at the end of a line: 4 times 5 bits.
pub const ENCODED_CRC_LEN: usize = 4;

/// The register after one more bit of input: the top bit is compared with
/// the incoming bit, the register moves left by one, and where the two bits
/// differed the polynomial is added. Bits of `reg` above the twentieth play
/// no part.
pub open spec fn crc_shift_bit(reg: u32, bit: bool) -> u32 {
    let feedback = ((reg & CRC_TOP_BIT) != 0) != bit;
    let shifted = (reg << 1) & CRC_MASK;
    if feedback {
        shifted ^ CRC_POLY
    } else {
        shifted
    }
}

/// The register after the eight bits of `byte`, most significant first.
pub open spec fn crc_shift_byte(reg: u32, byte: u8) -> u32 {
    let r7 = crc_shift_bit(reg, byte & 0x80 != 0);
    let r6 = crc_shift_bit(r7, byte & 0x40 != 0);
    let r5 = crc_shift_bit(r6, byte & 0x20 != 0);
    let r4 = crc_shift_bit(r5, byte & 0x10 != 0);
    let r3 = crc_shift_bit(r4, byte & 0x08 != 0);
    let r2 = crc_shift_bit(r3, byte & 0x04 != 0);
    let r1 = crc_shift_bit(r2, byte & 0x02 != 0);
    crc_shift_bit(r1, byte & 0x01 != 0)
}

/// The checksum of a stream that continues with `data`, where `crc` is the
/// checksum of what came before (0 at the start of a stream).
pub open spec fn spec_crc_update(data: Seq<u8>, crc: u32) -> u32
    decreases data.len(),
{
    if data.len() == 0 {
        crc & CRC_MASK
    } else {
        spec_crc_update(data.drop_first(), crc_shift_byte(crc, data[0]))
    }
}

/// A step leaves the register within 20 bits, and sees only the 20 low bits
/// of what it was given.
pub proof fn lemma_crc_shift_byte_masked(reg: u32, byte: u8)
    ensures
        crc_shift_byte(reg, byte) <= 0xfffff,
        crc_shift_byte(reg, byte) & 0xfffff == crc_shift_byte(reg, byte),
        crc_shift_byte(reg & 0xfffff, byte) == crc_shift_byte(reg, byte),
{
    assert(crc_shift_bit(reg & 0xfffff, byte & 0x80 != 0) == crc_shift_bit(reg, byte & 0x80 != 0))
        by (bit_vector);
    let r1 = {
        let r7 = crc_shift_bit(reg, byte & 0x80 != 0);
        let r6 = crc_shift_bit(r7, byte & 0x40 != 0);
        let r5 = crc_shift_bit(r6, byte & 0x20 != 0);
        let r4 = crc_shift_bit(r5, byte & 0x10 != 0);
        let r3 = crc_shift_bit(r4, byte & 0x08 != 0);
        let r2 = crc_shift_bit(r3, byte & 0x04 != 0);
        crc_shift_bit(r2, byte & 0x02 != 0)
    };
    let bit = byte & 0x01 != 0;
    assert(crc_shift_bit(r1, bit) <= 0xfffff && crc_shift_bit(r1, bit) & 0xfffff == crc_shift_bit(
        r1,
        bit,
    )) by (bit_vector);
}

/// A checksum fits in 20 bits.
pub proof fn lemma_crc_update_masked(data: Seq<u8>, crc: u32)
    ensures
        spec_crc_update(data, crc) <= 0xfffff,
        spec_crc_update(data, crc) & 0xfffff == spec_crc_update(data, crc),
        spec_crc_update(data, crc & 0xfffff) == spec_crc_update(data, crc),
    decreases data.len(),
{
    if data.len() == 0 {
        assert((crc & 0xfffff) <= 0xfffff && (crc & 0xfffff) & 0xfffff == crc & 0xfffff)
            by (bit_vector);
    } else {
        lemma_crc_shift_byte_masked(crc, data[0]);
        lemma_crc_update_masked(data.drop_first(), crc_shift_byte(crc, data[0]));
    }
}

/// The checksum does not depend on how the stream is cut into pieces: to
/// feed `first` and then `second` is to feed the two as one.
pub proof fn lemma_crc_update_concat(first: Seq<u8>, second: Seq<u8>, crc: u32)
    ensures
        spec_crc_update(first + second, crc) == spec_crc_update(
            second,
            spec_crc_update(first, crc),
        ),
    decreases first.len(),
{
    if first.len() == 0 {
        assert(first + second =~= second);
        lemma_crc_update_masked(second, crc);
    } else {
        assert((first + second).drop_first() =~= first.drop_first() + second);
        lemma_crc_update_concat(first.drop_first(), second, crc_shift_byte(crc, first[0]));
    }
}

/// Moves one bit into the register.
fn shift_bit(reg: u32, bit: bool) -> (r: u32)
    ensures
        r == crc_shift_bit(reg, bit),
{
    let feedback = ((reg & CRC_TOP_BIT) != 0) != bit;
    let shifted = (reg << 1) & CRC_MASK;
    if feedback {
        shifted ^ CRC_POLY
    } else {
        shifted
    }
}

/// Continues the checksum `crc` with the bytes of `data`.
pub fn crc_update(data: &[u8], crc: u32) -> (r: u32)
    ensures
        r == spec_crc_update(data@, crc),
        r <= 0xfffff,
{
    let mut reg = crc;
    let mut i: usize = 0;
    proof {
        assert(data@.skip(0) =~= data@);
    }
    while i < data.len()
        invariant
            i <= data@.len(),
            spec_crc_update(data@, crc) == spec_crc_update(data@.skip(i as int), reg),
        decreases data.len() - i,
    {
        let c = data[i];
        proof {
            assert(data@.skip(i as int).drop_first() =~= data@.skip(i + 1));
        }
        reg = shift_bit(reg, c & 0x80 != 0);
        reg = shift_bit(reg, c & 0x40 != 0);
        reg = shift_bit(reg, c & 0x20 != 0);
        reg = shift_bit(reg, c & 0x10 != 0);
        reg = shift_bit(reg, c & 0x08 != 0);
        reg = shift_bit(reg, c & 0x04 != 0);
        reg = shift_bit(reg, c & 0x02 != 0);
        reg = shift_bit(reg, c & 0x01 != 0);
        i += 1;
    }
    proof {
        lemma_crc_update_masked(data@, crc);
    }
    reg & CRC_MASK
}

/// The three bytes that carry a checksum, least significant first.
pub fn encode_crc(crc: u32) -> (buf: Vec<u8>)
    ensures
        buf@ == low_bytes(crc as nat, 3),
{
    let mut crc = crc;
    let ghost start = crc;
    let mut buf: Vec<u8> = Vec::with_capacity(3);
    let mut k: usize = 0;
    while k < 3
        invariant
            k <= 3,
            buf@ + low_bytes(crc as nat, (3 - k) as nat) == low_bytes(start as nat, 3),
        decreases 3 - k,
    {
        let byte = (crc & 0xff) as u8;
        proof {
            let v = crc;
            assert(v & 0xff == v % 256) by (bit_vector);
            assert(v >> 8 == v / 256) by (bit_vector);
            assert(buf@.push(byte) + low_bytes((crc / 256) as nat, (3 - k - 1) as nat) =~= buf@
                + low_bytes(crc as nat, (3 - k) as nat));
        }
        buf.push(byte);
        crc = crc >> 8;
        k += 1;
    }
    proof {
        assert(buf@ + low_bytes(crc as nat, 0) =~= buf@);
    }
    buf
}

/// The bytes of `data` that carry a checksum: the first three, or all of
/// them where there are fewer.
pub open spec fn crc_bytes(data: Seq<u8>) -> Seq<u8> {
    if data.len() <= 3 {
        data
    } else {
        data.take(3)
    }
}

/// The checksum that the first three bytes of `data` carry.
pub fn decode_crc(data: &[u8]) -> (crc: u32)
    ensures
        crc == le_value(crc_bytes(data@)),
{
    let n: usize = if data.len() < 3 {
        data.len()
    } else {
        3
    };
    let ghost bytes = crc_bytes(data@);
    let mut crc: u32 = 0;
    let mut i: usize = n;
    proof {
        assert(bytes.skip(n as int) =~= Seq::<u8>::empty());
    }
    while i > 0
        invariant
            i <= n <= 3,
            n == bytes.len(),
            bytes == crc_bytes(data@),
            n <= data@.len(),
            crc == le_value(bytes.skip(i as int)),
            crc < pow256((n - i) as nat),
        decreases i,
    {
        i -= 1;
        let c = data[i];
        proof {
            assert(bytes.skip(i as int).drop_first() =~= bytes.skip(i + 1));
            assert(bytes[i as int] == c);
            reveal_with_fuel(pow256, 4);
            let v = crc;
            assert((v << 8) | (c as u32) == v * 256 + c) by (bit_vector)
                requires
                    v < 0x1_0000u32,
            ;
        }
        crc = (crc << 8) | (c as u32);
    }
    proof {
        assert(bytes.skip(0) =~= bytes);
    }
    crc
}

} // verus!
