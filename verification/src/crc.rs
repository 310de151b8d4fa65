//! CRC-8 with polynomial `x^8 + x^2 + x + 1`, most significant bit first,
//! starting from zero, without reflection and without a final XOR.
use crate::error::FrameError;
use vstd::prelude::*;

verus! {

/// The low eight coefficients of the generator polynomial.
pub const POLY: u8 = 0x07;

/// One step of the shift register: the register moves left by one bit, and
/// the polynomial is added when the bit that left it was set.
pub open spec fn crc8_shift(reg: u8) -> u8 {
    if reg & 0x80 != 0 {
        (reg << 1) ^ POLY
    } else {
        reg << 1
    }
}

/// `steps` steps of the shift register.
pub open spec fn crc8_shifts(reg: u8, steps: nat) -> u8
    decreases steps,
{
    if steps == 0 {
        reg
    } else {
        crc8_shift(crc8_shifts(reg, (steps - 1) as nat))
    }
}

/// The register after it has taken in one byte.
pub open spec fn crc8_byte(reg: u8, byte: u8) -> u8 {
    crc8_shifts(reg ^ byte, 8)
}

/// The checksum of a byte sequence: the register starts at zero and takes in
/// the bytes from first to last.
pub open spec fn crc8(data: Seq<u8>) -> u8
    decreases data.len(),
{
    if data.len() == 0 {
        0
    } else {
        crc8_byte(crc8(data.drop_last()), data.last())
    }
}

/// Computes the CRC-8 of `data`.
pub fn calc_crc8(data: &[u8]) -> (crc: u8)
    ensures
        crc == crc8(data@),
{
    let mut crc: u8 = 0x00;
    let mut i: usize = 0;
    while i < data.len()
        invariant
            i <= data.len(),
            crc == crc8(data@.take(i as int)),
        decreases data.len() - i,
    {
        let ghost before = crc;
        crc = crc ^ data[i];
        let mut k: u8 = 0;
        while k < 8
            invariant
                k <= 8,
                crc == crc8_shifts(before ^ data@[i as int], k as nat),
            decreases 8 - k,
        {
            if (crc & 0x80) >= 1 {
                crc = (crc << 1) ^ POLY;
            } else {
                crc = crc << 1;
            }
            k = k + 1;
        }
        proof {
            assert(data@.take(i + 1).drop_last() == data@.take(i as int));
        }
        i = i + 1;
    }
    proof {
        assert(data@.take(data@.len() as int) == data@);
    }
    crc
}

/// Succeeds exactly when the CRC-8 of `data` is zero, which is the case for
/// a message followed by its own checksum.
pub fn check_crc(data: &[u8]) -> (res: Result<(), FrameError>)
    ensures
        res == (if crc8(data@) == 0 {
            Ok::<(), FrameError>(())
        } else {
            Err::<(), FrameError>(FrameError::ChecksumMismatch)
        }),
{
    if calc_crc8(data) == 0 {
        Ok(())
    } else {
        Err(FrameError::ChecksumMismatch)
    }
}

/// A message followed by its own checksum has checksum zero.
pub proof fn lemma_crc8_self_check(data: Seq<u8>)
    ensures
        crc8(data.push(crc8(data))) == 0,
{
    let sum = crc8(data);
    assert(data.push(sum).drop_last() == data);
    assert(sum ^ sum == 0) by (bit_vector);
    lemma_crc8_shifts_zero(8);
}

/// Changing one byte of a message changes its checksum. So of a message with
/// checksum zero, no single bit flip, and no change within one byte, gives
/// another message with checksum zero.
pub proof fn lemma_crc8_detects_byte_change(data: Seq<u8>, at: int, byte: u8)
    requires
        0 <= at < data.len(),
        byte != data[at],
    ensures
        crc8(data.update(at, byte)) != crc8(data),
    decreases data.len(),
{
    let changed = data.update(at, byte);
    let r0 = crc8(data.drop_last());
    let r1 = crc8(changed.drop_last());
    if at == data.len() - 1 {
        assert(changed.drop_last() == data.drop_last());
        let old_byte = data[at];
        assert(r0 ^ byte != r0 ^ old_byte) by (bit_vector)
            requires
                byte != old_byte,
        ;
    } else {
        assert(changed.drop_last() == data.drop_last().update(at, byte));
        lemma_crc8_detects_byte_change(data.drop_last(), at, byte);
        let last = data.last();
        assert(r1 ^ last != r0 ^ last) by (bit_vector)
            requires
                r1 != r0,
        ;
    }
    lemma_crc8_shifts_injective(r1 ^ changed.last(), r0 ^ data.last(), 8);
}

/// The shift register stays at zero for as long as nothing is fed into it.
proof fn lemma_crc8_shifts_zero(steps: nat)
    ensures
        crc8_shifts(0, steps) == 0,
    decreases steps,
{
    if steps > 0 {
        lemma_crc8_shifts_zero((steps - 1) as nat);
        assert(crc8_shift(0) == 0) by (bit_vector);
    }
}

/// Two registers that differ still differ after any number of steps.
proof fn lemma_crc8_shifts_injective(a: u8, b: u8, steps: nat)
    requires
        a != b,
    ensures
        crc8_shifts(a, steps) != crc8_shifts(b, steps),
    decreases steps,
{
    if steps > 0 {
        lemma_crc8_shifts_injective(a, b, (steps - 1) as nat);
        let x = crc8_shifts(a, (steps - 1) as nat);
        let y = crc8_shifts(b, (steps - 1) as nat);
        assert(crc8_shift(x) != crc8_shift(y)) by (bit_vector)
            requires
                x != y,
        ;
    }
}

} // verus!
