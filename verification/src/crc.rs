//! CRC-16-CCITT (polynomial 0x1021, initial value 0xFFFF, no reflection,
//! no final XOR), as used by the frame formats with a CRC check field.

use vstd::prelude::*;

verus! {

/// One shift of the CRC register: shift left, and XOR in the polynomial when
/// the bit shifted out was set.
pub open spec fn crc_shift(crc: u16) -> u16 {
    if crc & 0x8000 != 0 {
        ((crc << 1u16) ^ 0x1021u16) as u16
    } else {
        (crc << 1u16) as u16
    }
}

/// `k` shifts of the CRC register.
pub open spec fn crc_shifts(crc: u16, k: nat) -> u16
    decreases k,
{
    if k == 0 {
        crc
    } else {
        crc_shift(crc_shifts(crc, (k - 1) as nat))
    }
}

/// The register after taking in one more byte.
pub open spec fn crc_byte(crc: u16, b: u8) -> u16 {
    crc_shifts(crc ^ ((b as u16) << 8u16), 8)
}

/// CRC-16-CCITT of `data`, taken in from first byte to last.
pub open spec fn crc16_spec(data: Seq<u8>) -> u16
    decreases data.len(),
{
    if data.len() == 0 {
        0xFFFF
    } else {
        crc_byte(crc16_spec(data.drop_last()), data.last())
    }
}

/// Computes CRC-16-CCITT of `data`.
pub fn crc16_ccitt(data: &[u8]) -> (crc: u16)
    ensures
        crc == crc16_spec(data@),
{
    let mut crc: u16 = 0xFFFF;
    let mut i: usize = 0;
    while i < data.len()
        invariant
            i <= data.len(),
            crc == crc16_spec(data@.take(i as int)),
        decreases data.len() - i,
    {
        let b = data[i];
        let start: u16 = crc ^ ((b as u16) << 8u16);
        crc = start;
        let mut k: usize = 0;
        while k < 8
            invariant
                k <= 8,
                crc == crc_shifts(start, k as nat),
            decreases 8 - k,
        {
            if (crc & 0x8000) != 0 {
                crc = (crc << 1u16) ^ 0x1021;
            } else {
                crc = crc << 1u16;
            }
            k = k + 1;
        }
        proof {
            assert(data@.take(i + 1).drop_last() =~= data@.take(i as int));
        }
        i = i + 1;
    }
    proof {
        assert(data@.take(data@.len() as int) =~= data@);
    }
    crc
}

} // verus!
