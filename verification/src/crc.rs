//! CRC-16/M17: width 16, polynomial 0x5935, initial value 0xFFFF, input not
//! reflected, result not reflected, no final xor. A 54-byte stream frame
//! carries this checksum of its first 52 bytes in its last two bytes.

use vstd::prelude::*;

verus! {

/// One shift step of the CRC register: shift left and, when the top bit was
/// set, fold in the polynomial.
pub open spec fn crc_shift(crc: u16) -> u16 {
    if crc & 0x8000 != 0 {
        (crc << 1) ^ 0x5935
    } else {
        crc << 1
    }
}

/// `n` shift steps applied to `crc`.
pub open spec fn crc_shifts(crc: u16, n: nat) -> u16
    decreases n,
{
    if n == 0 {
        crc
    } else {
        crc_shift(crc_shifts(crc, (n - 1) as nat))
    }
}

/// The register after absorbing one input byte: xor the byte into the high
/// half, then run eight shift steps.
pub open spec fn crc_absorb(crc: u16, b: u8) -> u16 {
    crc_shifts(crc ^ ((b as u16) << 8), 8)
}

/// CRC-16/M17 of a whole byte sequence.
pub open spec fn spec_crc16(data: Seq<u8>) -> u16
    decreases data.len(),
{
    if data.len() == 0 {
        0xFFFF
    } else {
        crc_absorb(spec_crc16(data.drop_last()), data.last())
    }
}

/// CRC-16/M17 checksum of `data`.
pub fn crc16_m17(data: &[u8]) -> (crc: u16)
    ensures
        crc == spec_crc16(data@),
{
    let n = data.len();
    let mut crc: u16 = 0xFFFF;
    let mut i: usize = 0;
    while i < n
        invariant
            n == data@.len(),
            i <= n,
            crc == spec_crc16(data@.subrange(0, i as int)),
        decreases n - i,
    {
        let ghost prefix = data@.subrange(0, i as int);
        let start = crc ^ ((data[i] as u16) << 8);
        let mut step: u16 = start;
        let mut j: usize = 0;
        while j < 8
            invariant
                j <= 8,
                step == crc_shifts(start, j as nat),
            decreases 8 - j,
        {
            if step & 0x8000 != 0 {
                step = (step << 1) ^ 0x5935;
            } else {
                step = step << 1;
            }
            j = j + 1;
        }
        crc = step;
        i = i + 1;
        proof {
            let grown = data@.subrange(0, i as int);
            assert(grown.drop_last() =~= prefix);
            assert(crc == spec_crc16(grown));
        }
    }
    proof {
        assert(data@.subrange(0, n as int) =~= data@);
    }
    crc
}

} // verus!
