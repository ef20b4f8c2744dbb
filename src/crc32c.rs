use vstd::prelude::*;

verus! {

/// The reflected Castagnoli polynomial.
pub const CRC32C_POLY: u32 = 0x82F6_3B78;

/// One bit step of the reflected CRC register.
pub open spec fn crc_shift(c: u32) -> u32 {
    if c & 1u32 == 1u32 {
        (c >> 1u32) ^ CRC32C_POLY
    } else {
        c >> 1u32
    }
}

/// `n` bit steps of the register.
pub open spec fn crc_shift_n(c: u32, n: nat) -> u32
    decreases n,
{
    if n == 0 {
        c
    } else {
        crc_shift_n(crc_shift(c), (n - 1) as nat)
    }
}

/// The register after taking in one byte.
pub open spec fn crc_byte(c: u32, b: u8) -> u32 {
    crc_shift_n(c ^ (b as u32), 8)
}

/// The register after taking in a byte string.
pub open spec fn crc_fold(c: u32, s: Seq<u8>) -> u32
    decreases s.len(),
{
    if s.len() == 0 {
        c
    } else {
        crc_byte(crc_fold(c, s.drop_last()), s.last())
    }
}

/// CRC-32C of a byte string: initial register all ones, final complement.
pub open spec fn spec_crc32c(s: Seq<u8>) -> u32 {
    crc_fold(0xFFFF_FFFFu32, s) ^ 0xFFFF_FFFFu32
}

/// CRC-32C (Castagnoli) of a byte string.
pub fn crc32c(s: &[u8]) -> (r: u32)
    ensures
        r == spec_crc32c(s@),
{
    let mut c: u32 = 0xFFFF_FFFF;
    let mut i: usize = 0;
    while i < s.len()
        invariant
            i <= s@.len(),
            c == crc_fold(0xFFFF_FFFFu32, s@.take(i as int)),
        decreases s@.len() - i,
    {
        let ghost start = c ^ (s@[i as int] as u32);
        c = c ^ (s[i] as u32);
        let mut k: usize = 0;
        while k < 8
            invariant
                k <= 8,
                crc_shift_n(c, (8 - k) as nat) == crc_shift_n(start, 8),
            decreases 8 - k,
        {
            if c & 1 == 1 {
                c = (c >> 1) ^ CRC32C_POLY;
            } else {
                c = c >> 1;
            }
            k = k + 1;
        }
        assert(s@.take(i + 1).drop_last() =~= s@.take(i as int));
        i = i + 1;
    }
    assert(s@.take(s@.len() as int) =~= s@);
    c ^ 0xFFFF_FFFF
}

} // verus!
