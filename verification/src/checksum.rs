use vstd::prelude::*;

verus! {

/// Multiplier of the 128-bit fold; an odd constant so folding mixes bits.
pub const CHECKSUM_PRIME: u128 = 0x0000000001000000000000000000013B;

/// Starting value of the 128-bit fold.
pub const CHECKSUM_OFFSET: u128 = 0x6C62272E07BB014262B821756295C58D;

/// One step of the fold: mix a byte in, then multiply, wrapping.
pub open spec fn checksum_step(acc: u128, b: u8) -> u128 {
    (acc ^ (b as u128)).wrapping_mul(CHECKSUM_PRIME)
}

/// The 128-bit integrity tag over a byte string: a left fold of
/// `checksum_step` from `CHECKSUM_OFFSET`.
pub open spec fn checksum_of(data: Seq<u8>) -> u128
    decreases data.len(),
{
    if data.len() == 0 {
        CHECKSUM_OFFSET
    } else {
        checksum_step(checksum_of(data.drop_last()), data.last())
    }
}

/// Computes the integrity tag written beside every page and superblock.
pub fn checksum(data: &[u8]) -> (r: u128)
    ensures
        r == checksum_of(data@),
{
    let mut acc: u128 = CHECKSUM_OFFSET;
    let mut i: usize = 0;
    while i < data.len()
        invariant
            0 <= i <= data@.len(),
            acc == checksum_of(data@.take(i as int)),
        decreases data@.len() - i,
    {
        acc = (acc ^ (data[i] as u128)).wrapping_mul(CHECKSUM_PRIME);
        proof {
            assert(data@.take(i + 1).drop_last() =~= data@.take(i as int));
            assert(data@.take(i + 1).last() == data@[i as int]);
        }
        i += 1;
    }
    proof {
        assert(data@.take(data@.len() as int) =~= data@);
    }
    acc
}

} // verus!
