//! The 64-bit content digest used for de-duplication grouping and
//! recency tie-breaks: FNV-1a over the raw bytes of an entry.

use vstd::prelude::*;

verus! {

/// FNV-1a 64-bit offset basis.
pub const FNV_OFFSET: u64 = 0xcbf2_9ce4_8422_2325;

/// FNV-1a 64-bit prime.
pub const FNV_PRIME: u64 = 0x0000_0100_0000_01b3;

/// One FNV-1a round: fold a byte into the running state.
pub open spec fn fnv1a_step(h: u64, b: u8) -> u64 {
    (h ^ (b as u64)).wrapping_mul(FNV_PRIME)
}

/// The FNV-1a digest of a byte sequence.
pub open spec fn fnv1a_of(s: Seq<u8>) -> u64
    decreases s.len(),
{
    if s.len() == 0 {
        FNV_OFFSET
    } else {
        fnv1a_step(fnv1a_of(s.drop_last()), s.last())
    }
}

/// Compute the content digest of `data`.
pub fn content_digest(data: &[u8]) -> (h: u64)
    ensures
        h == fnv1a_of(data@),
{
    let mut h: u64 = FNV_OFFSET;
    let mut i: usize = 0;
    while i < data.len()
        invariant
            i <= data@.len(),
            h == fnv1a_of(data@.take(i as int)),
        decreases data@.len() - i,
    {
        proof {
            assert(data@.take(i + 1).drop_last() =~= data@.take(i as int));
            assert(data@.take(i + 1).last() == data@[i as int]);
        }
        h = (h ^ (data[i] as u64)).wrapping_mul(FNV_PRIME);
        i = i + 1;
    }
    proof {
        assert(data@.take(data@.len() as int) =~= data@);
    }
    h
}

} // verus!
