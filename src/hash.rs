use vstd::prelude::*;
use crate::encode::enc;
use crate::value::{Val, Value};

verus! {

pub const FNV_OFFSET: u64 = 0xcbf2_9ce4_8422_2325;

pub const FNV_PRIME: u64 = 0x0000_0100_0000_01b3;

/// FNV-1a over `bytes`, starting from state `h`.
pub open spec fn fnv_from(h: u64, bytes: Seq<u8>) -> u64
    decreases bytes.len(),
{
    if bytes.len() == 0 {
        h
    } else {
        (fnv_from(h, bytes.drop_last()) ^ (bytes.last() as u64)).wrapping_mul(FNV_PRIME)
    }
}

/// Structural hash of a value: FNV-1a over its canonical serialisation,
/// which lists keys, positions and leaf payloads in traversal order.
pub open spec fn hash_of(v: Val) -> u64 {
    fnv_from(FNV_OFFSET, enc(v))
}

impl Value {
    /// The structural hash of this value.
    pub fn structural_hash(&self) -> (r: u64)
        ensures
            r == hash_of(self@),
    {
        let bytes = self.to_bencode();
        let mut h: u64 = FNV_OFFSET;
        let mut i: usize = 0;
        while i < bytes.len()
            invariant
                i <= bytes@.len(),
                h == fnv_from(FNV_OFFSET, bytes@.subrange(0, i as int)),
            decreases bytes@.len() - i,
        {
            proof {
                let next = bytes@.subrange(0, i + 1);
                assert(next.drop_last() =~= bytes@.subrange(0, i as int));
            }
            h = (h ^ (bytes[i] as u64)).wrapping_mul(FNV_PRIME);
            i += 1;
        }
        assert(bytes@.subrange(0, bytes@.len() as int) =~= bytes@);
        h
    }
}

/// Equal values hash equal.
pub proof fn law_equal_values_hash_equal(a: Val, b: Val)
    requires
        a == b,
    ensures
        hash_of(a) == hash_of(b),
{
}

} // verus!
