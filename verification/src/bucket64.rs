//! The bucket math typed over 64-bit registers: the same bucket index as
//! the 32-bit entry points, for probe programs that keep the result in a
//! 64-bit word throughout.

use crate::bucket::{bpf_log2 as log2_u32, bucket_of, lemma_log2_floor_u64};
use vstd::prelude::*;

verus! {

/// The bucket index of a 64-bit observed value, computed over the high
/// and low 32-bit halves and returned as a 64-bit word: the floor of the
/// base-two logarithm plus one, so the first non-zero bucket is numbered
/// 1, and the value zero is mapped to bucket 1 (the bucket of the value
/// one).
pub fn bpf_log2(v: u64) -> (r: u64)
    ensures
        r == bucket_of(v),
        1 <= r <= 64,
{
    let lo: u32 = (v & 0xFFFFFFFF) as u32;
    let hi: u32 = (v >> 32) as u32;
    proof {
        lemma_log2_floor_u64(v as nat);
    }
    if hi != 0 {
        let b = log2_u32(hi);
        proof {
            crate::bucket::lemma_log2_split(v, hi, lo);
        }
        b as u64 + 32 + 1
    } else {
        let b = log2_u32(lo);
        proof {
            assert(v == lo) by (bit_vector)
                requires
                    lo == (v & 0xFFFFFFFF) as u32,
                    hi == (v >> 32) as u32,
                    hi == 0,
            ;
        }
        b as u64 + 1
    }
}

} // verus!
