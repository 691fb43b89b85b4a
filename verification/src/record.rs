//! The composite record key: a bucket index paired with the caller's
//! fixed-layout sub-key payload. It is the sole key of the accumulation
//! table, so two observations share a row exactly when both their bucket
//! and their sub-key agree.

use vstd::prelude::*;

verus! {

/// A record key. `bucket` is assigned by the bucket math; `sub_key` carries
/// the metric dimensions and must be safely copyable across an
/// execution-context boundary.
#[derive(Clone, Copy)]
pub struct Key<T> {
    pub bucket: u32,
    pub sub_key: T,
}

} // verus!
