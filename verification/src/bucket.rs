//! Pure bucket math: maps a raw observed value to an order-of-magnitude
//! bucket index, with no allocation, no floating point and no unbounded loop.

use vstd::prelude::*;
use vstd::arithmetic::div_mod::{lemma_fundamental_div_mod, lemma_mod_bound};
use vstd::arithmetic::mul::lemma_mul_inequality;
use vstd::arithmetic::power2::{
    lemma2_to64, lemma2_to64_rest, lemma_pow2_adds, lemma_pow2_pos, lemma_pow2_strictly_increases,
    lemma_pow2_unfold, pow2,
};
use vstd::bits::{lemma_u32_shr_is_div, lemma_u64_shr_is_div};

verus! {

/// The exponent of the largest power of two that is at most `n`
/// (zero when `n` is zero).
pub open spec fn log2_floor(n: nat) -> nat
    decreases n,
{
    if n < 2 {
        0
    } else {
        1 + log2_floor(n / 2)
    }
}

/// The bucket assigned to an observed value: the values `2^k ..= 2^(k+1) - 1`
/// fall into bucket `k + 1`, so the first non-zero bucket is numbered 1.
/// The value zero shares bucket 1 with the value one: this keeps the
/// assignment total and monotonic without giving zero a bucket of its own.
pub open spec fn bucket_of(v: u64) -> u32 {
    if v == 0 {
        1u32
    } else {
        (log2_floor(v as nat) + 1) as u32
    }
}

/// `log2_floor` is bracketed by the two neighbouring powers of two.
pub proof fn lemma_log2_floor_bounds(n: nat)
    requires
        n >= 1,
    ensures
        pow2(log2_floor(n)) <= n < pow2(log2_floor(n) + 1),
    decreases n,
{
    if n < 2 {
        lemma2_to64();
    } else {
        lemma_log2_floor_bounds(n / 2);
        lemma_fundamental_div_mod(n as int, 2);
        lemma_pow2_unfold(log2_floor(n));
        lemma_pow2_unfold(log2_floor(n) + 1);
    }
}

/// `log2_floor` is the only exponent bracketed that way.
pub proof fn lemma_log2_floor_is(n: nat, r: nat)
    requires
        pow2(r) <= n < pow2(r + 1),
    ensures
        log2_floor(n) == r,
    decreases n,
{
    if r == 0 {
        lemma2_to64();
    } else {
        lemma_pow2_unfold(r);
        lemma_pow2_unfold(r + 1);
        lemma_pow2_pos((r - 1) as nat);
        lemma_fundamental_div_mod(n as int, 2);
        lemma_log2_floor_is(n / 2, (r - 1) as nat);
    }
}

/// `log2_floor` never decreases as its argument grows.
pub proof fn lemma_log2_floor_mono(a: nat, b: nat)
    requires
        a <= b,
    ensures
        log2_floor(a) <= log2_floor(b),
    decreases a,
{
    if a >= 2 {
        lemma_fundamental_div_mod(a as int, 2);
        lemma_fundamental_div_mod(b as int, 2);
        lemma_log2_floor_mono(a / 2, b / 2);
    }
}

/// A 64-bit value has a base-two logarithm of at most 63.
pub proof fn lemma_log2_floor_u64(n: nat)
    requires
        n <= u64::MAX,
    ensures
        log2_floor(n) <= 63,
{
    if n >= 1 {
        lemma_log2_floor_bounds(n);
        if log2_floor(n) > 63 {
            lemma2_to64();
            lemma2_to64_rest();
            if log2_floor(n) > 64 {
                lemma_pow2_strictly_increases(64, log2_floor(n));
            }
            assert(false);
        }
    }
}

/// Bucket assignment is monotonic non-decreasing: a larger observed value
/// never lands in a smaller bucket.
pub proof fn lemma_bucket_of_monotonic(a: u64, b: u64)
    requires
        a <= b,
    ensures
        bucket_of(a) <= bucket_of(b),
{
    lemma_log2_floor_u64(a as nat);
    lemma_log2_floor_u64(b as nat);
    if a != 0 {
        lemma_log2_floor_mono(a as nat, b as nat);
    }
}

/// The bucket index never exceeds 64.
pub proof fn lemma_bucket_of_bound(v: u64)
    ensures
        1 <= bucket_of(v) <= 64,
{
    lemma_log2_floor_u64(v as nat);
}

/// A number whose quotient by `2^r` is one lies between `2^r` and `2^(r+1)`.
pub(crate) proof fn lemma_div_pow2_one(n: nat, r: nat)
    requires
        n / pow2(r) == 1,
    ensures
        log2_floor(n) == r,
{
    lemma_pow2_pos(r);
    lemma_fundamental_div_mod(n as int, pow2(r) as int);
    lemma_mod_bound(n as int, pow2(r) as int);
    lemma_pow2_unfold(r + 1);
    lemma_log2_floor_is(n, r);
}

/// Five rounds of threshold-compare-and-shift computing the floor of the
/// base-two logarithm of a 32-bit value (zero for input zero).
pub fn bpf_log2(v: u32) -> (r: u32)
    ensures
        r == (if v == 0 { 0nat } else { log2_floor(v as nat) }),
        r <= 31,
{
    let r0: u32 = if v > 0xFFFF { 16 } else { 0 };
    let v0: u32 = v >> r0;
    let s1: u32 = if v0 > 0xFF { 8 } else { 0 };
    let v1: u32 = v0 >> s1;
    let s2: u32 = if v1 > 0xF { 4 } else { 0 };
    let v2: u32 = v1 >> s2;
    let s3: u32 = if v2 > 0x3 { 2 } else { 0 };
    let v3: u32 = v2 >> s3;
    let r: u32 = r0 | s1 | s2 | s3 | (v3 >> 1);
    proof {
        assert((v != 0 ==> ((v >> r) == 1 && r <= 31)) && (v == 0 ==> r == 0)) by (bit_vector)
            requires
                v > 0xFFFF ==> r0 == 16,
                v <= 0xFFFF ==> r0 == 0,
                v0 == v >> r0,
                v0 > 0xFF ==> s1 == 8,
                v0 <= 0xFF ==> s1 == 0,
                v1 == v0 >> s1,
                v1 > 0xF ==> s2 == 4,
                v1 <= 0xF ==> s2 == 0,
                v2 == v1 >> s2,
                v2 > 0x3 ==> s3 == 2,
                v2 <= 0x3 ==> s3 == 0,
                v3 == v2 >> s3,
                r == (r0 | s1 | s2 | s3 | (v3 >> 1)),
        ;
        if v != 0 {
            lemma_u32_shr_is_div(v, r);
            lemma_div_pow2_one(v as nat, r as nat);
        }
    }
    r
}

/// The bucket index of a 64-bit observed value: the floor of its base-two
/// logarithm, offset by one so that the first non-zero bucket is numbered 1.
/// The value zero is mapped to bucket 1, the bucket of the value one.
pub fn bpf_log2l(v: u64) -> (r: u32)
    ensures
        r == bucket_of(v),
        1 <= r <= 64,
{
    let lo: u32 = (v & 0xFFFFFFFF) as u32;
    let hi: u32 = (v >> 32) as u32;
    proof {
        lemma_log2_floor_u64(v as nat);
    }
    if hi != 0 {
        let b = bpf_log2(hi);
        proof {
            lemma_log2_split(v, hi, lo);
        }
        b + 32 + 1
    } else {
        let b = bpf_log2(lo);
        proof {
            assert(v == lo) by (bit_vector)
                requires
                    lo == (v & 0xFFFFFFFF) as u32,
                    hi == (v >> 32) as u32,
                    hi == 0,
            ;
        }
        b + 1
    }
}

/// Splitting a 64-bit value at bit 32 shifts its logarithm by 32.
pub(crate) proof fn lemma_log2_split(v: u64, hi: u32, lo: u32)
    requires
        hi == (v >> 32) as u32,
        lo == (v & 0xFFFFFFFF) as u32,
        hi != 0,
    ensures
        log2_floor(v as nat) == 32 + log2_floor(hi as nat),
{
    assert(v == hi as u64 * 0x100000000 + lo as u64 && lo < 0x100000000u64) by (bit_vector)
        requires
            hi == (v >> 32) as u32,
            lo == (v & 0xFFFFFFFF) as u32,
    ;
    let f = log2_floor(hi as nat);
    lemma_log2_floor_bounds(hi as nat);
    lemma2_to64();
    assert(pow2(32) == 0x100000000);
    lemma_pow2_adds(f, 32);
    lemma_pow2_adds(f + 1, 32);
    // v >= hi * 2^32 >= 2^f * 2^32 == 2^(f + 32)
    lemma_mul_inequality(pow2(f) as int, hi as int, pow2(32) as int);
    // v < (hi + 1) * 2^32 <= 2^(f+1) * 2^32 == 2^(f + 33)
    lemma_mul_inequality(hi as int + 1, pow2(f + 1) as int, pow2(32) as int);
    lemma_log2_floor_is(v as nat, f + 32);
}

} // verus!
