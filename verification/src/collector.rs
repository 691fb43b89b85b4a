//! The read path: aggregates the accumulation table, sums every row's
//! partition slots, groups the totals by sub-key with buckets ascending,
//! and converts each group into the cumulative ("less-or-equal") series
//! that conventional histogram metrics expose.

use crate::decimal::{dec_digits, pow2_u128, u128_to_decimal};
use crate::store::{copy_slots, slots_total, BpfHistogram};
use crate::subkey::Key;
use vstd::arithmetic::power2::pow2;
use vstd::prelude::*;

verus! {

/// A record key as seen by the read path: the bucket index paired with the
/// caller's sub-key payload.
#[derive(Clone, Copy, Debug, PartialEq, Eq, Hash)]
pub struct KeyWrapper<T: Key> {
    pub bucket: u32,
    pub sub_key: T,
}

/// How a bucket is labelled on export: as its raw exponent, or decoded as
/// the power of two it stands for. The choice is made once at collector
/// construction.
#[derive(Clone, Copy, Debug, PartialEq, Eq)]
pub enum BucketRendering {
    RawExponent,
    PowerOfTwo,
}

/// The error raised at collector construction. Nothing else in the
/// collector fails: a full table drops new keys silently on the write
/// path, and an unreadable row is skipped on the read path.
#[derive(Clone, Copy, Debug, PartialEq, Eq)]
pub enum HistogramError {
    /// The sub-key type's label-name list and label-value list disagree in
    /// length; raised before any observation can occur.
    LabelArityMismatch,
}

/// The label-arity rule: a sub-key type is accepted exactly when its label
/// names and its label values agree in length.
pub fn validate_labels(names: &Vec<String>, values: &Vec<String>) -> (r: Result<
    (),
    HistogramError,
>)
    ensures
        r is Ok <==> names@.len() == values@.len(),
        r is Err ==> r->Err_0 == HistogramError::LabelArityMismatch,
{
    if names.len() == values.len() {
        Ok(())
    } else {
        Err(HistogramError::LabelArityMismatch)
    }
}

/// A sum capped at the counter limit.
pub open spec fn cap(n: nat) -> nat {
    if n > u64::MAX {
        u64::MAX as nat
    } else {
        n
    }
}

/// Sums one row's partition slots, saturating at the counter limit.
pub fn sum_slots(slots: &Vec<u64>) -> (t: u64)
    ensures
        t as nat == cap(slots_total(slots@)),
{
    let mut t: u64 = 0;
    let mut i: usize = 0;
    proof {
        assert(slots@.take(0) =~= Seq::<u64>::empty());
    }
    while i < slots.len()
        invariant
            i <= slots@.len(),
            t as nat == cap(slots_total(slots@.take(i as int))),
        decreases slots@.len() - i,
    {
        let ghost pre = slots@.take(i as int);
        t = t.saturating_add(slots[i]);
        i += 1;
        proof {
            assert(slots@.take(i as int).drop_last() =~= pre);
        }
    }
    proof {
        assert(slots@.take(slots@.len() as int) =~= slots@);
    }
    t
}

/// The sum of the per-bucket counts of a series, as a mathematical
/// integer.
pub open spec fn pair_sum(s: Seq<(u32, u64)>) -> nat
    decreases s.len(),
{
    if s.len() == 0 {
        0
    } else {
        pair_sum(s.drop_last()) + s.last().1 as nat
    }
}

/// Inserts a (bucket, count) pair into a strictly ascending series that
/// does not yet contain this bucket, keeping the order strict.
fn insert_sorted(series: &mut Vec<(u32, u64)>, bucket: u32, count: u64)
    requires
        forall|a: int, b: int|
            0 <= a < b < old(series)@.len() ==> (#[trigger] old(series)@[a]).0 < (
            #[trigger] old(series)@[b]).0,
        forall|p: int| 0 <= p < old(series)@.len() ==> (#[trigger] old(series)@[p]).0 != bucket,
    ensures
        exists|q: int|
            0 <= q <= old(series)@.len() && final(series)@ == #[trigger] old(series)@.insert(
                q,
                (bucket, count),
            ),
        forall|a: int, b: int|
            0 <= a < b < final(series)@.len() ==> (#[trigger] final(series)@[a]).0 < (
            #[trigger] final(series)@[b]).0,
        (bucket <= 64 && (forall|p: int|
            0 <= p < old(series)@.len() ==> (#[trigger] old(series)@[p]).0 <= 64)) ==> (forall|
            p: int,
        |
            0 <= p < final(series)@.len() ==> (#[trigger] final(series)@[p]).0 <= 64),
{
    let n = series.len();
    let mut q: usize = 0;
    while q < n && series[q].0 < bucket
        invariant
            q <= n,
            n == series@.len(),
            forall|p: int| 0 <= p < q ==> (#[trigger] series@[p]).0 < bucket,
        decreases n - q,
    {
        q += 1;
    }
    proof {
        assert forall|p: int| q <= p < series@.len() implies (#[trigger] series@[p]).0
            > bucket by {
            if p == q {
                assert(series@[p].0 >= bucket);
            } else {
                assert(series@[q as int].0 < series@[p].0);
                assert(series@[q as int].0 >= bucket);
            }
        }
    }
    series.insert(q, (bucket, count));
    proof {
        assert forall|a: int, b: int| 0 <= a < b < series@.len() implies (
        #[trigger] series@[a]).0 < (#[trigger] series@[b]).0 by {
            assert(series@ == old(series)@.insert(q as int, (bucket, count)));
        }
    }
}

/// The total recorded under sub-key `s` and bucket `b` over the first `n`
/// table rows, uncapped.
pub open spec fn key_total<T: Key>(
    rows: Seq<(KeyWrapper<T>, Vec<u64>)>,
    n: int,
    s: T,
    b: u32,
) -> nat
    decreases n,
{
    if n <= 0 {
        0
    } else {
        key_total(rows, n - 1, s, b) + (if rows[n - 1].0.sub_key == s && rows[n - 1].0.bucket
            == b {
            slots_total(rows[n - 1].1@)
        } else {
            0
        })
    }
}

/// The total recorded under sub-key `s` over the first `n` table rows,
/// each row's slot sum capped at the counter limit.
pub open spec fn capped_rows_total<T: Key>(
    rows: Seq<(KeyWrapper<T>, Vec<u64>)>,
    n: int,
    s: T,
) -> nat
    decreases n,
{
    if n <= 0 {
        0
    } else {
        capped_rows_total(rows, n - 1, s) + (if rows[n - 1].0.sub_key == s {
            cap(slots_total(rows[n - 1].1@))
        } else {
            0
        })
    }
}

/// The total recorded under sub-key `s` over the first `n` table rows,
/// uncapped.
pub open spec fn rows_total<T: Key>(rows: Seq<(KeyWrapper<T>, Vec<u64>)>, n: int, s: T) -> nat
    decreases n,
{
    if n <= 0 {
        0
    } else {
        rows_total(rows, n - 1, s) + (if rows[n - 1].0.sub_key == s {
            slots_total(rows[n - 1].1@)
        } else {
            0
        })
    }
}

/// Capping each row's contribution does not change the capped grand
/// total: saturation composes.
pub proof fn lemma_cap_rows_total<T: Key>(rows: Seq<(KeyWrapper<T>, Vec<u64>)>, n: int, s: T)
    ensures
        cap(capped_rows_total(rows, n, s)) == cap(rows_total(rows, n, s)),
        capped_rows_total(rows, n, s) <= rows_total(rows, n, s),
    decreases n,
{
    if n > 0 {
        lemma_cap_rows_total(rows, n - 1, s);
    }
}

/// The cumulative total over the buckets of `series` up to and including
/// position `a`: the sum of the totals recorded under sub-key `s` and
/// each of those buckets over the first `n` rows.
pub open spec fn series_cum<T: Key>(
    rows: Seq<(KeyWrapper<T>, Vec<u64>)>,
    n: int,
    s: T,
    series: Seq<(u32, u64)>,
    a: int,
) -> nat
    decreases a + 1,
{
    if a < 0 {
        0
    } else {
        series_cum(rows, n, s, series, a - 1) + key_total(rows, n, s, series[a].0)
    }
}

/// A cumulative count computed by saturating per-bucket counts equals the
/// capped cumulative of the uncapped totals: saturation composes.
proof fn lemma_series_cum<T: Key>(
    rows: Seq<(KeyWrapper<T>, Vec<u64>)>,
    n: int,
    s: T,
    series: Seq<(u32, u64)>,
    a: int,
)
    requires
        0 <= a < series.len(),
        forall|j: int|
            0 <= j < series.len() ==> (#[trigger] series[j]).1 as nat == cap(
                key_total(rows, n, s, series[j].0),
            ),
    ensures
        pair_sum(series.take(a + 1)) <= series_cum(rows, n, s, series, a),
        cap(pair_sum(series.take(a + 1))) == cap(series_cum(rows, n, s, series, a)),
    decreases a + 1,
{
    assert(series.take(a + 1).drop_last() =~= series.take(a));
    assert(series.take(a + 1).last() == series[a]);
    if a == 0 {
        assert(series.take(0) =~= Seq::<(u32, u64)>::empty());
    } else {
        lemma_series_cum(rows, n, s, series, a - 1);
    }
}

/// The cumulative total depends only on the series' buckets.
proof fn lemma_series_cum_buckets<T: Key>(
    rows: Seq<(KeyWrapper<T>, Vec<u64>)>,
    n: int,
    s: T,
    s1: Seq<(u32, u64)>,
    s2: Seq<(u32, u64)>,
    a: int,
)
    requires
        forall|j: int| 0 <= j <= a ==> (#[trigger] s1[j]).0 == s2[j].0,
    ensures
        series_cum(rows, n, s, s1, a) == series_cum(rows, n, s, s2, a),
    decreases a + 1,
{
    if a >= 0 {
        lemma_series_cum_buckets(rows, n, s, s1, s2, a - 1);
    }
}

/// Groups carry pairwise distinct sub-keys, the buckets within each group
/// ascend strictly, and no group is empty.
pub open spec fn groups_wf<T: Key>(out: Seq<(T, Vec<(u32, u64)>)>) -> bool {
    &&& forall|g: int, h: int|
        0 <= g < h < out.len() ==> (#[trigger] out[g]).0 != (#[trigger] out[h]).0
    &&& forall|g: int, a: int, b: int|
        #![trigger out[g].1@[a], out[g].1@[b]]
        0 <= g < out.len() && 0 <= a < b < out[g].1@.len() ==> out[g].1@[a].0 < out[g].1@[b].0
    &&& forall|g: int| 0 <= g < out.len() ==> (#[trigger] out[g]).1@.len() >= 1
}

/// Every count in every group equals the capped total recorded under that
/// group's sub-key and that pair's bucket over the first `n` rows.
pub open spec fn groups_values<T: Key>(
    out: Seq<(T, Vec<(u32, u64)>)>,
    rows: Seq<(KeyWrapper<T>, Vec<u64>)>,
    n: int,
) -> bool {
    forall|g: int, a: int|
        #![trigger out[g].1@[a]]
        0 <= g < out.len() && 0 <= a < out[g].1@.len() ==> out[g].1@[a].1 as nat == cap(
            key_total(rows, n, out[g].0, out[g].1@[a].0),
        )
}

/// Some one of the first `n` rows carries the (sub-key, bucket) pair of
/// point `a` of group `g`.
pub open spec fn point_from_rows<T: Key>(
    out: Seq<(T, Vec<(u32, u64)>)>,
    rows: Seq<(KeyWrapper<T>, Vec<u64>)>,
    n: int,
    g: int,
    a: int,
) -> bool {
    exists|i: int|
        #![trigger rows[i]]
        0 <= i < n && rows[i].0.sub_key == out[g].0 && rows[i].0.bucket == out[g].1@[a].0
}

/// Every (sub-key, bucket) point of every group is carried by one of the
/// first `n` table rows: nothing is invented.
pub open spec fn groups_member<T: Key>(
    out: Seq<(T, Vec<(u32, u64)>)>,
    rows: Seq<(KeyWrapper<T>, Vec<u64>)>,
    n: int,
) -> bool {
    forall|g: int, a: int|
        0 <= g < out.len() && 0 <= a < out[g].1@.len() ==> #[trigger] point_from_rows(
            out,
            rows,
            n,
            g,
            a,
        )
}

/// Row `i`'s (sub-key, bucket) pair has a point in some group.
pub open spec fn row_in_groups<T: Key>(
    out: Seq<(T, Vec<(u32, u64)>)>,
    rows: Seq<(KeyWrapper<T>, Vec<u64>)>,
    i: int,
) -> bool {
    exists|g: int, a: int|
        #![trigger out[g].1@[a]]
        0 <= g < out.len() && out[g].0 == rows[i].0.sub_key && 0 <= a < out[g].1@.len()
            && out[g].1@[a].0 == rows[i].0.bucket
}

/// Each of the first `n` table rows is represented: its sub-key has a
/// group holding its bucket. Nothing is missing.
pub open spec fn groups_complete<T: Key>(
    out: Seq<(T, Vec<(u32, u64)>)>,
    rows: Seq<(KeyWrapper<T>, Vec<u64>)>,
    n: int,
) -> bool {
    forall|i: int| 0 <= i < n ==> #[trigger] row_in_groups(out, rows, i)
}

/// Each group's series sums to the capped total recorded for its sub-key
/// over the first `n` rows.
pub open spec fn groups_totals<T: Key>(
    out: Seq<(T, Vec<(u32, u64)>)>,
    rows: Seq<(KeyWrapper<T>, Vec<u64>)>,
    n: int,
) -> bool {
    forall|g: int|
        0 <= g < out.len() ==> pair_sum((#[trigger] out[g]).1@) == capped_rows_total(
            rows,
            n,
            out[g].0,
        )
}

/// How an insertion maps positions: unchanged below the insertion point,
/// shifted by one above it.
proof fn lemma_insert_index(s: Seq<(u32, u64)>, q: int, pair: (u32, u64))
    requires
        0 <= q <= s.len(),
    ensures
        s.insert(q, pair).len() == s.len() + 1,
        s.insert(q, pair)[q] == pair,
        forall|p: int| 0 <= p < q ==> #[trigger] s.insert(q, pair)[p] == s[p],
        forall|p: int| q < p < s.len() + 1 ==> #[trigger] s.insert(q, pair)[p] == s[p - 1],
{
}

/// Inserting a pair anywhere in a series adds its count to the series sum.
proof fn lemma_pair_sum_insert(s: Seq<(u32, u64)>, q: int, pair: (u32, u64))
    requires
        0 <= q <= s.len(),
    ensures
        pair_sum(s.insert(q, pair)) == pair_sum(s) + pair.1 as nat,
    decreases s.len(),
{
    if q == s.len() {
        assert(s.insert(q, pair).drop_last() =~= s);
    } else {
        assert(s.insert(q, pair).drop_last() =~= s.drop_last().insert(q, pair));
        lemma_pair_sum_insert(s.drop_last(), q, pair);
    }
}

/// A (sub-key, bucket) pair carried by none of the first `n` rows has a
/// zero total.
proof fn lemma_key_total_absent<T: Key>(
    rows: Seq<(KeyWrapper<T>, Vec<u64>)>,
    n: int,
    s: T,
    b: u32,
)
    requires
        forall|j: int|
            0 <= j < n ==> !((#[trigger] rows[j]).0.sub_key == s && rows[j].0.bucket == b),
    ensures
        key_total(rows, n, s, b) == 0,
    decreases n,
{
    if n > 0 {
        lemma_key_total_absent(rows, n - 1, s, b);
    }
}

/// A sub-key carried by none of the first `n` rows has a zero total.
proof fn lemma_sub_total_absent<T: Key>(rows: Seq<(KeyWrapper<T>, Vec<u64>)>, n: int, s: T)
    requires
        forall|j: int| 0 <= j < n ==> (#[trigger] rows[j]).0.sub_key != s,
    ensures
        capped_rows_total(rows, n, s) == 0,
    decreases n,
{
    if n > 0 {
        lemma_sub_total_absent(rows, n - 1, s);
    }
}

/// A sub-key with no group is carried by none of the first `n` rows.
proof fn lemma_no_group_no_sub<T: Key>(
    out: Seq<(T, Vec<(u32, u64)>)>,
    rows: Seq<(KeyWrapper<T>, Vec<u64>)>,
    n: int,
    s: T,
)
    requires
        groups_complete(out, rows, n),
        forall|g: int| 0 <= g < out.len() ==> (#[trigger] out[g]).0 != s,
    ensures
        forall|j: int| 0 <= j < n ==> (#[trigger] rows[j]).0.sub_key != s,
{
    assert forall|j: int| 0 <= j < n implies (#[trigger] rows[j]).0.sub_key != s by {
        if rows[j].0.sub_key == s {
            assert(row_in_groups(out, rows, j));
            let (g, a) = choose|g: int, a: int|
                #![trigger out[g].1@[a]]
                0 <= g < out.len() && out[g].0 == rows[j].0.sub_key && 0 <= a < out[g].1@.len()
                    && out[g].1@[a].0 == rows[j].0.bucket;
            assert(out[g].0 != s);
        }
    }
}

/// A bucket missing from a sub-key's group is carried, with that sub-key,
/// by none of the first `n` rows.
proof fn lemma_fresh_bucket<T: Key>(
    out: Seq<(T, Vec<(u32, u64)>)>,
    rows: Seq<(KeyWrapper<T>, Vec<u64>)>,
    n: int,
    gi: int,
    b: u32,
)
    requires
        groups_complete(out, rows, n),
        forall|g: int, h: int|
            0 <= g < h < out.len() ==> (#[trigger] out[g]).0 != (#[trigger] out[h]).0,
        0 <= gi < out.len(),
        forall|a: int| 0 <= a < out[gi].1@.len() ==> (#[trigger] out[gi].1@[a]).0 != b,
    ensures
        forall|j: int|
            0 <= j < n ==> !((#[trigger] rows[j]).0.sub_key == out[gi].0 && rows[j].0.bucket
                == b),
{
    assert forall|j: int|
        0 <= j < n implies !((#[trigger] rows[j]).0.sub_key == out[gi].0 && rows[j].0.bucket
        == b) by {
        if rows[j].0.sub_key == out[gi].0 && rows[j].0.bucket == b {
            assert(row_in_groups(out, rows, j));
            let (g, a) = choose|g: int, a: int|
                #![trigger out[g].1@[a]]
                0 <= g < out.len() && out[g].0 == rows[j].0.sub_key && 0 <= a < out[g].1@.len()
                    && out[g].1@[a].0 == rows[j].0.bucket;
            if g < gi {
                assert(out[g].0 != out[gi].0);
            } else if g > gi {
                assert(out[gi].0 != out[g].0);
            }
            assert(g == gi);
            assert(out[gi].1@[a].0 != b);
        }
    }
}


/// Every bucket of every group lies in the range the bucket math can
/// produce.
pub open spec fn groups_bound<T: Key>(out: Seq<(T, Vec<(u32, u64)>)>) -> bool {
    forall|g: int, a: int|
        #![trigger out[g].1@[a]]
        0 <= g < out.len() && 0 <= a < out[g].1@.len() ==> out[g].1@[a].0 <= 64
}

/// The bucket of the row being merged is not yet in its sub-key's group.
proof fn lemma_series_fresh<T: Key>(
    out0: Seq<(T, Vec<(u32, u64)>)>,
    rows: Seq<(KeyWrapper<T>, Vec<u64>)>,
    i: int,
    gi: int,
)
    requires
        groups_member(out0, rows, i),
        forall|a: int, b: int|
            0 <= a < b < rows.len() ==> (#[trigger] rows[a]).0 != (#[trigger] rows[b]).0,
        0 <= i < rows.len(),
        0 <= gi < out0.len(),
        out0[gi].0 == rows[i].0.sub_key,
    ensures
        forall|a: int|
            0 <= a < out0[gi].1@.len() ==> (#[trigger] out0[gi].1@[a]).0 != rows[i].0.bucket,
{
    assert forall|a: int|
        0 <= a < out0[gi].1@.len() implies (#[trigger] out0[gi].1@[a]).0
        != rows[i].0.bucket by {
        if out0[gi].1@[a].0 == rows[i].0.bucket {
            assert(point_from_rows(out0, rows, i, gi, a));
            let ii = choose|ii: int|
                #![trigger rows[ii]]
                0 <= ii < i && rows[ii].0.sub_key == out0[gi].0 && rows[ii].0.bucket == out0[
                    gi].1@[a].0;
            assert(rows[ii].0 == rows[i].0);
        }
    }
}

/// One grouping step where row `i` opens a new group: the well-formedness
/// and bound clauses.
proof fn lemma_new_wf<T: Key>(
    out0: Seq<(T, Vec<(u32, u64)>)>,
    out1: Seq<(T, Vec<(u32, u64)>)>,
    rows: Seq<(KeyWrapper<T>, Vec<u64>)>,
    i: int,
    total: u64,
)
    requires
        0 <= i < rows.len(),
        rows[i].0.bucket <= 64,
        groups_wf(out0),
        groups_bound(out0),
        forall|g: int| 0 <= g < out0.len() ==> (#[trigger] out0[g]).0 != rows[i].0.sub_key,
        out1.len() == out0.len() + 1,
        forall|g: int| 0 <= g < out0.len() ==> #[trigger] out1[g] == out0[g],
        out1[out0.len() as int].0 == rows[i].0.sub_key,
        out1[out0.len() as int].1@.len() == 1,
        out1[out0.len() as int].1@[0] == (rows[i].0.bucket, total),
    ensures
        groups_wf(out1),
        groups_bound(out1),
{
    let gnew = out0.len() as int;
    assert forall|g: int, a: int, b: int|
        #![trigger out1[g].1@[a], out1[g].1@[b]]
        0 <= g < out1.len() && 0 <= a < b < out1[g].1@.len() implies out1[g].1@[a].0 < out1[
        g].1@[b].0 by {
        if g < gnew {
            assert(out1[g] == out0[g]);
            assert(out0[g].1@[a].0 < out0[g].1@[b].0);
        }
    }
    assert forall|g: int, a: int|
        #![trigger out1[g].1@[a]]
        0 <= g < out1.len() && 0 <= a < out1[g].1@.len() implies out1[g].1@[a].0 <= 64 by {
        if g < gnew {
            assert(out1[g] == out0[g]);
            assert(out0[g].1@[a].0 <= 64);
        }
    }
}

/// One grouping step where row `i` opens a new group: the values clause.
proof fn lemma_new_values<T: Key>(
    out0: Seq<(T, Vec<(u32, u64)>)>,
    out1: Seq<(T, Vec<(u32, u64)>)>,
    rows: Seq<(KeyWrapper<T>, Vec<u64>)>,
    i: int,
    total: u64,
)
    requires
        0 <= i < rows.len(),
        groups_values(out0, rows, i),
        groups_complete(out0, rows, i),
        forall|g: int| 0 <= g < out0.len() ==> (#[trigger] out0[g]).0 != rows[i].0.sub_key,
        total as nat == cap(slots_total(rows[i].1@)),
        out1.len() == out0.len() + 1,
        forall|g: int| 0 <= g < out0.len() ==> #[trigger] out1[g] == out0[g],
        out1[out0.len() as int].0 == rows[i].0.sub_key,
        out1[out0.len() as int].1@.len() == 1,
        out1[out0.len() as int].1@[0] == (rows[i].0.bucket, total),
    ensures
        groups_values(out1, rows, i + 1),
{
    let sub = rows[i].0.sub_key;
    let gnew = out0.len() as int;
    lemma_no_group_no_sub(out0, rows, i, sub);
    lemma_key_total_absent(rows, i, sub, rows[i].0.bucket);
    assert forall|g: int, a: int|
        #![trigger out1[g].1@[a]]
        0 <= g < out1.len() && 0 <= a < out1[g].1@.len() implies out1[g].1@[a].1 as nat == cap(
        key_total(rows, i + 1, out1[g].0, out1[g].1@[a].0),
    ) by {
        if g < gnew {
            assert(out1[g] == out0[g]);
            assert(out0[g].1@[a].1 as nat == cap(key_total(rows, i, out0[g].0, out0[g].1@[a].0)));
            assert(out0[g].0 != sub);
            assert(key_total(rows, i + 1, out0[g].0, out0[g].1@[a].0) == key_total(
                rows,
                i,
                out0[g].0,
                out0[g].1@[a].0,
            ));
        } else {
            assert(key_total(rows, i + 1, sub, rows[i].0.bucket) == slots_total(rows[i].1@));
        }
    }
}

/// One grouping step where row `i` opens a new group: nothing invented.
proof fn lemma_new_member<T: Key>(
    out0: Seq<(T, Vec<(u32, u64)>)>,
    out1: Seq<(T, Vec<(u32, u64)>)>,
    rows: Seq<(KeyWrapper<T>, Vec<u64>)>,
    i: int,
    total: u64,
)
    requires
        0 <= i < rows.len(),
        groups_member(out0, rows, i),
        out1.len() == out0.len() + 1,
        forall|g: int| 0 <= g < out0.len() ==> #[trigger] out1[g] == out0[g],
        out1[out0.len() as int].0 == rows[i].0.sub_key,
        out1[out0.len() as int].1@.len() == 1,
        out1[out0.len() as int].1@[0] == (rows[i].0.bucket, total),
    ensures
        groups_member(out1, rows, i + 1),
{
    let gnew = out0.len() as int;
    assert forall|g: int, a: int|
        0 <= g < out1.len() && 0 <= a < out1[g].1@.len() implies #[trigger] point_from_rows(
        out1,
        rows,
        i + 1,
        g,
        a,
    ) by {
        if g < gnew {
            assert(out1[g] == out0[g]);
            assert(out0[g].1@[a] == out1[g].1@[a]);
            assert(point_from_rows(out0, rows, i, g, a));
            let ii = choose|ii: int|
                #![trigger rows[ii]]
                0 <= ii < i && rows[ii].0.sub_key == out0[g].0 && rows[ii].0.bucket == out0[
                    g].1@[a].0;
            assert(0 <= ii < i + 1 && rows[ii].0.sub_key == out1[g].0 && rows[ii].0.bucket
                == out1[g].1@[a].0);
        } else {
            assert(0 <= i < i + 1 && rows[i].0.sub_key == out1[g].0 && rows[i].0.bucket == out1[
                g].1@[a].0);
        }
    }
}

/// One grouping step where row `i` opens a new group: nothing missing.
proof fn lemma_new_complete<T: Key>(
    out0: Seq<(T, Vec<(u32, u64)>)>,
    out1: Seq<(T, Vec<(u32, u64)>)>,
    rows: Seq<(KeyWrapper<T>, Vec<u64>)>,
    i: int,
    total: u64,
)
    requires
        0 <= i < rows.len(),
        groups_complete(out0, rows, i),
        out1.len() == out0.len() + 1,
        forall|g: int| 0 <= g < out0.len() ==> #[trigger] out1[g] == out0[g],
        out1[out0.len() as int].0 == rows[i].0.sub_key,
        out1[out0.len() as int].1@.len() == 1,
        out1[out0.len() as int].1@[0] == (rows[i].0.bucket, total),
    ensures
        groups_complete(out1, rows, i + 1),
{
    let gnew = out0.len() as int;
    assert forall|ii: int| 0 <= ii < i + 1 implies #[trigger] row_in_groups(out1, rows, ii) by {
        if ii < i {
            assert(row_in_groups(out0, rows, ii));
            let (g, a) = choose|g: int, a: int|
                #![trigger out0[g].1@[a]]
                0 <= g < out0.len() && out0[g].0 == rows[ii].0.sub_key && 0 <= a
                    < out0[g].1@.len() && out0[g].1@[a].0 == rows[ii].0.bucket;
            assert(out1[g] == out0[g]);
            assert(out1[g].1@[a] == out0[g].1@[a]);
            assert(0 <= g < out1.len() && out1[g].0 == rows[ii].0.sub_key && 0 <= a
                < out1[g].1@.len() && out1[g].1@[a].0 == rows[ii].0.bucket);
        } else {
            assert(0 <= gnew < out1.len() && out1[gnew].0 == rows[ii].0.sub_key && 0 <= 0
                < out1[gnew].1@.len() && out1[gnew].1@[0].0 == rows[ii].0.bucket);
        }
    }
}

/// One grouping step where row `i` opens a new group: the series sums.
proof fn lemma_new_totals<T: Key>(
    out0: Seq<(T, Vec<(u32, u64)>)>,
    out1: Seq<(T, Vec<(u32, u64)>)>,
    rows: Seq<(KeyWrapper<T>, Vec<u64>)>,
    i: int,
    total: u64,
)
    requires
        0 <= i < rows.len(),
        groups_totals(out0, rows, i),
        groups_complete(out0, rows, i),
        forall|g: int| 0 <= g < out0.len() ==> (#[trigger] out0[g]).0 != rows[i].0.sub_key,
        total as nat == cap(slots_total(rows[i].1@)),
        out1.len() == out0.len() + 1,
        forall|g: int| 0 <= g < out0.len() ==> #[trigger] out1[g] == out0[g],
        out1[out0.len() as int].0 == rows[i].0.sub_key,
        out1[out0.len() as int].1@.len() == 1,
        out1[out0.len() as int].1@[0] == (rows[i].0.bucket, total),
    ensures
        groups_totals(out1, rows, i + 1),
{
    let sub = rows[i].0.sub_key;
    let gnew = out0.len() as int;
    lemma_no_group_no_sub(out0, rows, i, sub);
    lemma_sub_total_absent(rows, i, sub);
    assert forall|g: int| 0 <= g < out1.len() implies pair_sum((#[trigger] out1[g]).1@)
        == capped_rows_total(rows, i + 1, out1[g].0) by {
        if g < gnew {
            assert(out1[g] == out0[g]);
            assert(out0[g].0 != sub);
            assert(capped_rows_total(rows, i + 1, out0[g].0) == capped_rows_total(
                rows,
                i,
                out0[g].0,
            ));
        } else {
            let s1 = out1[gnew].1@;
            assert(s1.drop_last() =~= Seq::<(u32, u64)>::empty());
            assert(pair_sum(Seq::<(u32, u64)>::empty()) == 0);
            assert(s1.last() == (rows[i].0.bucket, total));
            assert(pair_sum(s1) == pair_sum(s1.drop_last()) + s1.last().1 as nat);
            assert(pair_sum(s1) == total as nat);
            assert(capped_rows_total(rows, i + 1, sub) == total as nat);
        }
    }
}

/// One grouping step where row `i` joins existing group `gi`: the
/// well-formedness and bound clauses.
proof fn lemma_ins_wf<T: Key>(
    out0: Seq<(T, Vec<(u32, u64)>)>,
    out1: Seq<(T, Vec<(u32, u64)>)>,
    rows: Seq<(KeyWrapper<T>, Vec<u64>)>,
    i: int,
    gi: int,
    q: int,
    total: u64,
)
    requires
        0 <= i < rows.len(),
        rows[i].0.bucket <= 64,
        groups_wf(out0),
        groups_bound(out0),
        0 <= gi < out0.len(),
        out0[gi].0 == rows[i].0.sub_key,
        0 <= q <= out0[gi].1@.len(),
        out1.len() == out0.len(),
        forall|g: int| 0 <= g < out0.len() && g != gi ==> #[trigger] out1[g] == out0[g],
        out1[gi].0 == out0[gi].0,
        out1[gi].1@ == out0[gi].1@.insert(q, (rows[i].0.bucket, total)),
        forall|a: int, b: int|
            #![trigger out1[gi].1@[a], out1[gi].1@[b]]
            0 <= a < b < out1[gi].1@.len() ==> out1[gi].1@[a].0 < out1[gi].1@[b].0,
    ensures
        groups_wf(out1),
        groups_bound(out1),
{
    lemma_insert_index(out0[gi].1@, q, (rows[i].0.bucket, total));
    assert forall|g: int, h: int|
        0 <= g < h < out1.len() implies (#[trigger] out1[g]).0 != (#[trigger] out1[h]).0 by {
        assert(out1[g].0 == out0[g].0);
        assert(out1[h].0 == out0[h].0);
        assert(out0[g].0 != out0[h].0);
    }
    assert forall|g: int, a: int, b: int|
        #![trigger out1[g].1@[a], out1[g].1@[b]]
        0 <= g < out1.len() && 0 <= a < b < out1[g].1@.len() implies out1[g].1@[a].0 < out1[
        g].1@[b].0 by {
        if g != gi {
            assert(out1[g] == out0[g]);
            assert(out0[g].1@[a].0 < out0[g].1@[b].0);
        }
    }
    assert forall|g: int, a: int|
        #![trigger out1[g].1@[a]]
        0 <= g < out1.len() && 0 <= a < out1[g].1@.len() implies out1[g].1@[a].0 <= 64 by {
        if g != gi {
            assert(out1[g] == out0[g]);
            assert(out0[g].1@[a].0 <= 64);
        } else {
            if a != q {
                let a0 = if a < q {
                    a
                } else {
                    a - 1
                };
                assert(out1[gi].1@[a] == out0[gi].1@[a0]);
                assert(out0[gi].1@[a0].0 <= 64);
            }
        }
    }
    assert forall|g: int| 0 <= g < out1.len() implies (#[trigger] out1[g]).1@.len() >= 1 by {
        if g != gi {
            assert(out1[g] == out0[g]);
        }
    }
}

/// One grouping step where row `i` joins existing group `gi`: the values
/// clause.
proof fn lemma_ins_values<T: Key>(
    out0: Seq<(T, Vec<(u32, u64)>)>,
    out1: Seq<(T, Vec<(u32, u64)>)>,
    rows: Seq<(KeyWrapper<T>, Vec<u64>)>,
    i: int,
    gi: int,
    q: int,
    total: u64,
)
    requires
        0 <= i < rows.len(),
        groups_values(out0, rows, i),
        groups_complete(out0, rows, i),
        forall|g: int, h: int|
            0 <= g < h < out0.len() ==> (#[trigger] out0[g]).0 != (#[trigger] out0[h]).0,
        forall|a: int|
            0 <= a < out0[gi].1@.len() ==> (#[trigger] out0[gi].1@[a]).0 != rows[i].0.bucket,
        total as nat == cap(slots_total(rows[i].1@)),
        0 <= gi < out0.len(),
        out0[gi].0 == rows[i].0.sub_key,
        0 <= q <= out0[gi].1@.len(),
        out1.len() == out0.len(),
        forall|g: int| 0 <= g < out0.len() && g != gi ==> #[trigger] out1[g] == out0[g],
        out1[gi].0 == out0[gi].0,
        out1[gi].1@ == out0[gi].1@.insert(q, (rows[i].0.bucket, total)),
    ensures
        groups_values(out1, rows, i + 1),
{
    let sub = rows[i].0.sub_key;
    let bkt = rows[i].0.bucket;
    let series0 = out0[gi].1@;
    lemma_insert_index(series0, q, (bkt, total));
    lemma_fresh_bucket(out0, rows, i, gi, bkt);
    lemma_key_total_absent(rows, i, sub, bkt);
    assert forall|g: int, a: int|
        #![trigger out1[g].1@[a]]
        0 <= g < out1.len() && 0 <= a < out1[g].1@.len() implies out1[g].1@[a].1 as nat == cap(
        key_total(rows, i + 1, out1[g].0, out1[g].1@[a].0),
    ) by {
        if g != gi {
            assert(out1[g] == out0[g]);
            assert(out0[g].1@[a].1 as nat == cap(key_total(rows, i, out0[g].0, out0[g].1@[a].0)));
            if g < gi {
                assert(out0[g].0 != out0[gi].0);
            } else {
                assert(out0[gi].0 != out0[g].0);
            }
            assert(key_total(rows, i + 1, out0[g].0, out0[g].1@[a].0) == key_total(
                rows,
                i,
                out0[g].0,
                out0[g].1@[a].0,
            ));
        } else if a == q {
            assert(out1[gi].1@[a] == (bkt, total));
            assert(key_total(rows, i + 1, sub, bkt) == slots_total(rows[i].1@));
        } else {
            let a0 = if a < q {
                a
            } else {
                a - 1
            };
            assert(out1[gi].1@[a] == series0[a0]);
            assert(series0[a0].1 as nat == cap(key_total(rows, i, sub, series0[a0].0)));
            assert(series0[a0].0 != bkt);
            assert(key_total(rows, i + 1, sub, series0[a0].0) == key_total(
                rows,
                i,
                sub,
                series0[a0].0,
            ));
        }
    }
}

/// One grouping step where row `i` joins existing group `gi`: nothing
/// invented.
proof fn lemma_ins_member<T: Key>(
    out0: Seq<(T, Vec<(u32, u64)>)>,
    out1: Seq<(T, Vec<(u32, u64)>)>,
    rows: Seq<(KeyWrapper<T>, Vec<u64>)>,
    i: int,
    gi: int,
    q: int,
    total: u64,
)
    requires
        0 <= i < rows.len(),
        groups_member(out0, rows, i),
        0 <= gi < out0.len(),
        out0[gi].0 == rows[i].0.sub_key,
        0 <= q <= out0[gi].1@.len(),
        out1.len() == out0.len(),
        forall|g: int| 0 <= g < out0.len() && g != gi ==> #[trigger] out1[g] == out0[g],
        out1[gi].0 == out0[gi].0,
        out1[gi].1@ == out0[gi].1@.insert(q, (rows[i].0.bucket, total)),
    ensures
        groups_member(out1, rows, i + 1),
{
    let series0 = out0[gi].1@;
    lemma_insert_index(series0, q, (rows[i].0.bucket, total));
    assert forall|g: int, a: int|
        0 <= g < out1.len() && 0 <= a < out1[g].1@.len() implies #[trigger] point_from_rows(
        out1,
        rows,
        i + 1,
        g,
        a,
    ) by {
        if g != gi {
            assert(out1[g] == out0[g]);
            assert(out0[g].1@[a] == out1[g].1@[a]);
            assert(point_from_rows(out0, rows, i, g, a));
            let ii = choose|ii: int|
                #![trigger rows[ii]]
                0 <= ii < i && rows[ii].0.sub_key == out0[g].0 && rows[ii].0.bucket == out0[
                    g].1@[a].0;
            assert(0 <= ii < i + 1 && rows[ii].0.sub_key == out1[g].0 && rows[ii].0.bucket
                == out1[g].1@[a].0);
        } else if a == q {
            assert(0 <= i < i + 1 && rows[i].0.sub_key == out1[g].0 && rows[i].0.bucket == out1[
                g].1@[a].0);
        } else {
            let a0 = if a < q {
                a
            } else {
                a - 1
            };
            assert(out1[gi].1@[a] == series0[a0]);
            assert(out0[gi].1@[a0] == series0[a0]);
            assert(point_from_rows(out0, rows, i, gi, a0));
            let ii = choose|ii: int|
                #![trigger rows[ii]]
                0 <= ii < i && rows[ii].0.sub_key == out0[gi].0 && rows[ii].0.bucket == series0[
                    a0].0;
            assert(0 <= ii < i + 1 && rows[ii].0.sub_key == out1[g].0 && rows[ii].0.bucket
                == out1[g].1@[a].0);
        }
    }
}

/// One grouping step where row `i` joins existing group `gi`: nothing
/// missing.
proof fn lemma_ins_complete<T: Key>(
    out0: Seq<(T, Vec<(u32, u64)>)>,
    out1: Seq<(T, Vec<(u32, u64)>)>,
    rows: Seq<(KeyWrapper<T>, Vec<u64>)>,
    i: int,
    gi: int,
    q: int,
    total: u64,
)
    requires
        0 <= i < rows.len(),
        groups_complete(out0, rows, i),
        0 <= gi < out0.len(),
        out0[gi].0 == rows[i].0.sub_key,
        0 <= q <= out0[gi].1@.len(),
        out1.len() == out0.len(),
        forall|g: int| 0 <= g < out0.len() && g != gi ==> #[trigger] out1[g] == out0[g],
        out1[gi].0 == out0[gi].0,
        out1[gi].1@ == out0[gi].1@.insert(q, (rows[i].0.bucket, total)),
    ensures
        groups_complete(out1, rows, i + 1),
{
    let series0 = out0[gi].1@;
    lemma_insert_index(series0, q, (rows[i].0.bucket, total));
    assert forall|ii: int| 0 <= ii < i + 1 implies #[trigger] row_in_groups(out1, rows, ii) by {
        if ii < i {
            assert(row_in_groups(out0, rows, ii));
            let (g, a) = choose|g: int, a: int|
                #![trigger out0[g].1@[a]]
                0 <= g < out0.len() && out0[g].0 == rows[ii].0.sub_key && 0 <= a
                    < out0[g].1@.len() && out0[g].1@[a].0 == rows[ii].0.bucket;
            if g != gi {
                assert(out1[g] == out0[g]);
                assert(out1[g].1@[a] == out0[g].1@[a]);
                assert(0 <= g < out1.len() && out1[g].0 == rows[ii].0.sub_key && 0 <= a
                    < out1[g].1@.len() && out1[g].1@[a].0 == rows[ii].0.bucket);
            } else {
                let a2 = if a < q {
                    a
                } else {
                    a + 1
                };
                assert(out1[gi].1@[a2] == series0[a]);
                assert(0 <= gi < out1.len() && out1[gi].0 == rows[ii].0.sub_key && 0 <= a2
                    < out1[gi].1@.len() && out1[gi].1@[a2].0 == rows[ii].0.bucket);
            }
        } else {
            assert(out1[gi].1@[q] == (rows[i].0.bucket, total));
            assert(0 <= gi < out1.len() && out1[gi].0 == rows[ii].0.sub_key && 0 <= q < out1[
                gi].1@.len() && out1[gi].1@[q].0 == rows[ii].0.bucket);
        }
    }
}

/// One grouping step where row `i` joins existing group `gi`: the series
/// sums.
proof fn lemma_ins_totals<T: Key>(
    out0: Seq<(T, Vec<(u32, u64)>)>,
    out1: Seq<(T, Vec<(u32, u64)>)>,
    rows: Seq<(KeyWrapper<T>, Vec<u64>)>,
    i: int,
    gi: int,
    q: int,
    total: u64,
)
    requires
        0 <= i < rows.len(),
        groups_totals(out0, rows, i),
        forall|g: int, h: int|
            0 <= g < h < out0.len() ==> (#[trigger] out0[g]).0 != (#[trigger] out0[h]).0,
        total as nat == cap(slots_total(rows[i].1@)),
        0 <= gi < out0.len(),
        out0[gi].0 == rows[i].0.sub_key,
        0 <= q <= out0[gi].1@.len(),
        out1.len() == out0.len(),
        forall|g: int| 0 <= g < out0.len() && g != gi ==> #[trigger] out1[g] == out0[g],
        out1[gi].0 == out0[gi].0,
        out1[gi].1@ == out0[gi].1@.insert(q, (rows[i].0.bucket, total)),
    ensures
        groups_totals(out1, rows, i + 1),
{
    let sub = rows[i].0.sub_key;
    let series0 = out0[gi].1@;
    lemma_pair_sum_insert(series0, q, (rows[i].0.bucket, total));
    assert forall|g: int| 0 <= g < out1.len() implies pair_sum((#[trigger] out1[g]).1@)
        == capped_rows_total(rows, i + 1, out1[g].0) by {
        if g != gi {
            assert(out1[g] == out0[g]);
            if g < gi {
                assert(out0[g].0 != out0[gi].0);
            } else {
                assert(out0[gi].0 != out0[g].0);
            }
            assert(capped_rows_total(rows, i + 1, out0[g].0) == capped_rows_total(
                rows,
                i,
                out0[g].0,
            ));
        } else {
            assert(pair_sum(out1[gi].1@) == pair_sum(series0) + total as nat);
            assert(capped_rows_total(rows, i + 1, sub) == capped_rows_total(rows, i, sub) + cap(
                slots_total(rows[i].1@),
            ));
        }
    }
}

/// The index of the group carrying sub-key `sub`, if any.
fn find_group<T: Key>(out: &Vec<(T, Vec<(u32, u64)>)>, sub: &T) -> (r: Option<usize>)
    ensures
        match r {
            Some(g) => 0 <= g < out@.len() && out@[g as int].0 == *sub,
            None => forall|p: int| 0 <= p < out@.len() ==> (#[trigger] out@[p]).0 != *sub,
        },
{
    let n = out.len();
    let mut g: usize = 0;
    while g < n
        invariant
            g <= n,
            n == out@.len(),
            forall|p: int| 0 <= p < g ==> (#[trigger] out@[p]).0 != *sub,
        decreases n - g,
    {
        if out[g].0.eq_key(sub) {
            return Some(g);
        }
        g += 1;
    }
    None
}

/// Groups the table rows by sub-key: one group per distinct sub-key, its
/// buckets strictly ascending, each count the capped slot sum recorded
/// under its (sub-key, bucket), with every table row represented and no
/// point invented. The record keys must be pairwise distinct and the
/// buckets within the bucket math's range, as the keys of a table are.
#[verifier::rlimit(100)]
pub fn group_rows<T: Key>(rows: &Vec<(KeyWrapper<T>, Vec<u64>)>) -> (out: Vec<
    (T, Vec<(u32, u64)>),
>)
    requires
        forall|a: int, b: int|
            0 <= a < b < rows@.len() ==> (#[trigger] rows@[a]).0 != (#[trigger] rows@[b]).0,
        forall|j: int| 0 <= j < rows@.len() ==> (#[trigger] rows@[j]).0.bucket <= 64,
    ensures
        groups_wf(out@),
        groups_bound(out@),
        groups_values(out@, rows@, rows@.len() as int),
        groups_member(out@, rows@, rows@.len() as int),
        groups_complete(out@, rows@, rows@.len() as int),
        groups_totals(out@, rows@, rows@.len() as int),
{
    let mut out: Vec<(T, Vec<(u32, u64)>)> = Vec::new();
    let mut i: usize = 0;
    while i < rows.len()
        invariant
            i <= rows@.len(),
            forall|a: int, b: int|
                0 <= a < b < rows@.len() ==> (#[trigger] rows@[a]).0 != (#[trigger] rows@[b]).0,
            forall|j: int| 0 <= j < rows@.len() ==> (#[trigger] rows@[j]).0.bucket <= 64,
            groups_wf(out@),
            groups_bound(out@),
            groups_values(out@, rows@, i as int),
            groups_member(out@, rows@, i as int),
            groups_complete(out@, rows@, i as int),
            groups_totals(out@, rows@, i as int),
        decreases rows@.len() - i,
    {
        let total = sum_slots(&rows[i].1);
        let bucket = rows[i].0.bucket;
        let sub = rows[i].0.sub_key;
        let ghost out0 = out@;
        match find_group(&out, &sub) {
            None => {
                let mut series: Vec<(u32, u64)> = Vec::new();
                series.push((bucket, total));
                out.push((sub, series));
                proof {
                    lemma_new_wf(out0, out@, rows@, i as int, total);
                    lemma_new_values(out0, out@, rows@, i as int, total);
                    lemma_new_member(out0, out@, rows@, i as int, total);
                    lemma_new_complete(out0, out@, rows@, i as int, total);
                    lemma_new_totals(out0, out@, rows@, i as int, total);
                }
            },
            Some(gi) => {
                let ghost series0 = out@[gi as int].1@;
                proof {
                    lemma_series_fresh(out0, rows@, i as int, gi as int);
                }
                let (gsub, mut series) = out.remove(gi);
                insert_sorted(&mut series, bucket, total);
                out.insert(gi, (gsub, series));
                proof {
                    let q = choose|q: int|
                        0 <= q <= series0.len() && out@[gi as int].1@ == #[trigger] series0.insert(
                            q,
                            (bucket, total),
                        );
                    vstd::seq_lib::lemma_update_is_remove_insert(
                        out0,
                        gi as int,
                        out@[gi as int],
                    );
                    assert(out@ == out0.update(gi as int, out@[gi as int]));
                    lemma_ins_wf(out0, out@, rows@, i as int, gi as int, q, total);
                    lemma_ins_values(out0, out@, rows@, i as int, gi as int, q, total);
                    lemma_ins_member(out0, out@, rows@, i as int, gi as int, q, total);
                    lemma_ins_complete(out0, out@, rows@, i as int, gi as int, q, total);
                    lemma_ins_totals(out0, out@, rows@, i as int, gi as int, q, total);
                }
            },
        }
        i += 1;
    }
    out
}

/// Converts a per-bucket series of exact counts into the cumulative
/// ("less-or-equal") form: the point at position `p` carries the sum of
/// all counts up to and including position `p`, saturating at the counter
/// limit, so the series is non-decreasing and ends at the group's total.
pub fn cumulate(series: &Vec<(u32, u64)>) -> (out: Vec<(u32, u64)>)
    ensures
        out@.len() == series@.len(),
        forall|p: int| 0 <= p < out@.len() ==> (#[trigger] out@[p]).0 == series@[p].0,
        forall|p: int|
            0 <= p < out@.len() ==> (#[trigger] out@[p]).1 as nat == cap(
                pair_sum(series@.take(p + 1)),
            ),
        forall|p: int| 0 < p < out@.len() ==> (#[trigger] out@[p]).1 >= out@[p - 1].1,
        out@.len() > 0 ==> out@.last().1 as nat == cap(pair_sum(series@)),
{
    let mut out: Vec<(u32, u64)> = Vec::new();
    let mut running: u64 = 0;
    let mut p: usize = 0;
    proof {
        assert(series@.take(0) =~= Seq::<(u32, u64)>::empty());
    }
    while p < series.len()
        invariant
            p <= series@.len(),
            out@.len() == p,
            running as nat == cap(pair_sum(series@.take(p as int))),
            forall|j: int| 0 <= j < p ==> (#[trigger] out@[j]).0 == series@[j].0,
            forall|j: int|
                0 <= j < p ==> (#[trigger] out@[j]).1 as nat == cap(
                    pair_sum(series@.take(j + 1)),
                ),
            forall|j: int| 0 < j < p ==> (#[trigger] out@[j]).1 >= out@[j - 1].1,
        decreases series@.len() - p,
    {
        let ghost pre = series@.take(p as int);
        running = running.saturating_add(series[p].1);
        out.push((series[p].0, running));
        p += 1;
        proof {
            assert(series@.take(p as int).drop_last() =~= pre);
        }
    }
    proof {
        assert(series@.take(series@.len() as int) =~= series@);
    }
    out
}

/// The label of a bucket on export, per the rendering choice.
pub open spec fn spec_bucket_label(bucket: u32, r: BucketRendering) -> Seq<char> {
    match r {
        BucketRendering::RawExponent => dec_digits(bucket as nat),
        BucketRendering::PowerOfTwo => dec_digits(pow2(bucket as nat)),
    }
}

/// Renders one bucket label, either as the raw exponent or decoded as the
/// power of two it stands for.
pub fn bucket_label(bucket: u32, r: BucketRendering) -> (s: String)
    requires
        bucket <= 64,
    ensures
        s@ == spec_bucket_label(bucket, r),
{
    match r {
        BucketRendering::RawExponent => u128_to_decimal(bucket as u128),
        BucketRendering::PowerOfTwo => u128_to_decimal(pow2_u128(bucket)),
    }
}

/// Renders one cumulative series for export: each point carries the
/// rendered bucket label and the cumulative count.
pub fn render_series(series: &Vec<(u32, u64)>, r: BucketRendering) -> (out: Vec<(String, u64)>)
    requires
        forall|p: int| 0 <= p < series@.len() ==> (#[trigger] series@[p]).0 <= 64,
    ensures
        out@.len() == series@.len(),
        forall|p: int|
            0 <= p < out@.len() ==> (#[trigger] out@[p]).0@ == spec_bucket_label(
                series@[p].0,
                r,
            ) && out@[p].1 == series@[p].1,
{
    let mut out: Vec<(String, u64)> = Vec::new();
    let mut p: usize = 0;
    while p < series.len()
        invariant
            p <= series@.len(),
            out@.len() == p,
            forall|j: int| 0 <= j < series@.len() ==> (#[trigger] series@[j]).0 <= 64,
            forall|j: int|
                0 <= j < p ==> (#[trigger] out@[j]).0@ == spec_bucket_label(series@[j].0, r)
                    && out@[j].1 == series@[j].1,
        decreases series@.len() - p,
    {
        let label = bucket_label(series[p].0, r);
        out.push((label, series[p].1));
        p += 1;
    }
    out
}

/// The collector: owns the accumulation table together with the export
/// configuration fixed at construction.
pub struct Histogram<T: Key> {
    store: BpfHistogram<T>,
    metric_name: String,
    help_text: String,
    label_names: Vec<String>,
    rendering: BucketRendering,
}

impl<T: Key> Histogram<T> {
    /// The rows of the underlying table.
    pub closed spec fn rows(self) -> Seq<(crate::record::Key<T>, Seq<u64>)> {
        self.store.rows()
    }

    /// The underlying table is well formed.
    pub closed spec fn wf(self) -> bool {
        self.store.wf()
    }

    /// The capacity of the underlying table.
    pub closed spec fn spec_capacity(self) -> u32 {
        self.store.capacity()
    }

    /// The rendering choice fixed at construction.
    pub closed spec fn spec_rendering(self) -> BucketRendering {
        self.rendering
    }

    /// The label names recorded at construction.
    pub closed spec fn spec_label_names(self) -> Seq<String> {
        self.label_names@
    }

    /// The metric name fixed at construction.
    pub closed spec fn spec_metric_name(self) -> Seq<char> {
        self.metric_name@
    }

    /// The help text fixed at construction.
    pub closed spec fn spec_help_text(self) -> Seq<char> {
        self.help_text@
    }

    /// Builds a collector over an accumulation table. The sub-key type's
    /// label lists are checked once, here: construction fails with
    /// `LabelArityMismatch` when the type's label-name list and the sample
    /// instance's label-value list disagree in length, so a malformed
    /// sub-key type is rejected before any observation can occur.
    pub fn new_from_map(
        map: BpfHistogram<T>,
        sample: &T,
        metric_name: String,
        help_text: String,
        rendering: BucketRendering,
    ) -> (r: Result<Histogram<T>, HistogramError>)
        requires
            map.wf(),
        ensures
            match r {
                Ok(h) => h.wf() && h.rows() == map.rows() && h.spec_rendering() == rendering
                    && h.spec_metric_name() == metric_name@ && h.spec_help_text() == help_text@,
                Err(e) => e == HistogramError::LabelArityMismatch,
            },
    {
        let names = T::get_label_keys();
        let values = sample.get_label_values();
        match validate_labels(&names, &values) {
            Ok(()) => Ok(
                Histogram { store: map, metric_name, help_text, label_names: names, rendering },
            ),
            Err(e) => Err(e),
        }
    }

    /// The stored label names, as returned by the sub-key type at
    /// construction.
    pub fn label_names(&self) -> (r: &Vec<String>)
        ensures
            r@ == self.spec_label_names(),
    {
        &self.label_names
    }

    /// The metric name.
    pub fn metric_name(&self) -> (r: &String)
        ensures
            r@ == self.spec_metric_name(),
    {
        &self.metric_name
    }

    /// The help text.
    pub fn help_text(&self) -> (r: &String)
        ensures
            r@ == self.spec_help_text(),
    {
        &self.help_text
    }

    /// The rendering choice.
    pub fn rendering(&self) -> (r: BucketRendering)
        ensures
            r == self.spec_rendering(),
    {
        self.rendering
    }

    /// The write path, forwarded to the table: buckets the value and steps
    /// the owning partition's slot, dropping the observation silently when
    /// the table is full and the key is new.
    pub fn observe(&mut self, sub_key: T, value: u64, cpu: usize) -> (recorded: bool)
        requires
            old(self).wf(),
            cpu < usize::MAX,
        ensures
            final(self).wf(),
            final(self).spec_rendering() == old(self).spec_rendering(),
            final(self).spec_capacity() == old(self).spec_capacity(),
            final(self).spec_metric_name() == old(self).spec_metric_name(),
            final(self).spec_help_text() == old(self).spec_help_text(),
            final(self).spec_label_names() == old(self).spec_label_names(),
            ({
                let k = (crate::record::Key { bucket: crate::bucket::bucket_of(value), sub_key });
                if old(self).has_key(k) {
                    recorded && forall|i: int|
                        0 <= i < old(self).rows().len() && (#[trigger] old(self).rows()[i]).0 == k
                            ==> final(self).rows() == old(self).rows().update(
                            i,
                            (k, crate::store::bump(old(self).rows()[i].1, cpu as int)),
                        )
                } else if old(self).rows().len() < old(self).spec_capacity() {
                    recorded && final(self).rows() == old(self).rows().push(
                        (k, crate::store::bump(Seq::empty(), cpu as int)),
                    )
                } else {
                    !recorded && final(self).rows() == old(self).rows()
                }
            }),
    {
        self.store.observe(sub_key, value, cpu)
    }

    /// Whether some row is stored under the record key `k`.
    pub open spec fn has_key(self, k: crate::record::Key<T>) -> bool {
        exists|i: int| 0 <= i < self.rows().len() && (#[trigger] self.rows()[i]).0 == k
    }

    /// The read path: a one-shot aggregation of the whole table into one
    /// cumulative series per sub-key. Sub-keys are pairwise distinct and
    /// in no particular order; within each series the buckets ascend
    /// strictly, every bucket index is one the bucket math can produce,
    /// and the cumulative counts never decrease. Calling it again without
    /// intervening observations yields the same result: it never mutates.
    pub fn snapshot(&self) -> (out: Vec<(T, Vec<(u32, u64)>)>)
        requires
            self.wf(),
        ensures
            groups_wf(out@),
            forall|g: int, a: int|
                #![trigger out@[g].1@[a]]
                0 <= g < out@.len() && 0 < a < out@[g].1@.len() ==> out@[g].1@[a].1 >= out@[g].1@[
                    a - 1].1,
            forall|g: int, a: int|
                #![trigger out@[g].1@[a]]
                0 <= g < out@.len() && 0 <= a < out@[g].1@.len() ==> out@[g].1@[a].0 <= 64,
            exists|wrows: Seq<(KeyWrapper<T>, Vec<u64>)>|
                #![trigger wrows.len()]
                {
                    let n = self.rows().len() as int;
                    &&& wrows.len() == self.rows().len()
                    &&& forall|j: int|
                        #![trigger wrows[j]]
                        0 <= j < n ==> wrows[j].0.bucket == self.rows()[j].0.bucket
                            && wrows[j].0.sub_key == self.rows()[j].0.sub_key && wrows[j].1@
                            == self.rows()[j].1
                    &&& groups_member(out@, wrows, n)
                    &&& groups_complete(out@, wrows, n)
                    &&& forall|g: int, a: int|
                        #![trigger out@[g].1@[a]]
                        0 <= g < out@.len() && 0 <= a < out@[g].1@.len() ==> out@[g].1@[a].1
                            as nat == cap(series_cum(wrows, n, out@[g].0, out@[g].1@, a))
                    &&& forall|g: int|
                        0 <= g < out@.len() ==> (#[trigger] out@[g]).1@.last().1 as nat == cap(
                            rows_total(wrows, n, out@[g].0),
                        )
                },
    {
        let raw = self.store.iterate();
        let mut rows: Vec<(KeyWrapper<T>, Vec<u64>)> = Vec::new();
        let mut i: usize = 0;
        while i < raw.len()
            invariant
                self.wf(),
                raw@.len() == self.rows().len(),
                forall|j: int|
                    0 <= j < raw@.len() ==> (#[trigger] raw@[j]).0 == self.rows()[j].0 && raw@[
                        j].1@ == self.rows()[j].1,
                i <= raw@.len(),
                rows@.len() == i,
                forall|j: int|
                    0 <= j < i ==> (#[trigger] rows@[j]).0.bucket == self.rows()[j].0.bucket
                        && rows@[j].0.sub_key == self.rows()[j].0.sub_key && rows@[j].1@
                        == self.rows()[j].1,
            decreases raw@.len() - i,
        {
            let slots = copy_slots(&raw[i].1);
            rows.push((KeyWrapper { bucket: raw[i].0.bucket, sub_key: raw[i].0.sub_key }, slots));
            i += 1;
        }
        proof {
            assert forall|a: int, b: int|
                0 <= a < b < rows@.len() implies (#[trigger] rows@[a]).0 != (
            #[trigger] rows@[b]).0 by {
                assert(self.rows()[a].0 != self.rows()[b].0);
                if rows@[a].0 == rows@[b].0 {
                    assert(self.rows()[a].0.bucket == self.rows()[b].0.bucket);
                    assert(self.rows()[a].0.sub_key == self.rows()[b].0.sub_key);
                }
            }
            assert forall|j: int| 0 <= j < rows@.len() implies (#[trigger] rows@[j]).0.bucket
                <= 64 by {
                assert(1 <= self.rows()[j].0.bucket <= 64);
            }
        }
        let groups = group_rows(&rows);
        let ghost wrows = rows@;
        let ghost n = self.rows().len() as int;
        let mut out: Vec<(T, Vec<(u32, u64)>)> = Vec::new();
        let mut g: usize = 0;
        while g < groups.len()
            invariant
                g <= groups@.len(),
                out@.len() == g,
                n == wrows.len() as int,
                n == self.rows().len() as int,
                forall|j: int|
                    #![trigger wrows[j]]
                    0 <= j < n ==> wrows[j].0.bucket == self.rows()[j].0.bucket && wrows[
                        j].0.sub_key == self.rows()[j].0.sub_key && wrows[j].1@ == self.rows()[
                        j].1,
                groups_wf(groups@),
                groups_bound(groups@),
                groups_member(groups@, wrows, n),
                groups_complete(groups@, wrows, n),
                groups_totals(groups@, wrows, n),
                forall|h: int| 0 <= h < g ==> (#[trigger] out@[h]).0 == groups@[h].0,
                forall|h: int|
                    0 <= h < g ==> (#[trigger] out@[h]).1@.len() == groups@[h].1@.len(),
                forall|h: int, a: int|
                    #![trigger out@[h].1@[a]]
                    0 <= h < g && 0 <= a < out@[h].1@.len() ==> out@[h].1@[a].0 == groups@[h].1@[
                        a].0,
                forall|h: int, a: int|
                    #![trigger out@[h].1@[a]]
                    0 <= h < g && 0 < a < out@[h].1@.len() ==> out@[h].1@[a].1 >= out@[h].1@[a
                        - 1].1,
                forall|h: int|
                    0 <= h < g ==> (#[trigger] out@[h]).1@.len() >= 1 && out@[h].1@.last().1
                        as nat == cap(rows_total(wrows, n, out@[h].0)),
                groups_values(groups@, wrows, n),
                forall|h: int, a: int|
                    #![trigger out@[h].1@[a]]
                    0 <= h < g && 0 <= a < out@[h].1@.len() ==> out@[h].1@[a].1 as nat == cap(
                        series_cum(wrows, n, out@[h].0, out@[h].1@, a),
                    ),
            decreases groups@.len() - g,
        {
            let series = cumulate(&groups[g].1);
            proof {
                assert(groups@[g as int].1@.len() >= 1);
                lemma_cap_rows_total(wrows, n, groups@[g as int].0);
                assert(pair_sum(groups@[g as int].1@) == capped_rows_total(
                    wrows,
                    n,
                    groups@[g as int].0,
                ));
                let gseries = groups@[g as int].1@;
                let gsub = groups@[g as int].0;
                assert forall|a: int| 0 <= a < series@.len() implies (#[trigger] series@[a]).1
                    as nat == cap(series_cum(wrows, n, gsub, series@, a)) by {
                    lemma_series_cum(wrows, n, gsub, gseries, a);
                    assert(series@[a].1 as nat == cap(pair_sum(gseries.take(a + 1))));
                    lemma_series_cum_buckets(wrows, n, gsub, series@, gseries, a);
                }
            }
            out.push((groups[g].0, series));
            g += 1;
        }
        proof {
            assert forall|gg: int, a: int|
                0 <= gg < out@.len() && 0 <= a < out@[gg].1@.len() implies #[trigger] point_from_rows(
                out@,
                wrows,
                n,
                gg,
                a,
            ) by {
                assert(out@[gg].1@[a].0 == groups@[gg].1@[a].0);
                assert(point_from_rows(groups@, wrows, n, gg, a));
                let ii = choose|ii: int|
                    #![trigger wrows[ii]]
                    0 <= ii < n && wrows[ii].0.sub_key == groups@[gg].0 && wrows[ii].0.bucket
                        == groups@[gg].1@[a].0;
                assert(0 <= ii < n && wrows[ii].0.sub_key == out@[gg].0 && wrows[ii].0.bucket
                    == out@[gg].1@[a].0);
            }
            assert forall|ii: int| 0 <= ii < n implies #[trigger] row_in_groups(
                out@,
                wrows,
                ii,
            ) by {
                assert(row_in_groups(groups@, wrows, ii));
                let (gg, a) = choose|gg: int, a: int|
                    #![trigger groups@[gg].1@[a]]
                    0 <= gg < groups@.len() && groups@[gg].0 == wrows[ii].0.sub_key && 0 <= a
                        < groups@[gg].1@.len() && groups@[gg].1@[a].0 == wrows[ii].0.bucket;
                assert(out@[gg].1@[a].0 == groups@[gg].1@[a].0);
                assert(0 <= gg < out@.len() && out@[gg].0 == wrows[ii].0.sub_key && 0 <= a
                    < out@[gg].1@.len() && out@[gg].1@[a].0 == wrows[ii].0.bucket);
            }
            assert(wrows.len() == self.rows().len());
            assert(forall|j: int|
                #![trigger wrows[j]]
                0 <= j < n ==> wrows[j].0.bucket == self.rows()[j].0.bucket && wrows[
                    j].0.sub_key == self.rows()[j].0.sub_key && wrows[j].1@ == self.rows()[
                    j].1);
            assert(groups_member(out@, wrows, n));
            assert(groups_complete(out@, wrows, n));
            assert(forall|gg: int|
                0 <= gg < out@.len() ==> (#[trigger] out@[gg]).1@.last().1 as nat == cap(
                    rows_total(wrows, n, out@[gg].0),
                ));
        }
        out
    }
}


} // verus!
