//! The write path: a fixed-capacity table from record keys to per-partition
//! counter arrays. Each slot of a row is owned by one logical partition and
//! is only ever stepped by an observation running on that partition, so no
//! cross-partition synchronization is needed. Entries appear lazily on first
//! observation and are never removed; once the table is full, an observation
//! under a new distinct key is silently dropped.

use crate::bucket::{bucket_of, lemma_bucket_of_bound};
use crate::record::Key;
use crate::subkey::Key as SubKey;
use vstd::prelude::*;

verus! {

/// Saturating counter arithmetic: a slot never wraps, it sticks at the limit.
pub open spec fn sat_add(a: nat, b: nat) -> u64 {
    if a + b > u64::MAX {
        u64::MAX
    } else {
        (a + b) as u64
    }
}

/// The slot array after one observation on partition `cpu`: the array is
/// first padded with zeroed slots so that slot `cpu` exists, then that slot
/// is stepped by one, saturating at the counter limit.
pub open spec fn bump(s: Seq<u64>, cpu: int) -> Seq<u64> {
    let p = if s.len() > cpu {
        s
    } else {
        s + Seq::new((cpu + 1 - s.len()) as nat, |i: int| 0u64)
    };
    p.update(cpu, sat_add(p[cpu] as nat, 1))
}

/// The sum of all partition slots of one row, as a mathematical integer.
pub open spec fn slots_total(s: Seq<u64>) -> nat
    decreases s.len(),
{
    if s.len() == 0 {
        0
    } else {
        slots_total(s.drop_last()) + s.last() as nat
    }
}

/// The accumulation table. `T` is the caller's sub-key payload; the full
/// record key pairs it with a bucket index.
pub struct BpfHistogram<T> {
    entries: Vec<(Key<T>, Vec<u64>)>,
    max_entries: u32,
}

impl<T: SubKey> BpfHistogram<T> {
    /// The table contents: one row per record key, in insertion order.
    pub closed spec fn rows(self) -> Seq<(Key<T>, Seq<u64>)> {
        Seq::new(self.entries@.len(), |i: int| (self.entries@[i].0, self.entries@[i].1@))
    }

    /// The capacity fixed at construction.
    pub closed spec fn capacity(self) -> u32 {
        self.max_entries
    }

    /// Record keys are pairwise distinct, the table respects its capacity,
    /// and every bucket index came from the bucket math.
    pub open spec fn wf(self) -> bool {
        &&& forall|i: int, j: int|
            0 <= i < j < self.rows().len() ==> (#[trigger] self.rows()[i]).0 != (
            #[trigger] self.rows()[j]).0
        &&& self.rows().len() <= self.capacity()
        &&& forall|i: int| 0 <= i < self.rows().len() ==> 1 <= (#[trigger] self.rows()[i]).0.bucket <= 64
    }

    /// Whether some row is stored under the record key `k`.
    pub open spec fn has_key(self, k: Key<T>) -> bool {
        exists|i: int| 0 <= i < self.rows().len() && (#[trigger] self.rows()[i]).0 == k
    }

    /// Creates an empty table with the given capacity. The flags argument
    /// mirrors the creation interface of a kernel-side table; this in-memory
    /// table accepts it and ignores it.
    pub fn with_max_entries(max_entries: u32, _flags: u32) -> (h: BpfHistogram<T>)
        ensures
            h.wf(),
            h.rows().len() == 0,
            h.capacity() == max_entries,
    {
        BpfHistogram { entries: Vec::new(), max_entries }
    }

    /// The index of the row stored under the given key, if any.
    fn find(&self, bucket: u32, sub_key: &T) -> (r: Option<usize>)
        ensures
            match r {
                Some(i) => 0 <= i < self.rows().len() && (self.rows()[i as int]).0 == (Key {
                    bucket,
                    sub_key: *sub_key,
                }),
                None => !self.has_key((Key { bucket, sub_key: *sub_key })),
            },
    {
        let n = self.entries.len();
        let mut i: usize = 0;
        while i < n
            invariant
                i <= n,
                n == self.entries@.len(),
                forall|j: int|
                    0 <= j < i ==> (#[trigger] self.rows()[j]).0 != (Key {
                        bucket,
                        sub_key: *sub_key,
                    }),
            decreases n - i,
        {
            if self.entries[i].0.bucket == bucket && self.entries[i].0.sub_key.eq_key(sub_key) {
                return Some(i);
            }
            i += 1;
        }
        None
    }

    /// A one-shot read of the whole table: a copy of every row, in storage
    /// order. Readers never mutate and writers never delete, so the copy is
    /// a consistent snapshot of the rows that existed when it was taken.
    pub fn iterate(&self) -> (out: Vec<(Key<T>, Vec<u64>)>)
        ensures
            out@.len() == self.rows().len(),
            forall|i: int|
                0 <= i < out@.len() ==> (#[trigger] out@[i]).0 == self.rows()[i].0 && out@[i].1@
                    == self.rows()[i].1,
    {
        let mut out: Vec<(Key<T>, Vec<u64>)> = Vec::new();
        let mut i: usize = 0;
        while i < self.entries.len()
            invariant
                i <= self.entries@.len(),
                out@.len() == i,
                forall|j: int|
                    0 <= j < i ==> (#[trigger] out@[j]).0 == self.rows()[j].0 && out@[j].1@
                        == self.rows()[j].1,
            decreases self.entries@.len() - i,
        {
            let slots = copy_slots(&self.entries[i].1);
            out.push((self.entries[i].0, slots));
            i += 1;
        }
        out
    }

    /// The hot path: buckets the value, then steps the owning partition's
    /// slot for the resulting record key, creating the row on its first
    /// observation. When the table is full and the key is new, the
    /// observation is silently dropped: no counter moves, no existing row
    /// changes, and no error reaches the instrumentation point. The returned
    /// flag reports whether the observation was recorded; a caller on the
    /// hot path may ignore it.
    pub fn observe(&mut self, sub_key: T, value: u64, cpu: usize) -> (recorded: bool)
        requires
            old(self).wf(),
            cpu < usize::MAX,
        ensures
            final(self).wf(),
            final(self).capacity() == old(self).capacity(),
            ({
                let k = (Key { bucket: bucket_of(value), sub_key });
                if old(self).has_key(k) {
                    recorded && forall|i: int|
                        0 <= i < old(self).rows().len() && (#[trigger] old(self).rows()[i]).0 == k
                            ==> final(self).rows() == old(self).rows().update(
                            i,
                            (k, bump(old(self).rows()[i].1, cpu as int)),
                        )
                } else if old(self).rows().len() < old(self).capacity() {
                    recorded && final(self).rows() == old(self).rows().push(
                        (k, bump(Seq::empty(), cpu as int)),
                    )
                } else {
                    !recorded && final(self).rows() == old(self).rows()
                }
            }),
    {
        let bucket = crate::bucket::bpf_log2l(value);
        let ghost k = (Key { bucket, sub_key });
        match self.find(bucket, &sub_key) {
            Some(i) => {
                let ghost entries0 = self.entries@;
                proof {
                    assert(old(self).rows()[i as int] == (entries0[i as int].0, entries0[i as int].1@));
                    assert(entries0[i as int].0 == k);
                }
                let (rkey, mut slots) = self.entries.remove(i);
                proof {
                    assert(rkey == k);
                }
                let ghost slots0 = slots@;
                if slots.len() <= cpu {
                    proof {
                        assert(slots0 + Seq::new(0, |q: int| 0u64) =~= slots0);
                    }
                    while slots.len() <= cpu
                        invariant
                            cpu < usize::MAX,
                            slots0.len() <= slots@.len() <= cpu + 1,
                            slots@ == slots0 + Seq::new(
                                (slots@.len() - slots0.len()) as nat,
                                |q: int| 0u64,
                            ),
                        decreases cpu + 1 - slots@.len(),
                    {
                        slots.push(0);
                        proof {
                            assert(slots@ =~= slots0 + Seq::new(
                                (slots@.len() - slots0.len()) as nat,
                                |q: int| 0u64,
                            ));
                        }
                    }
                }
                let cur: u64 = slots[cpu];
                slots[cpu] = cur.saturating_add(1);
                proof {
                    assert(slots@ =~= bump(slots0, cpu as int));
                }
                let ghost rowg = (rkey, slots);
                self.entries.insert(i, (rkey, slots));
                proof {
                    vstd::seq_lib::lemma_update_is_remove_insert(entries0, i as int, rowg);
                    assert(self.entries@ == entries0.update(i as int, rowg));
                    assert(rowg.0 == k);
                    assert(self.rows() =~= old(self).rows().update(
                        i as int,
                        (k, bump(slots0, cpu as int)),
                    ));
                    assert forall|p: int|
                        0 <= p < old(self).rows().len() && (#[trigger] old(self).rows()[p]).0 == k
                        implies p == i by {
                        if p < i {
                            assert(old(self).rows()[p].0 != old(self).rows()[i as int].0);
                        } else if p > i {
                            assert(old(self).rows()[i as int].0 != old(self).rows()[p].0);
                        }
                    }
                    assert forall|p: int, q: int|
                        0 <= p < q < self.rows().len() implies (#[trigger] self.rows()[p]).0 != (
                    #[trigger] self.rows()[q]).0 by {
                        assert(self.rows()[p].0 == old(self).rows()[p].0);
                        assert(self.rows()[q].0 == old(self).rows()[q].0);
                        assert(old(self).rows()[p].0 != old(self).rows()[q].0);
                    }
                }
                true
            },
            None => {
                if self.entries.len() < self.max_entries as usize {
                    let mut slots: Vec<u64> = Vec::new();
                    let mut j: usize = 0;
                    while j < cpu
                        invariant
                            j <= cpu,
                            cpu < usize::MAX,
                            slots@ == Seq::new(j as nat, |q: int| 0u64),
                        decreases cpu - j,
                    {
                        slots.push(0);
                        j += 1;
                        proof {
                            assert(slots@ =~= Seq::new(j as nat, |q: int| 0u64));
                        }
                    }
                    slots.push(1);
                    proof {
                        lemma_bucket_of_bound(value);
                        assert(slots@ =~= bump(Seq::empty(), cpu as int));
                    }
                    let ghost rows0 = self.rows();
                    self.entries.push((Key { bucket, sub_key }, slots));
                    proof {
                        assert(self.rows() =~= rows0.push((k, bump(Seq::empty(), cpu as int))));
                    }
                    true
                } else {
                    false
                }
            },
        }
    }
}

/// Copies one row's slot array.
pub(crate) fn copy_slots(s: &Vec<u64>) -> (out: Vec<u64>)
    ensures
        out@ == s@,
{
    let mut out: Vec<u64> = Vec::new();
    proof {
        assert(Seq::<u64>::empty() =~= s@.take(0));
    }
    let mut i: usize = 0;
    while i < s.len()
        invariant
            i <= s@.len(),
            out@ == s@.take(i as int),
        decreases s@.len() - i,
    {
        out.push(s[i]);
        i += 1;
        proof {
            assert(out@ =~= s@.take(i as int));
        }
    }
    proof {
        assert(s@.take(s@.len() as int) =~= s@);
    }
    out
}

/// The slot array after `n` observations of one record key on partition
/// `cpu`, starting from `s`.
pub open spec fn bump_n(s: Seq<u64>, cpu: int, n: nat) -> Seq<u64>
    decreases n,
{
    if n == 0 {
        s
    } else {
        bump(bump_n(s, cpu, (n - 1) as nat), cpu)
    }
}

/// An all-zero slot array sums to zero.
proof fn lemma_slots_total_zeros(m: nat)
    ensures
        slots_total(Seq::new(m, |i: int| 0u64)) == 0,
    decreases m,
{
    if m > 0 {
        let s = Seq::new(m, |i: int| 0u64);
        assert(s.drop_last() =~= Seq::new((m - 1) as nat, |i: int| 0u64));
        lemma_slots_total_zeros((m - 1) as nat);
    }
}

/// Replacing one slot moves the row's sum by the difference.
pub proof fn lemma_slots_total_update(s: Seq<u64>, i: int, v: u64)
    requires
        0 <= i < s.len(),
    ensures
        slots_total(s.update(i, v)) == slots_total(s) - s[i] + v,
    decreases s.len(),
{
    if i == s.len() - 1 {
        assert(s.update(i, v).drop_last() =~= s.drop_last());
    } else {
        assert(s.update(i, v).drop_last() =~= s.drop_last().update(i, v));
        lemma_slots_total_update(s.drop_last(), i, v);
    }
}

/// Observing the same (sub-key, value) pair `n` times on a single
/// simulated partition, starting from a fresh row, drives that partition's
/// slot to exactly `n` and leaves every other slot at zero, so the sum
/// over all partitions equals the total number of observations. Stated
/// within the counter limit; beyond it the slot saturates.
pub proof fn lemma_repeat_single_partition(cpu: int, n: nat)
    requires
        cpu >= 0,
        1 <= n <= u64::MAX,
    ensures
        ({
            let s = bump_n(Seq::empty(), cpu, n);
            &&& s.len() == cpu + 1
            &&& s[cpu] == n
            &&& forall|j: int| 0 <= j < s.len() && j != cpu ==> s[j] == 0
            &&& slots_total(s) == n
        }),
    decreases n,
{
    if n == 1 {
        let p = Seq::new((cpu + 1) as nat, |i: int| 0u64);
        assert(Seq::<u64>::empty() + p =~= p);
        let s = bump_n(Seq::empty(), cpu, 1);
        assert(s == p.update(cpu, sat_add(p[cpu] as nat, 1)));
        lemma_slots_total_zeros((cpu + 1) as nat);
        lemma_slots_total_update(p, cpu, 1u64);
    } else {
        lemma_repeat_single_partition(cpu, (n - 1) as nat);
        let s0 = bump_n(Seq::empty(), cpu, (n - 1) as nat);
        let s = bump(s0, cpu);
        assert(s == s0.update(cpu, sat_add(s0[cpu] as nat, 1)));
        lemma_slots_total_update(s0, cpu, sat_add(s0[cpu] as nat, 1));
    }
}

/// Appending zeroed slots leaves a row's sum unchanged.
proof fn lemma_slots_total_pad(s: Seq<u64>, m: nat)
    ensures
        slots_total(s + Seq::new(m, |i: int| 0u64)) == slots_total(s),
    decreases m,
{
    if m == 0 {
        assert(s + Seq::new(0, |i: int| 0u64) =~= s);
    } else {
        assert((s + Seq::new(m, |i: int| 0u64)).drop_last() =~= s + Seq::new(
            (m - 1) as nat,
            |i: int| 0u64,
        ));
        assert((s + Seq::new(m, |i: int| 0u64)).last() == 0u64);
        lemma_slots_total_pad(s, (m - 1) as nat);
    }
}

/// No slot exceeds its row's sum.
proof fn lemma_slot_le_total(s: Seq<u64>, j: int)
    requires
        0 <= j < s.len(),
    ensures
        s[j] as nat <= slots_total(s),
    decreases s.len(),
{
    if j < s.len() - 1 {
        lemma_slot_le_total(s.drop_last(), j);
        assert(s.drop_last()[j] == s[j]);
    }
}

/// One observation adds exactly one to its row's sum, short of
/// saturation.
pub proof fn lemma_bump_total(s: Seq<u64>, cpu: int)
    requires
        cpu >= 0,
        slots_total(s) < u64::MAX,
    ensures
        slots_total(bump(s, cpu)) == slots_total(s) + 1,
{
    if s.len() > cpu {
        lemma_slot_le_total(s, cpu);
        lemma_slots_total_update(s, cpu, sat_add(s[cpu] as nat, 1));
    } else {
        let p = s + Seq::new((cpu + 1 - s.len()) as nat, |i: int| 0u64);
        lemma_slots_total_pad(s, (cpu + 1 - s.len()) as nat);
        assert(p[cpu] == 0u64);
        lemma_slots_total_update(p, cpu, sat_add(p[cpu] as nat, 1));
    }
}

/// One row's slot array after a run of observations of its record key,
/// each landing on the partition given by the corresponding entry.
pub open spec fn bump_seq(s: Seq<u64>, cpus: Seq<int>) -> Seq<u64>
    decreases cpus.len(),
{
    if cpus.len() == 0 {
        s
    } else {
        bump(bump_seq(s, cpus.drop_last()), cpus.last())
    }
}

/// M observations of one record key, distributed over arbitrary
/// partitions and starting from a fresh row, sum to M across all
/// partitions: the per-partition counts add up to the total number of
/// observations. Stated within the counter limit; beyond it a slot
/// saturates.
pub proof fn lemma_observations_sum(cpus: Seq<int>)
    requires
        cpus.len() <= u64::MAX,
        forall|j: int| 0 <= j < cpus.len() ==> #[trigger] cpus[j] >= 0,
    ensures
        slots_total(bump_seq(Seq::empty(), cpus)) == cpus.len(),
    decreases cpus.len(),
{
    if cpus.len() > 0 {
        assert(forall|j: int|
            0 <= j < cpus.drop_last().len() ==> #[trigger] cpus.drop_last()[j] == cpus[j]);
        lemma_observations_sum(cpus.drop_last());
        lemma_bump_total(bump_seq(Seq::empty(), cpus.drop_last()), cpus.last());
    }
}

} // verus!
