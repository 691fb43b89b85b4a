use histogram::{
    bpf_log2, bpf_log2l, bucket_label, cumulate, u128_to_decimal, validate_labels, BpfHistogram,
    BucketRendering, Histogram, HistogramError, Key,
};

#[derive(Clone, Copy, PartialEq, Eq, Debug, Hash)]
struct NameKey(&'static str);

impl Key for NameKey {
    fn eq_key(&self, other: &Self) -> bool {
        self.0 == other.0
    }
    fn get_label_keys() -> Vec<String> {
        vec![String::from("name")]
    }
    fn get_label_values(&self) -> Vec<String> {
        vec![String::from(self.0)]
    }
}

#[derive(Clone, Copy, PartialEq, Eq, Debug)]
struct BadKey;

impl Key for BadKey {
    fn eq_key(&self, _other: &Self) -> bool {
        true
    }
    fn get_label_keys() -> Vec<String> {
        vec![String::from("a"), String::from("b")]
    }
    fn get_label_values(&self) -> Vec<String> {
        vec![String::from("x")]
    }
}

#[test]
fn bpf_log2_works() {
    assert_eq!(bpf_log2l(10), 4);
    assert_eq!(bpf_log2l(10000000), 24);
    assert_eq!(bpf_log2l(1000000000), 30);
    assert_eq!(bpf_log2l(100000000000), 37);
    assert_eq!(bpf_log2l(10000000000000), 44);
    assert_eq!(bpf_log2l(2043866223362000), 51);
}

#[test]
fn bpf_log2_32bit_values() {
    assert_eq!(bpf_log2(1), 0);
    assert_eq!(bpf_log2(2), 1);
    assert_eq!(bpf_log2(3), 1);
    assert_eq!(bpf_log2(4), 2);
    assert_eq!(bpf_log2(u32::MAX), 31);
}

#[test]
fn bpf_log2_wide_variant() {
    assert_eq!(histogram::bucket64::bpf_log2(0), 1);
    assert_eq!(histogram::bucket64::bpf_log2(10), 4);
    assert_eq!(histogram::bucket64::bpf_log2(0xFFFFFFFF), 32);
    assert_eq!(histogram::bucket64::bpf_log2(1u64 << 32), 33);
    assert_eq!(histogram::bucket64::bpf_log2(2043866223362000), 51);
}

#[test]
fn bucket_index_is_monotonic_on_samples() {
    let samples: Vec<u64> = vec![0, 1, 2, 3, 4, 10, 100, 65535, 65536, 1 << 31, 1 << 32, 1 << 50, u64::MAX];
    for a in &samples {
        for b in &samples {
            if a <= b {
                assert!(bpf_log2l(*a) <= bpf_log2l(*b));
            }
        }
    }
}

#[test]
fn end_to_end_cumulative_series() {
    let mut store: BpfHistogram<NameKey> = BpfHistogram::with_max_entries(8, 0);
    assert!(store.observe(NameKey("A"), 3, 0));
    assert!(store.observe(NameKey("A"), 10, 0));
    assert!(store.observe(NameKey("A"), 10000000, 0));
    let h = Histogram::new_from_map(
        store,
        &NameKey("A"),
        String::from("test_latency"),
        String::from("test counter help"),
        BucketRendering::PowerOfTwo,
    )
    .unwrap();
    let snap = h.snapshot();
    assert_eq!(snap.len(), 1);
    assert_eq!(snap[0].0, NameKey("A"));
    assert_eq!(snap[0].1, vec![(2, 1), (4, 2), (24, 3)]);
}

#[test]
fn capacity_drops_new_keys_silently() {
    let mut store: BpfHistogram<NameKey> = BpfHistogram::with_max_entries(1, 0);
    assert!(store.observe(NameKey("A"), 10, 0));
    assert!(!store.observe(NameKey("B"), 10, 0));
    assert!(store.observe(NameKey("A"), 10, 0));
    let h = Histogram::new_from_map(
        store,
        &NameKey("A"),
        String::from("m"),
        String::from("h"),
        BucketRendering::RawExponent,
    )
    .unwrap();
    let snap = h.snapshot();
    assert_eq!(snap.len(), 1);
    assert_eq!(snap[0].0, NameKey("A"));
    assert_eq!(snap[0].1, vec![(4, 2)]);
}

#[test]
fn repeated_observation_counts_per_partition() {
    let mut store: BpfHistogram<NameKey> = BpfHistogram::with_max_entries(4, 0);
    for _ in 0..5 {
        assert!(store.observe(NameKey("A"), 7, 0));
    }
    assert!(store.observe(NameKey("A"), 7, 1));
    assert!(store.observe(NameKey("A"), 7, 2));
    let h = Histogram::new_from_map(
        store,
        &NameKey("A"),
        String::from("m"),
        String::from("h"),
        BucketRendering::RawExponent,
    )
    .unwrap();
    let snap = h.snapshot();
    assert_eq!(snap.len(), 1);
    assert_eq!(snap[0].1, vec![(3, 7)]);
}

#[test]
fn mismatched_label_arity_rejected_at_construction() {
    let store: BpfHistogram<BadKey> = BpfHistogram::with_max_entries(4, 0);
    let r = Histogram::new_from_map(
        store,
        &BadKey,
        String::from("m"),
        String::from("h"),
        BucketRendering::RawExponent,
    );
    assert_eq!(r.err(), Some(HistogramError::LabelArityMismatch));
}

#[test]
fn validate_labels_exact() {
    assert!(validate_labels(&vec![String::from("a")], &vec![String::from("x")]).is_ok());
    assert!(validate_labels(&vec![], &vec![]).is_ok());
    assert_eq!(
        validate_labels(&vec![String::from("a")], &vec![]),
        Err(HistogramError::LabelArityMismatch)
    );
}

#[test]
fn decimal_rendering() {
    assert_eq!(u128_to_decimal(0), "0");
    assert_eq!(u128_to_decimal(7), "7");
    assert_eq!(u128_to_decimal(1234567890), "1234567890");
}

#[test]
fn bucket_labels_both_renderings() {
    assert_eq!(bucket_label(4, BucketRendering::RawExponent), "4");
    assert_eq!(bucket_label(4, BucketRendering::PowerOfTwo), "16");
    assert_eq!(bucket_label(0, BucketRendering::PowerOfTwo), "1");
    assert_eq!(
        bucket_label(64, BucketRendering::PowerOfTwo),
        "18446744073709551616"
    );
}

#[test]
fn cumulate_forms_less_or_equal_series() {
    let series = vec![(2u32, 1u64), (4, 1), (24, 1)];
    assert_eq!(cumulate(&series), vec![(2, 1), (4, 2), (24, 3)]);
    let sat = vec![(1u32, u64::MAX), (2, 5)];
    assert_eq!(cumulate(&sat), vec![(1, u64::MAX), (2, u64::MAX)]);
}

#[test]
fn snapshot_is_idempotent() {
    let mut store: BpfHistogram<NameKey> = BpfHistogram::with_max_entries(4, 0);
    store.observe(NameKey("A"), 3, 0);
    store.observe(NameKey("B"), 100, 1);
    let h = Histogram::new_from_map(
        store,
        &NameKey("A"),
        String::from("m"),
        String::from("h"),
        BucketRendering::RawExponent,
    )
    .unwrap();
    let one = h.snapshot();
    let two = h.snapshot();
    assert_eq!(one, two);
    assert_eq!(one.len(), 2);
}
