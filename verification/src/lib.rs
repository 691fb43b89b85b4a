//! A lock-free, per-partition histogram of order-of-magnitude buckets.
//!
//! An observed value (a latency, a size) is mapped by pure bucket math to an
//! exponent-like bucket index, accumulated in a fixed-capacity table of
//! per-partition counters, and later aggregated into a monotonically
//! non-decreasing cumulative series per label set, ready for export as a
//! conventional cumulative histogram metric.

use vstd::prelude::*;

pub mod bucket;
pub mod bucket64;
mod collector;
mod decimal;
pub mod record;
mod store;
mod subkey;

pub use bucket::bpf_log2;
pub use bucket::bpf_log2l;
pub use bucket::bucket_of;
pub use bucket::lemma_bucket_of_monotonic;
pub use bucket::log2_floor;
pub use collector::cap;
pub use collector::capped_rows_total;
pub use collector::groups_bound;
pub use collector::groups_complete;
pub use collector::groups_member;
pub use collector::groups_totals;
pub use collector::groups_wf;
pub use collector::groups_values;
pub use collector::key_total;
pub use collector::lemma_cap_rows_total;
pub use collector::pair_sum;
pub use collector::point_from_rows;
pub use collector::row_in_groups;
pub use collector::rows_total;
pub use collector::series_cum;
pub use collector::spec_bucket_label;
pub use decimal::dec_digits;
pub use decimal::digit_char;
pub use decimal::pow2_u128;
pub use store::bump;
pub use store::bump_n;
pub use store::bump_seq;
pub use store::lemma_bump_total;
pub use store::lemma_observations_sum;
pub use store::lemma_slots_total_update;
pub use store::sat_add;
pub use store::slots_total;
pub use collector::bucket_label;
pub use collector::cumulate;
pub use collector::group_rows;
pub use collector::render_series;
pub use collector::sum_slots;
pub use collector::validate_labels;
pub use collector::BucketRendering;
pub use collector::Histogram;
pub use collector::HistogramError;
pub use collector::KeyWrapper;
pub use decimal::u128_to_decimal;
pub use store::lemma_repeat_single_partition;
pub use store::BpfHistogram;
pub use subkey::Key;
