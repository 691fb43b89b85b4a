//! The label contract of a sub-key type: a fixed-size, comparable payload
//! of metric dimensions, exposing an ordered list of label names for the
//! type and an ordered list of label values for each instance. The two
//! lists must have the same length and order; the collector checks this
//! once at construction, never on the hot path.

use vstd::prelude::*;

verus! {

/// The capability set of a sub-key. Implementations live with the caller;
/// the payload must be plain copyable data without internal pointers.
pub trait Key: Sized + Copy {
    /// Reports whether two sub-keys are equal. An implementation must agree
    /// with logical equality of the two values.
    fn eq_key(&self, other: &Self) -> (r: bool)
        ensures
            r == (*self == *other),
    ;

    /// The ordered label names of this sub-key type. The list may be empty
    /// and must have the same length and order as `get_label_values`.
    fn get_label_keys() -> Vec<String>;

    /// The ordered label values of one sub-key, in the order of
    /// `get_label_keys`.
    fn get_label_values(&self) -> Vec<String>;
}

} // verus!
