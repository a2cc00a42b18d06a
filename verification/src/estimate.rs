//! Approximate answers. The fields make the approximation visible.

use vstd::prelude::*;

use crate::float_bits::Float64;

verus! {

/// One approximate answer for one group within one window.
#[derive(Debug, Clone, PartialEq, Eq)]
pub struct SketchEstimate {
    pub query_name: String,
    pub window_start_nanos: u64,
    pub window_end_nanos: u64,
    /// Labels of the group as pairs of field name and value, in query order.
    pub group: Vec<(String, String)>,
    pub estimate: Float64,
    pub lower_bound: Option<Float64>,
    pub upper_bound: Option<Float64>,
    pub confidence: Option<Float64>,
    /// The algorithm that gave the answer.
    pub algorithm: String,
    /// Memory of the sketches that gave the answer.
    pub sketch_bytes: u64,
    /// Updates seen in the window.
    pub update_count: u64,
}

} // verus!
