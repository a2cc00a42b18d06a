//! The sketch algorithms.
//!
//! Every sketch is bounded in memory with documented error behaviour,
//! mergeable when built with identical parameters and hash spec, and
//! serializable to the `FSK1` snapshot format.

pub mod change_laws;
pub mod count_min;
pub mod count_sketch;
pub mod counts;
pub mod estimate_laws;
pub mod exact;
pub mod heap;
pub mod hll;
pub mod hll_laws;
pub mod hll_map;
pub mod hll_map_laws;
pub mod kll;
pub mod kll_laws;
pub mod kll_merge_laws;
pub mod misra_gries;
pub mod space_saving;
pub mod summary;
pub mod summary_laws;
pub mod table;

pub use count_min::CountMinSketch;
pub use count_sketch::CountSketch;
pub use exact::ExactCounter;
pub use hll::HyperLogLog;
pub use hll_map::HllMap;
pub use kll::KllSketch;
pub use misra_gries::MisraGries;
pub use space_saving::SpaceSaving;
