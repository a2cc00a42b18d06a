//! Queries: what an operator asks ([`logical`]), how it is written down
//! ([`query`]) and which sketch answers it ([`physical`]).

pub mod laws;
pub mod logical;
pub mod physical;
pub mod query;

pub use logical::{
    AlertSpec, ErrorSpec, ExportSpec, LogicalQuery, Measure, Predicate, WindowSpec,
    MAX_QUERY_NAME_BYTES,
};
pub use physical::PhysicalSketch;

pub use query::{parse_duration, parse_memory, QueryParseError, RawQuery};
