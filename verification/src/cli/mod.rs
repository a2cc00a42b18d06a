//! What the command line tool decides: which snapshots can be merged, which
//! rows of a replay are shown, and how a benchmark is laid out and judged.

pub mod bench;
pub mod laws;
pub mod merge;
pub mod replay;
pub mod synthetic;
pub mod trace;
