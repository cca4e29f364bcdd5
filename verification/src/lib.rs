//! Decisions and computations of a memory-watching process supervisor:
//! process-tree discovery, memory aggregation, status-line rendering and the
//! supervision loop as a state machine. The caller owns all input and output.

pub mod digits;
pub mod render;
pub mod runs;
pub mod sample;
pub mod supervisor;
pub mod tree;
pub mod units;
