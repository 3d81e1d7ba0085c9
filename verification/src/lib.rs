//! State engine of a terminal resource monitor.
//!
//! The crate derives utilization percentages and rates from raw,
//! monotonically increasing OS counters, maintains the process table
//! (filter, sort, tree ordering, selection tracking) and the small modal
//! state machines of the user interface.  Everything here is pure
//! computation over plain values; reading the counters, drawing the
//! screen and delivering signals are left to the binary that embeds the
//! engine.

pub mod counters;
pub mod input;
pub mod percent;
pub mod row;
pub mod sampler;
pub mod sort;
pub mod state;
pub mod table;
pub mod text;
pub mod tree;
