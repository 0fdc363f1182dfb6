//! Error return tracing: each point that returns or rewraps an error appends a
//! small static location record to a per-error chain of pooled nodes, and the
//! chain, rendered oldest first, shows the path the error took.
//!
//! Nodes come from one of two pools: `TracePool` reclaims whole chains onto a
//! free list in one step, `ArenaPool` is a fixed ring that never reclaims and
//! reuses its oldest slots once full.

mod arena;
mod ertrace;
mod ertrace_location;
mod render;
pub mod text;

pub use crate::arena::{
    is_power_of_two, is_valid_capacity, lemma_wraps_after_capacity, ArenaPool, ArenaTrace,
};
pub use crate::ertrace::{
    lemma_handed_out_node_unshared, lemma_node_accounting, lemma_released_nodes_reused,
    lemma_trace_in_append_order, Ertrace, ErtraceIter, TraceNode, TracePool,
};
pub use crate::ertrace_location::{location_text, ErtraceLocation};
pub use crate::render::{render_trace, rendered_trace, trace_line, trace_lines};
