//! Position resolution for a replicated sequence: find the operation(s) that
//! occupy the n-th visible position of a list, optionally as of a causal
//! snapshot and with the active formatting marks at that position.

pub mod types;
pub mod list_state;
pub mod op_tree;
pub mod marks;
pub mod nth;
