//! Autonomic build engine: repository ingestion, layered scheduling, causal
//! diagnosis, copy-on-write workspaces and self-healing repair.
//!
//! The library holds the decisions and the data; whoever embeds it does the
//! input and output and hands it plain values.

pub mod ast;
pub mod diagnostics;
pub mod float_bits;
pub mod pipeline;
pub mod scheduler;
pub mod scm;
pub mod self_healing;
pub mod text;
pub mod virtualization;
