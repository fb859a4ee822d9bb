//! Search of very large newline-delimited wordlists for a single pattern.
//!
//! The crate holds the decisions of the scanning pipeline: how a line is
//! matched, how the file is carved into line-aligned chunks, how a worker turns
//! a chunk into output records, and how the page-cache window slides forward.
//! Everything that touches the operating system is left to the caller.

pub mod compiled;
pub mod coordinator;
pub mod decimal;
pub mod dispatch;
pub mod lines;
pub mod pattern;
pub mod pipeline;
pub mod stats;
pub mod window;
pub mod worker;
