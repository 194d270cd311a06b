//! Taint sources and the detection of their flow into sinks.

pub mod flow;
pub mod source;
pub mod taint_string;
