//! Sink extraction from captured output, and the scan report.

pub mod dynamic_scan;
pub mod prompt_sink;
pub mod report;
pub mod tool_return_sink;
