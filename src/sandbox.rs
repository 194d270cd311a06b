//! The boundary with the sandboxed run: its captured output and outcome, and
//! the taint sources gathered from its inputs and output.

pub mod exec_result;
pub mod wasi;
pub mod wasi_hooks;
