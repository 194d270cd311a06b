//! Dynamic taint-flow scanning of sandboxed WebAssembly tools: the analysis
//! that turns one captured run into sources, sinks and flow matches.

pub mod json;
pub mod taint;
pub mod text;
pub mod scan;
pub mod sandbox;
pub mod cli;
