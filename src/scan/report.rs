//! The terminal record of one scan.

use vstd::prelude::*;

use crate::sandbox::exec_result::WasmExecResult;
use crate::scan::prompt_sink::PromptSink;
use crate::taint::flow::FlowMatch;
use crate::taint::source::TaintSource;

verus! {

/// One scan: the run, what was found in it, and a summary.
pub struct ScanReport {
    pub exec_result: WasmExecResult,
    pub sources: Vec<TaintSource>,
    pub sinks: Vec<PromptSink>,
    pub flows: Vec<FlowMatch>,
    pub summary: Summary,
}

/// Counts over a report, and whether any flow was found.
pub struct Summary {
    pub num_sources: usize,
    pub num_sinks: usize,
    pub num_flows: usize,
    pub has_external_to_prompt_flow: bool,
}

impl Summary {
    /// The summary of the given sources, sinks and flows.
    pub fn of(sources: &Vec<TaintSource>, sinks: &Vec<PromptSink>, flows: &Vec<FlowMatch>) -> (r: Summary)
        ensures
            r.num_sources == sources.len(),
            r.num_sinks == sinks.len(),
            r.num_flows == flows.len(),
            r.has_external_to_prompt_flow == (flows.len() > 0),
    {
        Summary {
            num_sources: sources.len(),
            num_sinks: sinks.len(),
            num_flows: flows.len(),
            has_external_to_prompt_flow: !flows.is_empty(),
        }
    }
}

} // verus!
