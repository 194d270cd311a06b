//! The analysis of one sandboxed run, from its record to the report.

use vstd::prelude::*;

use crate::sandbox::exec_result::WasmExecResult;
use crate::sandbox::wasi_hooks::{
    collect_env_sources, collect_file_sources, collect_http_intents, env_source_views,
    env_sources_of, file_source_views, intent_views, keys_unique, lemma_env_order_irrelevant,
    same_elements,
};
use crate::scan::prompt_sink::{extract_prompt_sinks, prompt_views, sink_views, PromptSink};
use crate::scan::report::{ScanReport, Summary};
use crate::scan::tool_return_sink::{
    extract_tool_return_sinks, lemma_stable_sort_unique, same_runs, sorted_by_text, tool_return_views,
};
use crate::taint::flow::{deduplicated, detect_flows, flow_views, lemma_flows_unique, raw_flows};
use crate::taint::source::{source_views, TaintSource};
use crate::text::lines;

verus! {

/// The most bytes of one file that become a source.
pub const MAX_FILE_BYTES: usize = 64 * 1024;

/// `r` is the analysis of `run`, for a module given the environment `env`
/// and able to read `files`: the environment sources (ordered by key), then
/// the file and declared-fetch sources; the instruction sinks of the output, then its payload sinks
/// ordered by text (equal texts in output order); the deduplicated flows from
/// those sources into those sinks; and their counts.
pub open spec fn is_analysis(
    run: WasmExecResult,
    env: Seq<(String, String)>,
    files: Seq<(String, Vec<u8>)>,
    r: ScanReport,
) -> bool {
    let out = lines(run.stdout@);
    let prompts = prompt_views(out);
    let n = prompts.len() as int;
    let sinks = sink_views(r.sinks@);
    &&& r.exec_result == run
    &&& env.len() <= r.sources.len()
    &&& env_sources_of(env, source_views(r.sources@).take(env.len() as int))
    &&& source_views(r.sources@).skip(env.len() as int) == file_source_views(files, MAX_FILE_BYTES as nat)
        + intent_views(out) + intent_views(lines(run.stderr@))
    &&& n <= sinks.len()
    &&& sinks.take(n) == prompts
    &&& sorted_by_text(sinks.skip(n))
    &&& same_runs(sinks.skip(n), tool_return_views(out))
    &&& deduplicated(raw_flows(source_views(r.sources@), sinks), flow_views(r.flows@))
    &&& r.summary.num_sources == r.sources.len()
    &&& r.summary.num_sinks == r.sinks.len()
    &&& r.summary.num_flows == r.flows.len()
    &&& r.summary.has_external_to_prompt_flow == (r.flows.len() > 0)
}

/// The analysis of a run of a module that was given the environment `env`
/// (distinct keys, as in a map) and could read `files` (path and bytes of each
/// file under its directory).
pub fn analyze_run(run: WasmExecResult, env: &Vec<(String, String)>, files: &Vec<(String, Vec<u8>)>) -> (r:
    ScanReport)
    requires
        keys_unique(env@),
    ensures
        is_analysis(run, env@, files@, r),
{
    let mut sinks = extract_prompt_sinks(run.stdout.as_str());
    let ghost prompt_part = sink_views(sinks@);
    let mut tool = extract_tool_return_sinks(run.stdout.as_str());
    let ghost tool_part = sink_views(tool@);
    sinks.append(&mut tool);
    assert(sink_views(sinks@) =~= prompt_part + tool_part);
    assert((prompt_part + tool_part).take(prompt_part.len() as int) =~= prompt_part);
    assert((prompt_part + tool_part).skip(prompt_part.len() as int) =~= tool_part);

    let mut sources = collect_env_sources(env);
    let ghost a = source_views(sources@);
    let mut file_sources = collect_file_sources(files, MAX_FILE_BYTES);
    let ghost b = source_views(file_sources@);
    sources.append(&mut file_sources);
    let mut intents = collect_http_intents(run.stdout.as_str(), run.stderr.as_str());
    let ghost c = source_views(intents@);
    sources.append(&mut intents);
    assert(source_views(sources@) =~= a + b + c);
    assert(a.len() == env.len());
    assert((a + b + c).take(env.len() as int) =~= a);
    assert((a + b + c).skip(env.len() as int) =~= b + c);

    let flows = detect_flows(&sources, &sinks);
    let summary = Summary::of(&sources, &sinks, &flows);
    let ghost all = sink_views(sinks@);
    let ghost n = prompt_part.len() as int;
    assert(all.take(n) == prompt_views(lines(run.stdout@)));
    assert(all.skip(n) == tool_part);
    assert(sorted_by_text(all.skip(n)));
    assert(same_runs(all.skip(n), tool_return_views(lines(run.stdout@))));
    let r = ScanReport { exec_result: run, sources, sinks, flows, summary };
    assert(r.exec_result == run);
    assert(deduplicated(raw_flows(source_views(r.sources@), sink_views(r.sinks@)), flow_views(r.flows@)));
    assert(sink_views(r.sinks@) == all);
    assert(source_views(r.sources@) == a + b + c);
    assert(env_sources_of(env@, source_views(r.sources@).take(env.len() as int)));
    assert(source_views(r.sources@).skip(env.len() as int) == file_source_views(files@, MAX_FILE_BYTES as nat)
        + intent_views(lines(run.stdout@)) + intent_views(lines(run.stderr@)));
    r
}

/// Determinism: two analyses of the same run and files, with environments
/// that hold the same entries in any order, have the same sources, the same
/// sinks in the same order, and the same flows.
pub proof fn lemma_analysis_deterministic(
    run: WasmExecResult,
    env1: Seq<(String, String)>,
    env2: Seq<(String, String)>,
    files: Seq<(String, Vec<u8>)>,
    r1: ScanReport,
    r2: ScanReport,
)
    requires
        same_elements(env_source_views(env1), env_source_views(env2)),
        is_analysis(run, env1, files, r1),
        is_analysis(run, env2, files, r2),
    ensures
        source_views(r1.sources@) == source_views(r2.sources@),
        sink_views(r1.sinks@) == sink_views(r2.sinks@),
        flow_views(r1.flows@) == flow_views(r2.flows@),
{
    let v1 = source_views(r1.sources@);
    let v2 = source_views(r2.sources@);
    lemma_env_order_irrelevant(env1, env2, v1.take(env1.len() as int), v2.take(env2.len() as int));
    assert(v1 =~= v1.take(env1.len() as int) + v1.skip(env1.len() as int));
    assert(v2 =~= v2.take(env2.len() as int) + v2.skip(env2.len() as int));
    let n = prompt_views(lines(run.stdout@)).len() as int;
    let s1 = sink_views(r1.sinks@);
    let s2 = sink_views(r2.sinks@);
    assert forall|t: Seq<char>| #[trigger] s1.skip(n).filter(
        crate::scan::tool_return_sink::has_text(t),
    ) == s2.skip(n).filter(crate::scan::tool_return_sink::has_text(t)) by {
        assert(s1.skip(n).filter(crate::scan::tool_return_sink::has_text(t)) == tool_return_views(
            lines(run.stdout@),
        ).filter(crate::scan::tool_return_sink::has_text(t)));
    }
    lemma_stable_sort_unique(s1.skip(n), s2.skip(n));
    assert(s1 =~= s1.take(n) + s1.skip(n));
    assert(s2 =~= s2.take(n) + s2.skip(n));
    lemma_flows_unique(
        raw_flows(source_views(r1.sources@), s1),
        flow_views(r1.flows@),
        flow_views(r2.flows@),
    );
}

} // verus!
