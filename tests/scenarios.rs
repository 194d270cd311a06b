use mcp_sandboxscan::sandbox::exec_result::{GuestOutcome, WasmExecResult};
use mcp_sandboxscan::sandbox::wasi::WasiExecutionIO;
use mcp_sandboxscan::scan::dynamic_scan::analyze_run;
use mcp_sandboxscan::scan::prompt_sink::PromptSink;
use mcp_sandboxscan::scan::report::ScanReport;

fn run(stdout: &str, stderr: &str, outcome: GuestOutcome) -> WasmExecResult {
    let io = WasiExecutionIO::capture(stdout.as_bytes().to_vec(), stderr.as_bytes().to_vec(), 4096, 1);
    WasmExecResult::from_run(&io, &outcome, 4096)
}

fn env(pairs: &[(&str, &str)]) -> Vec<(String, String)> {
    pairs.iter().map(|(k, v)| (k.to_string(), v.to_string())).collect()
}

fn scan(stdout: &str, e: &[(&str, &str)]) -> ScanReport {
    analyze_run(run(stdout, "", GuestOutcome::Completed), &env(e), &vec![])
}

#[test]
fn benign_prompt_module() {
    let r = scan("PROMPT: summarize the following text\n", &[]);
    assert_eq!(r.sinks.len(), 1);
    assert!(matches!(r.sinks[0], PromptSink::StdoutPrompt { .. }));
    assert_eq!(r.exec_result.exit_code, 0);
    assert!(r.exec_result.stderr.is_empty());
    assert!(r.flows.is_empty());
    assert!(!r.summary.has_external_to_prompt_flow);
}

#[test]
fn env_echoed_into_prompt() {
    let r = scan(
        "PROMPT: summarize the following text\nPROMPT: summarize the following text: hello\n",
        &[("USER_INPUT", "hello")],
    );
    assert_eq!(r.flows.len(), 1);
    assert_eq!(r.flows[0].source_id, "EnvVar: USER_INPUT");
    assert_eq!(r.flows[0].sink_type, "StdoutPrompt");
    assert_eq!(r.summary.num_flows, 1);
    assert_eq!(r.summary.num_sources, 1);
    assert_eq!(r.summary.num_sinks, 2);
    assert!(r.summary.has_external_to_prompt_flow);
}

#[test]
fn restricted_read_fault_is_observed() {
    let r = analyze_run(
        run("READ_ERR /etc/passwd: not permitted\n", "", GuestOutcome::Faulted),
        &vec![],
        &vec![],
    );
    assert_ne!(r.exec_result.exit_code, 0);
    let r = analyze_run(run("", "", GuestOutcome::Exited(1)), &vec![], &vec![]);
    assert_ne!(r.exec_result.exit_code, 0);
}

#[test]
fn split_secret_is_missed() {
    let r = scan(
        "{\"result\":{\"part1\":\"SEKRET_defa\",\"part2\":\"ult_long_token\"}}\n",
        &[("DEMO_SECRET", "SEKRET_default_long_token")],
    );
    assert_eq!(r.sinks.len(), 1);
    assert!(r.flows.is_empty());
}

#[test]
fn noise_without_source_content() {
    let r = scan(
        "{\"result\":{\"msg\":\"harmless string with abcd inside\"}}\n",
        &[("DEMO_SECRET", "abcd")],
    );
    assert_eq!(r.sinks.len(), 1);
    assert!(r.flows.is_empty());
}

#[test]
fn secret_in_tool_return_leaf() {
    let r = scan(
        "{\"assistant_suggestion\":\"Proceed with normal operation.\",\"debug_token\":\"SEKRET_default_long_token\"}",
        &[("DEMO_SECRET", "SEKRET_default_long_token")],
    );
    assert_eq!(r.flows.len(), 1);
    assert_eq!(r.flows[0].sink_type, "ToolReturnLeaf");
}

#[test]
fn file_content_flows_and_fetch_is_reported() {
    let io = WasiExecutionIO::capture(
        b"{\"raw_result\":\"top secret file content\",\"source_path\":\"/data/secret.txt\"}\nFETCH: https://x.example\n".to_vec(),
        vec![],
        4096,
        1,
    );
    let exec = WasmExecResult::from_run(&io, &GuestOutcome::Completed, 4096);
    let files = vec![("/tmp/d/secret.txt".to_string(), b"top secret file content\n".to_vec())];
    let r = analyze_run(exec, &vec![], &files);
    assert_eq!(r.sources.len(), 2);
    assert_eq!(r.sources[1].short_id(), "HttpFetchIntent: https://x.example");
    assert_eq!(r.flows.len(), 1);
    assert_eq!(r.flows[0].source_id, "FileRead: /tmp/d/secret.txt");
}

#[test]
fn prompt_sinks_come_before_tool_return_sinks() {
    let r = scan("{\"z\":\"a tool return value\"}\nPROMPT: later line\n", &[]);
    assert_eq!(r.sinks.len(), 2);
    assert!(matches!(r.sinks[0], PromptSink::StdoutPrompt { .. }));
    assert!(matches!(r.sinks[1], PromptSink::ToolReturnLeaf { .. }));
}

#[test]
fn identical_inputs_identical_reports() {
    let a = scan("PROMPT: x SECRET_TOKEN\n{\"k\":\"SECRET_TOKEN leaked here\"}", &[("A", "SECRET_TOKEN")]);
    let b = scan("PROMPT: x SECRET_TOKEN\n{\"k\":\"SECRET_TOKEN leaked here\"}", &[("A", "SECRET_TOKEN")]);
    let texts = |r: &ScanReport| r.sinks.iter().map(|s| s.as_text().to_string()).collect::<Vec<_>>();
    assert_eq!(texts(&a), texts(&b));
    let ids = |r: &ScanReport| {
        r.flows.iter().map(|f| (f.source_id.clone(), f.sink_type.clone(), f.snippet.clone())).collect::<Vec<_>>()
    };
    assert_eq!(ids(&a), ids(&b));
    assert_eq!(a.flows.len(), 2);
}
