use mcp_sandboxscan::scan::prompt_sink::PromptSink;
use mcp_sandboxscan::taint::flow::{detect_flows, make_snippets};
use mcp_sandboxscan::taint::source::TaintSource;

fn env(key: &str, value: &str) -> TaintSource {
    TaintSource::EnvVar { key: key.to_string(), value: value.to_string() }
}

fn stdout_prompt(line: &str) -> PromptSink {
    PromptSink::StdoutPrompt { line: line.to_string() }
}

fn leaf(path: &str, value: &str) -> PromptSink {
    PromptSink::ToolReturnLeaf { path: path.to_string(), value: value.to_string() }
}

#[test]
fn detects_external_to_prompt_flow() {
    let sources = vec![TaintSource::EnvVar {
        key: "API_KEY".to_string(),
        value: "SECRET_TOKEN".to_string(),
    }];

    let sinks = vec![PromptSink::StdoutPrompt {
        line: "PROMPT: use SECRET_TOKEN to authenticate".to_string(),
    }];

    let flows = detect_flows(&sources, &sinks);
    assert_eq!(flows.len(), 1);
    assert!(flows[0].snippet.contains("SECRET"));
}

#[test]
fn no_false_positive_when_not_present() {
    let sources = vec![TaintSource::EnvVar {
        key: "API_KEY".to_string(),
        value: "SECRET_TOKEN".to_string(),
    }];

    let sinks = vec![PromptSink::StdoutPrompt { line: "PROMPT: hello world".to_string() }];

    let flows = detect_flows(&sources, &sinks);
    assert!(flows.is_empty());
}

#[test]
fn snippets_of_short_content() {
    assert_eq!(make_snippets("  abcd  "), vec!["abcd".to_string()]);
    assert!(make_snippets("abc").is_empty());
    assert!(make_snippets("   ").is_empty());
}

#[test]
fn snippets_of_long_content() {
    let content: String = (0..50).map(|i| char::from(b'a' + (i % 26) as u8)).collect();
    let s = make_snippets(&content);
    assert_eq!(s.len(), 5);
    assert_eq!(s[0], content);
    assert_eq!(s[1], content[..16].to_string());
    assert_eq!(s[2], content[..24].to_string());
    assert_eq!(s[3], content[..32].to_string());
    assert_eq!(s[4], content[13..37].to_string());
}

#[test]
fn snippets_of_medium_content() {
    let s = make_snippets("0123456789abcdefghij");
    assert_eq!(s, vec!["0123456789abcdefghij".to_string(), "0123456789abcdef".to_string()]);
}

#[test]
fn flows_deduplicated_by_source_and_sink_type() {
    let sources = vec![env("DEMO_SECRET", "SEKRET_default_long_token")];
    let sinks = vec![
        leaf("$.a", "debug_token=SEKRET_default_long_token"),
        leaf("$.b", "again SEKRET_default_long_token here"),
        stdout_prompt("PROMPT: SEKRET_default_long_token"),
    ];
    let flows = detect_flows(&sources, &sinks);
    assert_eq!(flows.len(), 2);
    assert_eq!(flows[0].source_id, "EnvVar: DEMO_SECRET");
    assert_eq!(flows[0].sink_type, "StdoutPrompt");
    assert_eq!(flows[1].sink_type, "ToolReturnLeaf");
    assert_eq!(flows[1].snippet, "SEKRET_default_long_token");
    assert_eq!(flows[1].confidence, "high");
}

#[test]
fn flows_sorted_by_source_id() {
    let sources = vec![env("ZED", "value-of-zed"), env("ALPHA", "value-of-alpha")];
    let sinks = vec![stdout_prompt("PROMPT: value-of-zed and value-of-alpha")];
    let flows = detect_flows(&sources, &sinks);
    assert_eq!(flows.len(), 2);
    assert_eq!(flows[0].source_id, "EnvVar: ALPHA");
    assert_eq!(flows[1].source_id, "EnvVar: ZED");
}

#[test]
fn no_sink_no_flow() {
    let sources = vec![env("API_KEY", "SECRET_TOKEN")];
    let flows = detect_flows(&sources, &vec![]);
    assert!(flows.is_empty());
}

#[test]
fn short_token_does_not_match_tool_return_leaf() {
    let sources = vec![env("DEMO_SECRET", "abcd")];
    let sinks = vec![leaf("$.result.msg", "harmless string with abcd inside")];
    assert!(detect_flows(&sources, &sinks).is_empty());
}

#[test]
fn short_token_matches_prompt() {
    let sources = vec![env("USER_INPUT", "hello")];
    let sinks = vec![stdout_prompt("PROMPT: summarize the following text: hello")];
    let flows = detect_flows(&sources, &sinks);
    assert_eq!(flows.len(), 1);
    assert_eq!(flows[0].snippet, "hello");
}

#[test]
fn fetch_intent_never_flows() {
    let sources = vec![TaintSource::HttpFetchIntent {
        url: "https://example.com".to_string(),
        content: "<intent-only>".to_string(),
    }];
    let sinks = vec![stdout_prompt("PROMPT: <intent-only> https://example.com")];
    assert!(detect_flows(&sources, &sinks).is_empty());
}

#[test]
fn source_ids_and_contents() {
    let f = TaintSource::FileRead { path: "/d/a.txt".to_string(), content: "text".to_string() };
    assert_eq!(f.short_id(), "FileRead: /d/a.txt");
    assert_eq!(f.content(), "text");
    let e = env("K", "v");
    assert_eq!(e.short_id(), "EnvVar: K");
    assert_eq!(e.content(), "v");
    let h = TaintSource::HttpFetchIntent { url: "u".to_string(), content: "<intent-only>".to_string() };
    assert_eq!(h.short_id(), "HttpFetchIntent: u");
}

#[test]
fn flow_keys_independent_of_input_order() {
    let sources = vec![env("B_KEY", "second secret value"), env("A_KEY", "first secret value")];
    let sinks = vec![
        leaf("$.x", "has first secret value here"),
        stdout_prompt("PROMPT: second secret value and first secret value"),
    ];
    let rs: Vec<TaintSource> = sources.iter().rev().map(|s| s.duplicate()).collect();
    let rk: Vec<PromptSink> = sinks.iter().rev().map(|k| k.duplicate()).collect();
    let keys = |v: Vec<mcp_sandboxscan::taint::flow::FlowMatch>| {
        v.into_iter().map(|f| (f.source_id, f.sink_type)).collect::<Vec<_>>()
    };
    let a = keys(detect_flows(&sources, &sinks));
    assert_eq!(a, keys(detect_flows(&rs, &rk)));
    assert_eq!(a.len(), 3);
}
