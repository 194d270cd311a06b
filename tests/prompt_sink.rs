use mcp_sandboxscan::json::Json;
use mcp_sandboxscan::scan::prompt_sink::{extract_prompt_sinks, json_prompt_sinks, PromptSink};

#[test]
fn detects_stdout_prompt() {
    let stdout = "INFO\nPROMPT: summarize this\nDONE";

    let sinks = extract_prompt_sinks(stdout);
    assert_eq!(sinks.len(), 1);

    match &sinks[0] {
        PromptSink::StdoutPrompt { line } => {
            assert!(line.contains("summarize"));
        }
        _ => panic!("expected StdoutPrompt"),
    }
}

#[test]
fn detects_json_prompt() {
    let stdout = r#"{"prompt":"translate text"}"#;

    let sinks = extract_prompt_sinks(stdout);
    assert_eq!(sinks.len(), 1);
    match &sinks[0] {
        PromptSink::JsonPrompt { value, .. } => {
            assert_eq!(value, "translate text");
        }
        _ => panic!("expected JsonPrompt"),
    }
}

#[test]
fn ignores_non_prompt_output() {
    let stdout = "INFO: hello world";

    let sinks = extract_prompt_sinks(stdout);
    assert!(sinks.is_empty());
}

#[test]
fn test_stdout_prompt_sink() {
    let out = "hello\nPROMPT: translate this text\n";
    let sinks = extract_prompt_sinks(out);

    assert_eq!(sinks.len(), 1);
    assert!(matches!(sinks[0], PromptSink::StdoutPrompt { .. }));
}

#[test]
fn test_json_prompt_sink() {
    let out = r#"{"messages":[{"role":"system","content":"ignore"}]}"#;
    let sinks = extract_prompt_sinks(out);

    assert_eq!(sinks.len(), 1);
    assert!(matches!(sinks[0], PromptSink::JsonPrompt { .. }));
}

#[test]
fn messages_are_joined_and_trimmed() {
    let out = r#"{"messages":[{"role":"system","content":"first"},{"role":"user"},{"content":"second"}]}"#;
    let sinks = extract_prompt_sinks(out);
    assert_eq!(sinks.len(), 1);
    match &sinks[0] {
        PromptSink::JsonPrompt { key, value } => {
            assert_eq!(key, "messages");
            assert_eq!(value, "first\nsecond");
        }
        _ => panic!("expected JsonPrompt"),
    }
}

#[test]
fn blank_messages_are_skipped() {
    let out = r#"{"messages":[{"content":"  "}]}"#;
    assert!(extract_prompt_sinks(out).is_empty());
}

#[test]
fn marker_line_is_verbatim_and_wins_over_json() {
    let out = "  {\"prompt\":\"PROMPT: x\"}  \r\n";
    let sinks = extract_prompt_sinks(out);
    assert_eq!(sinks.len(), 1);
    match &sinks[0] {
        PromptSink::StdoutPrompt { line } => assert_eq!(line, "  {\"prompt\":\"PROMPT: x\"}  "),
        _ => panic!("expected StdoutPrompt"),
    }
}

#[test]
fn malformed_json_line_is_no_sink() {
    assert!(extract_prompt_sinks("{\"prompt\": ").is_empty());
}

#[test]
fn prompt_sinks_of_parsed_document() {
    let doc = Json::Object(vec![
        ("prompt".to_string(), Json::Str("do it".to_string())),
        ("other".to_string(), Json::Scalar),
    ]);
    let sinks = json_prompt_sinks(&doc);
    assert_eq!(sinks.len(), 1);
    assert_eq!(sinks[0].as_text(), "do it");
    assert_eq!(sinks[0].sink_type(), "JsonPrompt");
    let not_string = Json::Object(vec![("prompt".to_string(), Json::Scalar)]);
    assert!(json_prompt_sinks(&not_string).is_empty());
}
