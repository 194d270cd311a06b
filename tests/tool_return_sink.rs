use mcp_sandboxscan::json::Json;
use mcp_sandboxscan::scan::prompt_sink::PromptSink;
use mcp_sandboxscan::scan::tool_return_sink::{
    extract_tool_return_sinks, is_candidate_leaf, json_tool_return_sinks, sort_by_text,
};

fn leaf_parts(s: &PromptSink) -> (String, String) {
    match s {
        PromptSink::ToolReturnLeaf { path, value } => (path.clone(), value.clone()),
        _ => panic!("expected ToolReturnLeaf"),
    }
}

#[test]
fn extracts_nested_leaves_with_paths() {
    let out = r#"{"result":{"note":"debug_token=SEKRET_default_long_token","list":["short","a long enough entry"]}}"#;
    let sinks = extract_tool_return_sinks(out);
    assert_eq!(sinks.len(), 2);
    assert_eq!(
        leaf_parts(&sinks[0]),
        ("$.result.list[1]".to_string(), "a long enough entry".to_string())
    );
    assert_eq!(
        leaf_parts(&sinks[1]),
        ("$.result.note".to_string(), "debug_token=SEKRET_default_long_token".to_string())
    );
}

#[test]
fn metadata_paths_are_filtered() {
    let out = r#"{"status":"SEKRET_default_long_token","result":{"ID":"0123456789abcdef","Version":"1.2.3-long-version"}}"#;
    assert!(extract_tool_return_sinks(out).is_empty());
    assert!(!is_candidate_leaf("$.status", "SEKRET_default_long_token"));
    assert!(!is_candidate_leaf("$.a.UUID", "0123456789abcdef"));
    assert!(is_candidate_leaf("$.identity", "0123456789abcdef"));
    assert!(is_candidate_leaf("$.statuses", "0123456789abcdef"));
}

#[test]
fn short_leaves_are_not_sinks() {
    assert!(!is_candidate_leaf("$.x", "   eleven ch   "));
    assert!(is_candidate_leaf("$.x", "twelve chars"));
}

#[test]
fn prompt_documents_give_no_leaves() {
    let out = "{\"prompt\":\"a long prompt string here\"}\n{\"messages\":[],\"x\":\"another long string\"}";
    assert!(extract_tool_return_sinks(out).is_empty());
}

#[test]
fn leaves_sorted_by_text_across_lines() {
    let out = "{\"b\":\"zzzz long text here\"}\nnot json\n\n{\"a\":\"aaaa long text here\"}";
    let sinks = extract_tool_return_sinks(out);
    assert_eq!(sinks.len(), 2);
    assert_eq!(sinks[0].as_text(), "aaaa long text here");
    assert_eq!(sinks[1].as_text(), "zzzz long text here");
}

#[test]
fn sort_keeps_equal_texts_in_order() {
    let v = vec![
        PromptSink::ToolReturnLeaf { path: "$.b".to_string(), value: "same".to_string() },
        PromptSink::ToolReturnLeaf { path: "$.a".to_string(), value: "first".to_string() },
        PromptSink::ToolReturnLeaf { path: "$.c".to_string(), value: "same".to_string() },
    ];
    let r = sort_by_text(&v);
    assert_eq!(leaf_parts(&r[0]).0, "$.a");
    assert_eq!(leaf_parts(&r[1]).0, "$.b");
    assert_eq!(leaf_parts(&r[2]).0, "$.c");
}

#[test]
fn leaves_of_parsed_document() {
    let doc = Json::Array(vec![
        Json::Scalar,
        Json::Str("payload string one".to_string()),
        Json::Object(vec![("code".to_string(), Json::Str("E_SOMETHING_LONG".to_string()))]),
    ]);
    let sinks = json_tool_return_sinks(&doc);
    assert_eq!(sinks.len(), 1);
    assert_eq!(leaf_parts(&sinks[0]), ("$[1]".to_string(), "payload string one".to_string()));
    assert_eq!(sinks[0].sink_type(), "ToolReturnLeaf");
}

#[test]
fn index_paths_use_decimal() {
    let items: Vec<Json> = (0..12).map(|i| Json::Str(format!("item number {:02}", i))).collect();
    let sinks = json_tool_return_sinks(&Json::Array(items));
    assert_eq!(sinks.len(), 12);
    assert_eq!(leaf_parts(&sinks[11]).0, "$[11]");
}
