use mcp_sandboxscan::sandbox::exec_result::{decode_exit, GuestOutcome, WasmExecResult};
use mcp_sandboxscan::sandbox::wasi::WasiExecutionIO;
use mcp_sandboxscan::sandbox::wasi_hooks::{
    collect_env_sources, collect_file_sources, collect_http_intents,
};
use mcp_sandboxscan::taint::source::TaintSource;

#[test]
fn exit_codes() {
    assert_eq!(decode_exit(&GuestOutcome::Completed), 0);
    assert_eq!(decode_exit(&GuestOutcome::Exited(3)), 3);
    assert_eq!(decode_exit(&GuestOutcome::Faulted), -1);
}

#[test]
fn capture_respects_bound() {
    let io = WasiExecutionIO::capture(vec![b'a'; 10], vec![b'b'; 3], 4, 7);
    assert_eq!(io.stdout, vec![b'a'; 4]);
    assert_eq!(io.stderr, vec![b'b'; 3]);
    assert_eq!(io.duration_ms, 7);
    let none = WasiExecutionIO::capture(vec![1, 2], vec![3], 0, 0);
    assert!(none.stdout.is_empty() && none.stderr.is_empty());
}

#[test]
fn run_record_decodes_output() {
    let io = WasiExecutionIO::capture(b"ok\n".to_vec(), vec![0xff, b'x'], 100, 5);
    let r = WasmExecResult::from_run(&io, &GuestOutcome::Exited(2), 100);
    assert_eq!(r.stdout, "ok\n");
    assert_eq!(r.stderr, "\u{fffd}x");
    assert_eq!(r.exit_code, 2);
    assert_eq!(r.duration_ms, 5);
}

#[test]
fn env_sources_verbatim() {
    let env = vec![("A".to_string(), "1".to_string()), ("B".to_string(), " two ".to_string())];
    let s = collect_env_sources(&env);
    assert_eq!(s.len(), 2);
    assert_eq!(s[1].short_id(), "EnvVar: B");
    assert_eq!(s[1].content(), " two ");
}

#[test]
fn file_sources_skip_empty_and_cut() {
    let files = vec![
        ("/d/empty".to_string(), vec![]),
        ("/d/long".to_string(), b"abcdefgh".to_vec()),
        ("/d/bad".to_string(), vec![b'h', 0xc3]),
    ];
    let s = collect_file_sources(&files, 5);
    assert_eq!(s.len(), 2);
    assert_eq!(s[0].short_id(), "FileRead: /d/long");
    assert_eq!(s[0].content(), "abcde");
    assert_eq!(s[1].content(), "h\u{fffd}");
}

#[test]
fn http_intents_from_both_streams() {
    let s = collect_http_intents(
        "  HTTP_FETCH: https://a.example/x  \nFETCH:\nnoise HTTP: no\nHTTP:https://b.example",
        "FETCH: c.example\r\n",
    );
    let urls: Vec<String> = s
        .iter()
        .map(|t| match t {
            TaintSource::HttpFetchIntent { url, content } => {
                assert_eq!(content, "<intent-only>");
                url.clone()
            }
            _ => panic!("expected HttpFetchIntent"),
        })
        .collect();
    assert_eq!(urls, vec!["https://a.example/x", "https://b.example", "c.example"]);
}

#[test]
fn run_record_respects_byte_bound() {
    let io = WasiExecutionIO::capture(vec![b'a', 0xff], "é".as_bytes().to_vec(), 2, 0);
    let r = WasmExecResult::from_run(&io, &GuestOutcome::Completed, 2);
    assert_eq!(r.stdout, "a");
    assert_eq!(r.stderr, "é");
    let io = WasiExecutionIO::capture("é".as_bytes().to_vec(), vec![0xff; 9], 1, 0);
    let r = WasmExecResult::from_run(&io, &GuestOutcome::Completed, 1);
    assert_eq!(r.stdout, "");
    assert_eq!(r.stderr, "");
    assert!(r.stdout.len() <= 1 && r.stderr.len() <= 1);
}

#[test]
fn env_order_does_not_matter() {
    let a = vec![("ZED".to_string(), "z".to_string()), ("ALPHA".to_string(), "a".to_string())];
    let b = vec![("ALPHA".to_string(), "a".to_string()), ("ZED".to_string(), "z".to_string())];
    let ids = |v: &Vec<(String, String)>| {
        collect_env_sources(v).iter().map(|s| s.short_id()).collect::<Vec<_>>()
    };
    assert_eq!(ids(&a), vec!["EnvVar: ALPHA", "EnvVar: ZED"]);
    assert_eq!(ids(&a), ids(&b));
}

#[test]
fn file_sources_depend_only_on_capped_bytes() {
    let empty = vec![("/d/f".to_string(), vec![])];
    let one = vec![("/d/f".to_string(), vec![b'x'])];
    assert!(collect_file_sources(&empty, 0).is_empty());
    assert!(collect_file_sources(&one, 0).is_empty());
    let a = vec![("/d/f".to_string(), b"abcXYZ".to_vec())];
    let b = vec![("/d/f".to_string(), b"abc".to_vec())];
    let ca = collect_file_sources(&a, 3);
    let cb = collect_file_sources(&b, 3);
    assert_eq!(ca.len(), 1);
    assert_eq!(ca[0].content(), cb[0].content());
}
