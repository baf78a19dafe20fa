use contextd::chunk::Metadata;
use contextd::config::Config;
use contextd::embed::{model_dimension, model_source};
use contextd::errors::CoreError;
use contextd::ignore_rules::IgnoreChecker;
use contextd::pipeline::{
    chunking_route, classify_plugin_result, dedupe_paths, event_decision, merge_metadata,
    plugin_argv, ChunkRoute,
};
use contextd::protocol::{mcp_error_code, mcp_route, McpAction, QueryRequest};

#[test]
fn test_default_config() {
    let config = Config::default();
    assert_eq!(config.server.port, 3030);
    assert_eq!(config.storage.db_path, "contextd.db");
}

#[test]
fn test_model_dimension_selection() {
    // 384-dim models
    assert!(matches!(model_dimension("all-minilm-l6-v2"), 384));
    // 768-dim models
    assert!(matches!(model_dimension("all-mpnet-base-v2"), 768));
    // BGE model
    assert!(matches!(model_dimension("bge-small-en-v1.5"), 384));
    // unknown identifiers fall back
    assert_eq!(model_dimension("unheard-of"), 384);
}

#[test]
fn test_model_source_table() {
    let (m, t, d) = model_source("all-mpnet-base-v2");
    assert!(m.ends_with("model.onnx"));
    assert!(t.ends_with("tokenizer.json"));
    assert!(d.contains("768"));
    let (_, _, fallback) = model_source("unheard-of");
    assert!(fallback.contains("Default"));
}

#[test]
fn test_ignore_checker() {
    let lines = vec!["*.tmp".to_string(), "node_modules".to_string()];
    let checker = IgnoreChecker::new("", &lines);

    assert!(checker.is_ignored("test.tmp", false));
    assert!(checker.is_ignored("node_modules/package.json", false));
    assert!(checker.is_ignored("node_modules", true));

    assert!(!checker.is_ignored("test.txt", false));
    assert!(!checker.is_ignored("src/main.rs", false));
}

#[test]
fn test_ignore_checker_directory_rule_covers_path_itself() {
    // a directory-only rule ignores the directory's path even when the
    // caller asks about it as a plain file
    let lines = vec!["node_modules/".to_string()];
    let checker = IgnoreChecker::new("", &lines);
    assert!(checker.is_ignored("node_modules", false));
    assert!(checker.is_ignored("node_modules", true));
    assert!(!checker.is_ignored("node_module", false));
}

#[test]
fn test_ignore_checker_strips_root() {
    let lines = vec!["target".to_string()];
    let checker = IgnoreChecker::new("/home/me/project", &lines);
    assert!(checker.is_ignored("/home/me/project/target/debug/app", false));
    assert!(!checker.is_ignored("/home/me/project/src/lib.rs", false));
}

#[test]
fn test_event_decision() {
    assert!(event_decision(false, true, false, "main.rs"));
    assert!(!event_decision(true, true, false, "main.rs"));
    assert!(!event_decision(false, false, false, "main.rs"));
    assert!(!event_decision(false, true, true, "src"));
    assert!(!event_decision(false, true, false, ".gitignore"));
}

#[test]
fn test_dedupe_paths() {
    let batch = vec![
        "/a".to_string(),
        "/b".to_string(),
        "/a".to_string(),
        "/c".to_string(),
        "/b".to_string(),
    ];
    let unique = dedupe_paths(&batch);
    assert_eq!(unique, vec!["/a".to_string(), "/b".to_string(), "/c".to_string()]);
}

#[test]
fn test_chunking_route() {
    let mut config = Config::default();
    config.plugins.push(("ipynb".to_string(), vec!["nb-to-text".to_string()]));

    match chunking_route(&config, "ipynb") {
        ChunkRoute::Plugin(argv) => assert_eq!(argv, vec!["nb-to-text".to_string()]),
        _ => panic!("plugin route expected"),
    }
    assert!(matches!(chunking_route(&config, "pdf"), ChunkRoute::Pdf));
    assert!(matches!(chunking_route(&config, "rs"), ChunkRoute::Text));
}

#[test]
fn test_plugin_argv() {
    let cmd = vec!["parse".to_string(), "--fast".to_string()];
    let argv = plugin_argv(&cmd, "/data/f.bin").unwrap();
    assert_eq!(argv, vec!["parse".to_string(), "--fast".to_string(), "/data/f.bin".to_string()]);

    let empty: Vec<String> = Vec::new();
    assert!(matches!(plugin_argv(&empty, "/x"), Err(CoreError::PluginEmpty)));
}

#[test]
fn test_plugin_timeout() {
    // a plugin that ran past its wall-clock budget reports a timeout
    let out = classify_plugin_result(true, false, 0, String::new(), None);
    assert!(matches!(out, Err(CoreError::PluginTimeout)));
}

#[test]
fn test_plugin_outcomes() {
    let ok = classify_plugin_result(false, true, 0, String::new(), Some("text".to_string()));
    assert_eq!(ok.unwrap(), "text");

    let failed = classify_plugin_result(false, false, 3, "boom".to_string(), None);
    match failed {
        Err(CoreError::PluginExit(code, err)) => {
            assert_eq!(code, 3);
            assert_eq!(err, "boom");
        },
        _ => panic!("exit error expected"),
    }

    let binary = classify_plugin_result(false, true, 0, String::new(), None);
    assert!(matches!(binary, Err(CoreError::PluginBinary)));
}

#[test]
fn test_merge_metadata() {
    let mut file_meta = Metadata::new();
    file_meta.size = Some(10);
    file_meta.modified = Some(7);
    file_meta.extension = Some("md".to_string());

    let mut chunk_meta = Metadata::new();
    chunk_meta.modified = Some(99);
    chunk_meta.headers = Some(vec!["H".to_string()]);

    let merged = merge_metadata(&file_meta, Some(chunk_meta));
    assert_eq!(merged.size, Some(10));
    assert_eq!(merged.modified, Some(99));
    assert_eq!(merged.extension, Some("md".to_string()));
    assert_eq!(merged.headers, Some(vec!["H".to_string()]));

    let plain = merge_metadata(&file_meta, None);
    assert_eq!(plain.size, Some(10));
    assert_eq!(plain.headers, None);
}

#[test]
fn test_mcp_routing() {
    assert!(matches!(mcp_route("initialize", false, false, ""), McpAction::NoReply));
    assert!(matches!(mcp_route("initialize", true, false, ""), McpAction::Initialize));
    assert!(matches!(mcp_route("tools/list", true, false, ""), McpAction::ListTools));
    assert!(matches!(
        mcp_route("tools/call", true, true, "search_context"),
        McpAction::CallSearch
    ));
    assert!(matches!(mcp_route("tools/call", true, true, "get_status"), McpAction::CallStatus));
    assert!(matches!(mcp_route("tools/call", true, true, "bogus"), McpAction::UnknownTool));
    assert!(matches!(mcp_route("tools/call", true, false, ""), McpAction::MissingParams));
    assert!(matches!(mcp_route("shutdown", true, false, ""), McpAction::UnknownMethod));

    assert_eq!(mcp_error_code(&McpAction::UnknownMethod), -32601);
    assert_eq!(mcp_error_code(&McpAction::MissingParams), -32602);
}

#[test]
fn test_query_request_options() {
    let mut req = QueryRequest::new("find this".to_string());
    req.limit = Some(3);
    req.min_score = Some(250_000);
    let opts = req.into_options();
    assert_eq!(opts.limit, Some(3));
    assert_eq!(opts.min_score, Some(250_000));
    assert_eq!(opts.start_time, None);
    assert_eq!(opts.file_types, None);
}
