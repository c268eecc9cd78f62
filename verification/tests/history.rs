use codex_toolkit::history_sync::{
    array_has_path, build_encrypted_warning, build_provider_summaries, history_counts_fit, history_sync_result,
    history_sync_status_default, increment_scope_count, is_session_meta, merge_state_path_array,
    normalize_comparable_path, parse_quoted_toml_value, push_unique_path, quote_identifier,
    read_configured_providers, read_current_provider, session_meta_info, sync_target_provider,
    to_desktop_workspace_path, ScopeCounts,
};
use codex_toolkit::json::{Json, JsonNumber};
use serde_json::Value;

fn to_json(v: &Value) -> Json {
    match v {
        Value::Null => Json::Null,
        Value::Bool(b) => Json::Bool(*b),
        Value::Number(n) => {
            if let Some(u) = n.as_u64() {
                Json::Number(JsonNumber::PosInt(u))
            } else if let Some(i) = n.as_i64() {
                Json::Number(JsonNumber::NegInt(i))
            } else {
                Json::Number(JsonNumber::Float(n.to_string()))
            }
        }
        Value::String(s) => Json::String(s.clone()),
        Value::Array(a) => Json::Array(a.iter().map(to_json).collect()),
        Value::Object(m) => Json::Object(m.iter().map(|(k, v)| (k.clone(), to_json(v))).collect()),
    }
}

fn parse(text: &str) -> Json {
    to_json(&serde_json::from_str::<Value>(text).unwrap())
}

#[test]
fn parses_root_provider() {
    let value = parse_quoted_toml_value(r#"model_provider = "moapi""#, "model_provider");
    assert_eq!(value.as_deref(), Some("moapi"));
}

#[test]
fn parses_session_meta() {
    let line = r#"{"type":"session_meta","payload":{"id":"abc","model_provider":"openai"}}"#;
    let value = parse(line);
    assert!(is_session_meta(&value));
    let info = session_meta_info(&value).unwrap();
    assert_eq!(info.provider, "openai");
    assert_eq!(info.thread_id, Some("abc".to_string()));
}

#[test]
fn reads_the_current_and_configured_providers() {
    let config = "# comment\n\nmodel_provider = \"moapi\"\n[model_providers.moapi]\n[model_providers.other ]\n[model_providers.moapi]\n";
    assert_eq!(read_current_provider(config), ("moapi".to_string(), false));
    assert_eq!(read_current_provider("[x]\nmodel_provider = \"late\"\n"), ("openai".to_string(), true));
    assert_eq!(read_configured_providers(config), vec!["openai".to_string(), "moapi".to_string(), "other".to_string()]);
}

#[test]
fn scope_counts_stay_in_key_order() {
    let mut counts = ScopeCounts::new();
    increment_scope_count(&mut counts, "sessions", "openai");
    increment_scope_count(&mut counts, "sessions", "moapi");
    increment_scope_count(&mut counts, "sessions", "openai");
    increment_scope_count(&mut counts, "archived_sessions", "zeta");
    assert_eq!(counts.sessions, vec![("moapi".to_string(), 1), ("openai".to_string(), 2)]);
    assert_eq!(counts.archived_sessions, vec![("zeta".to_string(), 1)]);
}

#[test]
fn provider_summaries_put_the_current_provider_first() {
    let mut rollout = ScopeCounts::new();
    increment_scope_count(&mut rollout, "sessions", "a");
    increment_scope_count(&mut rollout, "sessions", "b");
    increment_scope_count(&mut rollout, "sessions", "b");
    increment_scope_count(&mut rollout, "archived_sessions", "openai");
    let mut sqlite = ScopeCounts::new();
    increment_scope_count(&mut sqlite, "sessions", "a");
    let configured = vec!["openai".to_string(), "c".to_string()];
    let summaries = build_provider_summaries(&rollout, &Some(sqlite), "openai", &configured);
    let order: Vec<&str> = summaries.iter().map(|s| s.provider.as_str()).collect();
    assert_eq!(order, vec!["openai", "a", "b", "c"]);
    assert!(summaries[0].is_current);
    assert_eq!(summaries[1].total, 2);
    assert_eq!(summaries[1].total_sqlite, 1);
    assert_eq!(summaries[2].rollout_sessions, 2);
    assert_eq!(summaries[3].total, 0);
}

#[test]
fn encrypted_content_warning_names_other_providers() {
    let mut enc = ScopeCounts::new();
    increment_scope_count(&mut enc, "sessions", "openai");
    increment_scope_count(&mut enc, "archived_sessions", "x");
    assert_eq!(
        build_encrypted_warning(&enc, "moapi"),
        Some("Some histories contain encrypted_content from provider(s) openai, x. Sync can restore list visibility, but continuing those sessions may still fail.".to_string())
    );
    assert_eq!(build_encrypted_warning(&ScopeCounts::new(), "moapi"), None);
}

#[test]
fn workspace_paths_are_compared_in_desktop_form() {
    assert_eq!(to_desktop_workspace_path(r"\\?\C:/Work/proj"), r"C:\Work\proj");
    assert_eq!(to_desktop_workspace_path(r"\\?\UNC\host/share"), r"\\host\share");
    assert_eq!(to_desktop_workspace_path(" /home/u "), " /home/u ");
    assert_eq!(normalize_comparable_path(r"C:\Work\Proj\\"), r"c:\work\proj");
    assert_eq!(normalize_comparable_path(r"C:\"), r"c:\");
    let mut paths = vec![r"C:\Work".to_string()];
    push_unique_path(&mut paths, "c:/work/".to_string());
    push_unique_path(&mut paths, r"D:\x".to_string());
    assert_eq!(paths, vec![r"C:\Work".to_string(), r"D:\x".to_string()]);
}

#[test]
fn desktop_state_gets_missing_workspace_roots() {
    let mut state = parse(r#"{"project-order":["C:\\A"],"other":1}"#);
    let roots = vec![r"c:\a\".to_string(), r"C:\B".to_string()];
    assert_eq!(merge_state_path_array(&mut state, "project-order", &roots), 1);
    assert_eq!(merge_state_path_array(&mut state, "electron-saved-workspace-roots", &roots), 2);
    let mut scalar = parse(r#"{"project-order":5}"#);
    assert_eq!(merge_state_path_array(&mut scalar, "project-order", &roots), 2);
    let mut not_object = parse("[]");
    assert_eq!(merge_state_path_array(&mut not_object, "k", &roots), 0);
    match &state {
        Json::Object(es) => {
            let order = es.iter().find(|(k, _)| k == "project-order").unwrap();
            match &order.1 {
                Json::Array(a) => {
                    assert_eq!(a.len(), 2);
                    assert!(array_has_path(a, r"c:\b"));
                }
                _ => panic!("expected an array"),
            }
        }
        _ => panic!("expected an object"),
    }
}

#[test]
fn sync_targets_and_messages() {
    assert_eq!(sync_target_provider(Some("  ".to_string()), "openai".to_string()), Ok("openai".to_string()));
    assert_eq!(sync_target_provider(Some(" moapi ".to_string()), "openai".to_string()), Ok("moapi".to_string()));
    assert!(sync_target_provider(None, "bad id".to_string()).is_err());
    let r = history_sync_result("h".to_string(), "moapi".to_string(), "b".to_string(), 3, 7, true, None);
    assert_eq!(r.message, "History synced to moapi. Updated 3 session file(s) and 7 SQLite row(s).");
    assert_eq!(quote_identifier("a\"b"), "\"a\"\"b\"");
}

#[test]
fn status_combines_the_scans() {
    let mut rollout = ScopeCounts::new();
    increment_scope_count(&mut rollout, "sessions", "openai");
    let status = history_sync_status_default(
        "home".to_string(),
        "model_provider = \"moapi\"\n",
        rollout,
        &ScopeCounts::new(),
        1,
        None,
        None,
        0,
        "root".to_string(),
        2,
    );
    assert_eq!(status.current_provider, "moapi");
    assert!(!status.current_provider_implicit);
    // "moapi" is neither configured nor counted, so only the default provider is listed.
    assert_eq!(status.provider_summaries.len(), 1);
    assert_eq!(status.provider_summaries[0].provider, "openai");
    assert!(!status.provider_summaries[0].is_current);
    assert_eq!(status.backup_count, 2);
}

#[test]
fn history_counts_fit_while_each_provider_total_fits() {
    let half = usize::MAX / 2;
    let rollout = ScopeCounts {
        sessions: vec![("a".to_string(), half), ("b".to_string(), usize::MAX)],
        archived_sessions: vec![("a".to_string(), half)],
    };
    assert!(history_counts_fit(&rollout, &None));
    let sqlite = ScopeCounts { sessions: vec![("b".to_string(), 1)], archived_sessions: vec![] };
    assert!(!history_counts_fit(&rollout, &Some(sqlite)));
    let sqlite = ScopeCounts { sessions: vec![], archived_sessions: vec![("a".to_string(), 2)] };
    assert!(!history_counts_fit(&rollout, &Some(sqlite)));
    let sqlite = ScopeCounts { sessions: vec![("c".to_string(), 7)], archived_sessions: vec![] };
    assert!(history_counts_fit(&rollout, &Some(sqlite)));
}
