use codex_toolkit::context_config::{
    delete_context_entry_default, list_context_entries, toggle_context_entry_default,
    upsert_context_entry_default, ContextDeleteInput, ContextEntryInput, ContextToggleInput,
};
use codex_toolkit::local_router::ResponseStreamState;
use codex_toolkit::plugin_unlock::quote_windows_argument;
use codex_toolkit::router_stream::{SseLine, SseLineBuffer};
use codex_toolkit::history_files::retarget_session_meta;
use codex_toolkit::history_sync::{count_get, increment_scope_count, merge_state_path_array, session_meta_info, ScopeCounts};
use codex_toolkit::json::{Json, JsonNumber};
use codex_toolkit::relay_config::{
    apply_relay_config_and_restart_default, apply_relay_config_to_default, clear_relay_config_from_default, relay_status_from_home,
    save_relay_settings_to_default, RelaySettings,
};
use codex_toolkit::usage::{build_hourly_token_buckets, TokenEvent, TokenUsage};
use serde_json::Value;

fn to_json(v: &Value) -> Json {
    match v {
        Value::Null => Json::Null,
        Value::Bool(b) => Json::Bool(*b),
        Value::Number(n) => {
            if let Some(u) = n.as_u64() {
                Json::Number(JsonNumber::PosInt(u))
            } else if let Some(i) = n.as_i64() {
                Json::Number(JsonNumber::NegInt(i))
            } else {
                Json::Number(JsonNumber::Float(n.to_string()))
            }
        }
        Value::String(s) => Json::String(s.clone()),
        Value::Array(a) => Json::Array(a.iter().map(to_json).collect()),
        Value::Object(m) => Json::Object(m.iter().map(|(k, v)| (k.clone(), to_json(v))).collect()),
    }
}

fn parse(text: &str) -> Json {
    to_json(&serde_json::from_str::<Value>(text).unwrap())
}

fn relay_settings() -> RelaySettings {
    let mut s = RelaySettings::default();
    s.enabled = true;
    s.provider_id = " moapi ".to_string();
    s.base_url = " https://relay.example/v1 ".to_string();
    s.api_key = " sk-abcdef123456 ".to_string();
    s.test_model = Some("  ".to_string());
    s
}

#[test]
fn clearing_after_applying_restores_official_route() {
    let existing = "model = \"gpt-5\"\n[mcp_servers.docs]\ncommand = \"docs\"\n";
    let (settings, applied) = apply_relay_config_to_default(relay_settings(), existing).unwrap();
    let status = relay_status_from_home("config.toml".to_string(), &applied, &settings, false);
    assert!(status.configured);
    assert_eq!(status.route, "relay");
    let cleared = clear_relay_config_from_default(&settings, &applied).unwrap();
    let status = relay_status_from_home("config.toml".to_string(), &cleared, &settings, false);
    assert!(!status.configured);
    assert_eq!(status.route, "official");
    assert_eq!(status.provider_id, "moapi");
    assert!(cleared.contains("[mcp_servers.docs]"));
}

#[test]
fn saving_settings_twice_changes_nothing() {
    let once = save_relay_settings_to_default(relay_settings());
    let twice = save_relay_settings_to_default(save_relay_settings_to_default(relay_settings()));
    assert_eq!(once.provider_id, twice.provider_id);
    assert_eq!(once.base_url, twice.base_url);
    assert_eq!(once.api_key, twice.api_key);
    assert_eq!(once.test_model, twice.test_model);
    assert_eq!(once.base_url, "https://relay.example/v1");
    assert_eq!(once.test_model, None);
}

#[test]
fn toggling_changes_only_that_flag() {
    let contents = "[plugins.a]\nenabled = true\n\n[plugins.b]\ndisabled = true\n\n[plugins.c]\nx = 1\n";
    let input = ContextToggleInput { kind: "plugin".to_string(), id: "b".to_string(), enabled: true };
    let edit = toggle_context_entry_default(&input, contents, "config.toml".to_string()).unwrap();
    let flags: Vec<(String, bool)> = edit.entries.plugins.iter().map(|e| (e.id.clone(), e.enabled)).collect();
    assert_eq!(
        flags,
        vec![("a".to_string(), true), ("b".to_string(), true), ("c".to_string(), true)]
    );
    let input = ContextToggleInput { kind: "plugin".to_string(), id: "a".to_string(), enabled: false };
    let edit = toggle_context_entry_default(&input, &edit.contents, "config.toml".to_string()).unwrap();
    let flags: Vec<(String, bool)> = edit.entries.plugins.iter().map(|e| (e.id.clone(), e.enabled)).collect();
    assert_eq!(
        flags,
        vec![("a".to_string(), false), ("b".to_string(), true), ("c".to_string(), true)]
    );
}

#[test]
fn deleting_takes_the_entry_off_the_list() {
    let contents = "[skills.one]\npath = \"a\"\n\n[skills.two]\npath = \"b\"\n";
    let input = ContextDeleteInput { kind: "skill".to_string(), id: "one".to_string() };
    let edit = delete_context_entry_default(&input, contents, "config.toml".to_string()).unwrap();
    let listed = list_context_entries(&edit.contents, "config.toml".to_string()).unwrap();
    let ids: Vec<String> = listed.skills.iter().map(|e| e.id.clone()).collect();
    assert_eq!(ids, vec!["two".to_string()]);
}

#[test]
fn retargeted_session_reads_back_target() {
    let meta = parse(r#"{"type":"session_meta","payload":{"id":"t1","cwd":"C:/w","model_provider":"openai"}}"#);
    let before = session_meta_info(&meta).unwrap();
    let updated = retarget_session_meta(meta, "moapi").unwrap();
    let after = session_meta_info(&updated).unwrap();
    assert_eq!(after.provider, "moapi");
    assert_eq!(after.thread_id, before.thread_id);
    assert_eq!(after.cwd, before.cwd);
}

#[test]
fn merging_roots_twice_adds_nothing() {
    let mut state = parse(r#"{"project-order":["C:\\a"],"other":1}"#);
    let roots = vec!["c:/a/".to_string(), "D:\\b".to_string()];
    assert_eq!(merge_state_path_array(&mut state, "project-order", &roots), 1);
    assert_eq!(merge_state_path_array(&mut state, "project-order", &roots), 0);
    assert_eq!(merge_state_path_array(&mut state, "electron-saved-workspace-roots", &roots), 2);
    assert_eq!(merge_state_path_array(&mut state, "electron-saved-workspace-roots", &roots), 0);
}

fn usage(total: u64) -> TokenUsage {
    TokenUsage { input_tokens: total, cached_input_tokens: 0, output_tokens: 0, reasoning_output_tokens: 0, total_tokens: total }
}

#[test]
fn hourly_buckets_add_up_to_the_last_day() {
    let now: i64 = 1_781_352_000;
    let events: Vec<TokenEvent> = [
        (now - 86_400, 1),
        (now - 86_399, 2),
        (now - 3_600, 4),
        (now - 3_599, 8),
        (now, 16),
        (now + 1, 32),
    ]
    .iter()
    .map(|(secs, total)| TokenEvent {
        secs: *secs,
        nanos: 0,
        provider: "moapi".to_string(),
        total_usage: None,
        last_usage: Some(usage(*total)),
    })
    .collect();
    let buckets = build_hourly_token_buckets(&events, now, 0);
    let sum: u64 = buckets.iter().map(|b| b.total_tokens).sum();
    assert_eq!(sum, 2 + 4 + 8 + 16);
    assert_eq!(buckets.iter().map(|b| b.event_count).sum::<usize>(), 4);
    assert_eq!(buckets[22].total_tokens, 4);
    assert_eq!(buckets[23].total_tokens, 8 + 16);
}

#[test]
fn upserted_entry_is_listed_with_its_flag() {
    let input = ContextEntryInput {
        kind: "mcp".to_string(),
        id: " docs ".to_string(),
        toml_body: "command = \"docs\"\nenabled = false\n".to_string(),
    };
    let edit = upsert_context_entry_default(&input, "model = \"gpt-5\"\n", "config.toml".to_string()).unwrap();
    let flags: Vec<(String, bool)> = edit.entries.mcp_servers.iter().map(|e| (e.id.clone(), e.enabled)).collect();
    assert_eq!(flags, vec![("docs".to_string(), false)]);
}

fn drain(buffer: &mut SseLineBuffer) -> Vec<String> {
    let mut out = Vec::new();
    while let Some(line) = buffer.next_line() {
        out.push(match line {
            SseLine::Done => "DONE".to_string(),
            SseLine::Data(d) => format!("data {d}"),
            SseLine::Skip => "skip".to_string(),
        });
    }
    out
}

#[test]
fn lines_do_not_depend_on_chunks() {
    let text = "data: {\"a\":1}\r\n: ping\n\ndata: [DONE]\ndata: tail";
    let mut whole = SseLineBuffer::new();
    whole.push_text(text);
    let expected = drain(&mut whole);
    assert_eq!(expected, vec!["data {\"a\":1}", "skip", "skip", "DONE"]);
    for cut in 0..text.len() {
        let mut parts = SseLineBuffer::new();
        parts.push_text(&text[..cut]);
        let mut got = drain(&mut parts);
        parts.push_text(&text[cut..]);
        got.extend(drain(&mut parts));
        assert_eq!(got, expected);
    }
}

#[test]
fn applying_saved_settings_is_applying_the_settings() {
    let existing = "model_provider = \"openai\"\n";
    let (s1, t1) = apply_relay_config_to_default(relay_settings(), existing).unwrap();
    let (s2, t2) = apply_relay_config_and_restart_default(relay_settings(), existing).unwrap();
    assert_eq!(t1, t2);
    assert_eq!(s1.provider_id, s2.provider_id);
    assert_eq!(s2.api_key, "sk-abcdef123456");
    let mut bad = relay_settings();
    bad.base_url = "ftp://x".to_string();
    assert_eq!(
        apply_relay_config_and_restart_default(bad, existing).unwrap_err(),
        "API Base URL must start with http:// or https://."
    );
}

#[test]
fn closing_a_stream_twice_only_completes_again() {
    let mut state = ResponseStreamState::new("gpt-5.5".to_string());
    let _ = state.start_events();
    let _ = state.reasoning_delta_events("think");
    let _ = state.delta_events("pong");
    let first: Vec<&str> = state.done_events().iter().map(|(name, _)| *name).collect();
    assert!(first.contains(&"response.output_text.done"));
    assert!(first.contains(&"response.reasoning_summary_text.done"));
    assert_eq!(first.last(), Some(&"response.completed"));
    let second: Vec<&str> = state.done_events().iter().map(|(name, _)| *name).collect();
    assert_eq!(second, vec!["response.completed"]);
}

#[test]
fn counting_a_session_adds_one_to_its_provider_only() {
    let mut counts = ScopeCounts::new();
    for provider in ["openai", "moapi", "openai", "azure", "moapi", "openai"] {
        let before: Vec<usize> = ["openai", "moapi", "azure"].iter().map(|p| count_get(&counts.sessions, p)).collect();
        increment_scope_count(&mut counts, "sessions", provider);
        for (i, p) in ["openai", "moapi", "azure"].iter().enumerate() {
            let expected = before[i] + if *p == provider { 1 } else { 0 };
            assert_eq!(count_get(&counts.sessions, p), expected);
        }
    }
    increment_scope_count(&mut counts, "archived_sessions", "openai");
    assert_eq!(count_get(&counts.archived_sessions, "openai"), 1);
    assert_eq!(count_get(&counts.sessions, "openai"), 3);
    let keys: Vec<&str> = counts.sessions.iter().map(|(k, _)| k.as_str()).collect();
    assert_eq!(keys, vec!["azure", "moapi", "openai"]);
}

/// Reads one argument as the Windows C runtime does; `None` when the text
/// is not exactly one argument.
fn read_windows_argument(text: &str) -> Option<String> {
    let mut out = String::new();
    let mut backslashes = 0usize;
    let mut quoted = false;
    for c in text.chars() {
        match c {
            '\\' => backslashes += 1,
            '"' => {
                out.push_str(&"\\".repeat(backslashes / 2));
                if backslashes % 2 == 1 {
                    out.push('"');
                } else {
                    quoted = !quoted;
                }
                backslashes = 0;
            }
            ' ' | '\t' if !quoted => return None,
            _ => {
                out.push_str(&"\\".repeat(backslashes));
                out.push(c);
                backslashes = 0;
            }
        }
    }
    out.push_str(&"\\".repeat(backslashes));
    if quoted {
        None
    } else {
        Some(out)
    }
}

#[test]
fn quoted_arguments_read_back() {
    for arg in [
        "",
        "plain",
        "two words",
        "tab\there",
        "say \"hi\"",
        "C:\\Program Files\\",
        "ends with backslash\\",
        "\\\\server\\share",
        "a\\\"b",
        "--remote-allow-origins=http://127.0.0.1:9229",
        "\\",
        "\"",
    ] {
        let quoted = quote_windows_argument(arg);
        assert_eq!(read_windows_argument(&quoted).as_deref(), Some(arg), "{quoted}");
    }
}
