use codex_toolkit::json::{Json, JsonNumber};
use codex_toolkit::plugin_unlock::{
    cdp_reply, cdp_request_text, codex_debug_arguments, command_line_arguments, default_debug_port,
    evaluate_command, http_response_body, packaged_app_user_model_id, pick_page_target,
    ps_single_quote, quote_windows_argument, unlock_after_probe, unlock_plugins_default, version_tuple,
    CdpReply, CdpTarget, UnlockAction, UnlockRequest,
};
use serde_json::Value;

fn to_json(v: &Value) -> Json {
    match v {
        Value::Null => Json::Null,
        Value::Bool(b) => Json::Bool(*b),
        Value::Number(n) => {
            if let Some(u) = n.as_u64() {
                Json::Number(JsonNumber::PosInt(u))
            } else if let Some(i) = n.as_i64() {
                Json::Number(JsonNumber::NegInt(i))
            } else {
                Json::Number(JsonNumber::Float(n.to_string()))
            }
        }
        Value::String(s) => Json::String(s.clone()),
        Value::Array(a) => Json::Array(a.iter().map(to_json).collect()),
        Value::Object(m) => Json::Object(m.iter().map(|(k, v)| (k.clone(), to_json(v))).collect()),
    }
}

fn target(kind: &str, title: &str, url: &str, ws: Option<&str>) -> CdpTarget {
    CdpTarget {
        target_type: kind.to_string(),
        title: title.to_string(),
        url: url.to_string(),
        web_socket_debugger_url: ws.map(|s| s.to_string()),
    }
}

#[test]
fn picks_the_codex_page() {
    let targets = vec![
        target("worker", "Codex", "x", Some("ws://w")),
        target("page", "Other", "app://main", Some("ws://1")),
        target("page", "Main", "app://CODEX/index", Some("ws://2")),
    ];
    assert_eq!(pick_page_target(&targets).unwrap().web_socket_debugger_url, Some("ws://2".to_string()));
    let plain = vec![target("page", "a", "b", Some("")), target("page", "c", "d", Some("ws://3"))];
    assert_eq!(pick_page_target(&plain).unwrap().title, "c");
    assert_eq!(pick_page_target(&vec![]).unwrap_err(), "No injectable Codex page target found.");
}

#[test]
fn quotes_windows_arguments() {
    assert_eq!(quote_windows_argument("plain"), "plain");
    assert_eq!(quote_windows_argument(""), "\"\"");
    assert_eq!(quote_windows_argument("a b"), "\"a b\"");
    assert_eq!(quote_windows_argument(r#"a\"b"#), r#""a\\\"b""#);
    assert_eq!(quote_windows_argument(r"dir\ x\"), r#""dir\ x\\""#);
    let args = codex_debug_arguments(9229);
    assert_eq!(args, vec!["--remote-debugging-port=9229".to_string(), "--remote-allow-origins=http://127.0.0.1:9229".to_string()]);
    assert_eq!(
        command_line_arguments(&vec!["x".to_string(), "y z".to_string()]),
        "x \"y z\""
    );
    assert_eq!(ps_single_quote("it's"), "it''s");
}

#[test]
fn reads_packaged_app_identity() {
    assert_eq!(
        packaged_app_user_model_id(r"C:\Program Files\WindowsApps\OpenAI.Codex_1.2.3.0_x64__abc123\app"),
        Some("OpenAI.Codex_abc123!App".to_string())
    );
    assert_eq!(packaged_app_user_model_id(r"C:\Other\app"), None);
    assert_eq!(version_tuple("OpenAI.Codex_1.2.30.4_x64__abc"), Some((1, 2, 30, 4)));
    assert_eq!(version_tuple("OpenAI.Codex_1.2.3_x64__abc"), None);
    assert_eq!(version_tuple("Other_1.2.3.4_x"), None);
}

#[test]
fn talks_to_the_devtools_endpoint() {
    assert_eq!(cdp_request_text(9229, "/json"), "GET /json HTTP/1.1\r\nHost: 127.0.0.1:9229\r\nConnection: close\r\n\r\n");
    assert_eq!(http_response_body("HTTP/1.1 200 OK\r\nA: b\r\n\r\n[1]").unwrap(), "[1]");
    assert!(http_response_body("garbage").is_err());
    let command = evaluate_command("1+1");
    let text = serde_json::to_string(&to_value(&command)).unwrap();
    assert!(text.contains("\"method\":\"Runtime.evaluate\""));
    let ok = to_json(&serde_json::from_str::<Value>(r#"{"id":1,"result":{}}"#).unwrap());
    assert!(matches!(cdp_reply(&ok, 1), CdpReply::Done));
    assert!(matches!(cdp_reply(&ok, 2), CdpReply::Skip));
    let failed = to_json(&serde_json::from_str::<Value>(r#"{"id":1,"error":{"code":-1}}"#).unwrap());
    match cdp_reply(&failed, 1) {
        CdpReply::Failed(m) => assert_eq!(m, "CDP evaluate failed: {\"code\":-1}"),
        _ => panic!("expected a failure"),
    }
}

fn to_value(j: &Json) -> Value {
    match j {
        Json::Null => Value::Null,
        Json::Bool(b) => Value::Bool(*b),
        Json::Number(JsonNumber::PosInt(u)) => Value::from(*u),
        Json::Number(JsonNumber::NegInt(i)) => Value::from(*i),
        Json::Number(JsonNumber::Float(s)) => serde_json::from_str(s).unwrap(),
        Json::String(s) => Value::String(s.clone()),
        Json::Array(a) => Value::Array(a.iter().map(to_value).collect()),
        Json::Object(es) => {
            let mut m = serde_json::Map::new();
            for (k, v) in es {
                m.insert(k.clone(), to_value(v));
            }
            Value::Object(m)
        }
    }
}

#[test]
fn unlock_decisions() {
    let request = UnlockRequest { debug_port: 0, restart_codex: true };
    let found = target("page", "Codex", "app://x", Some("ws://1"));
    match unlock_plugins_default(&request, Ok(found), None) {
        UnlockAction::Inject(url, result) => {
            assert_eq!(url, "ws://1");
            assert_eq!(result.debug_port, default_debug_port());
            assert!(!result.restarted);
            assert_eq!(result.message, "Plugin unlock script injected into the running Codex window.");
        }
        _ => panic!("expected an injection"),
    }
    match unlock_plugins_default(&request, Err("down".to_string()), Some("C:/Codex.exe".to_string())) {
        UnlockAction::Fail(e) => assert_eq!(
            e,
            "Codex is already running without DevTools on port 9229. Close Codex first, then launch it from this toolkit."
        ),
        _ => panic!("expected a failure"),
    }
    assert!(matches!(unlock_plugins_default(&request, Err("down".to_string()), None), UnlockAction::Launch));
    let no_restart = UnlockRequest { debug_port: 9333, restart_codex: false };
    assert!(matches!(unlock_plugins_default(&no_restart, Err("down".to_string()), None), UnlockAction::Probe));
    let (_, result) = unlock_after_probe(9333, Ok(target("page", "t", "u", Some("ws://9"))), true, None).unwrap();
    assert!(result.restarted);
    assert_eq!(result.message, "Plugin unlock script injected. Open the Codex plugin page to verify.");
    assert_eq!(unlock_after_probe(9333, Err("e".to_string()), false, None).unwrap_err(), "e");
}
