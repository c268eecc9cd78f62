use codex_toolkit::history_files::{
    backup_file_entry, backup_manifest, backup_metadata, is_managed_backup, is_rollout_file_name,
    retarget_session_meta, split_first_line, BACKUP_NAMESPACE,
};
use codex_toolkit::json::{Json, JsonNumber};
use codex_toolkit::usage::session_provider;
use serde_json::Value;

fn to_json(v: &Value) -> Json {
    match v {
        Value::Null => Json::Null,
        Value::Bool(b) => Json::Bool(*b),
        Value::Number(n) => {
            if let Some(u) = n.as_u64() {
                Json::Number(JsonNumber::PosInt(u))
            } else if let Some(i) = n.as_i64() {
                Json::Number(JsonNumber::NegInt(i))
            } else {
                Json::Number(JsonNumber::Float(n.to_string()))
            }
        }
        Value::String(s) => Json::String(s.clone()),
        Value::Array(a) => Json::Array(a.iter().map(to_json).collect()),
        Value::Object(m) => Json::Object(m.iter().map(|(k, v)| (k.clone(), to_json(v))).collect()),
    }
}

fn to_value(j: &Json) -> Value {
    match j {
        Json::Null => Value::Null,
        Json::Bool(b) => Value::Bool(*b),
        Json::Number(JsonNumber::PosInt(u)) => Value::from(*u),
        Json::Number(JsonNumber::NegInt(i)) => Value::from(*i),
        Json::Number(JsonNumber::Float(s)) => serde_json::from_str(s).unwrap(),
        Json::String(s) => Value::String(s.clone()),
        Json::Array(a) => Value::Array(a.iter().map(to_value).collect()),
        Json::Object(es) => {
            let mut m = serde_json::Map::new();
            for (k, v) in es {
                m.insert(k.clone(), to_value(v));
            }
            Value::Object(m)
        }
    }
}

fn parse(text: &str) -> Json {
    to_json(&serde_json::from_str::<Value>(text).unwrap())
}

#[test]
fn recognises_rollout_file_names() {
    assert!(is_rollout_file_name("rollout-2025-01-01T00-00-00-abc.jsonl"));
    assert!(!is_rollout_file_name("rollout-abc.json"));
    assert!(!is_rollout_file_name("session-abc.jsonl"));
    assert!(!is_rollout_file_name("rollout-"));
}

#[test]
fn splits_the_separator_off_the_first_line() {
    let (line, sep) = split_first_line(b"{\"a\":1}\r\n".to_vec());
    assert_eq!(line, b"{\"a\":1}".to_vec());
    assert_eq!(sep, "\r\n");
    let (line, sep) = split_first_line(b"abc\n".to_vec());
    assert_eq!(line, b"abc".to_vec());
    assert_eq!(sep, "\n");
    let (line, sep) = split_first_line(b"abc".to_vec());
    assert_eq!(line, b"abc".to_vec());
    assert_eq!(sep, "");
    let (line, sep) = split_first_line(b"\r".to_vec());
    assert_eq!(line, b"\r".to_vec());
    assert_eq!(sep, "");
}

#[test]
fn retargets_session_meta_provider() {
    let meta = parse(r#"{"type":"session_meta","payload":{"id":"abc","model_provider":"openai"}}"#);
    let updated = to_value(&retarget_session_meta(meta, "moapi").unwrap());
    assert_eq!(updated["payload"]["model_provider"].as_str(), Some("moapi"));
    assert_eq!(updated["payload"]["id"].as_str(), Some("abc"));
    assert_eq!(updated["type"].as_str(), Some("session_meta"));

    let missing = parse(r#"{"type":"session_meta","payload":{"id":"abc"}}"#);
    let updated = to_value(&retarget_session_meta(missing, "moapi").unwrap());
    assert_eq!(updated["payload"]["model_provider"].as_str(), Some("moapi"));

    let invalid = parse(r#"{"type":"session_meta","payload":"x"}"#);
    assert_eq!(
        retarget_session_meta(invalid, "moapi").unwrap_err(),
        "Session metadata payload is invalid."
    );
}

#[test]
fn builds_backup_records() {
    let entry = to_value(&backup_file_entry(
        "/h/sessions/rollout-a.jsonl".to_string(),
        Some("abc".to_string()),
        None,
        "sessions".to_string(),
        "openai".to_string(),
        "{}".to_string(),
        "\n".to_string(),
        1700000000,
        5,
    ));
    assert_eq!(entry["threadId"].as_str(), Some("abc"));
    assert!(entry["cwd"].is_null());
    assert_eq!(entry["originalMtimeUnixSeconds"].as_i64(), Some(1700000000));
    assert_eq!(entry["originalMtimeNanoseconds"].as_u64(), Some(5));

    let metadata = backup_metadata("/h".to_string(), "moapi".to_string(), "now".to_string(), 3);
    assert!(is_managed_backup(&metadata));
    let metadata = to_value(&metadata);
    assert_eq!(metadata["namespace"].as_str(), Some(BACKUP_NAMESPACE));
    assert_eq!(metadata["changedSessionFiles"].as_u64(), Some(3));
    assert_eq!(metadata["version"].as_u64(), Some(1));

    let manifest = to_value(&backup_manifest("/h".to_string(), "moapi".to_string(), vec![Json::Null]));
    assert_eq!(manifest["files"].as_array().map(|a| a.len()), Some(1));
    assert_eq!(manifest["targetProvider"].as_str(), Some("moapi"));
    assert!(!is_managed_backup(&parse(r#"{"namespace":"other"}"#)));
}

#[test]
fn reads_session_provider_from_meta_line() {
    let meta = parse(r#"{"type":"session_meta","payload":{"model_provider":"moapi"}}"#);
    assert_eq!(session_provider(&meta).as_deref(), Some("moapi"));
    let other = parse(r#"{"type":"event_msg","payload":{"model_provider":"moapi"}}"#);
    assert_eq!(session_provider(&other), None);
}
