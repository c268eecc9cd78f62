use codex_toolkit::context_config::{
    context_entry_summary, delete_context_entry, entries_from_doc, list_context_entries,
    delete_context_entry_default, normalize_optional_toml, toggle_context_entry, toggle_context_entry_default,
    upsert_context_entry, upsert_context_entry_default, validate_entry_id, ContextDeleteInput, ContextEntryInput,
    ContextToggleInput,
};
use codex_toolkit::relay_config::config_doc_or_empty;
use toml_edit::DocumentMut;

#[test]
fn lists_plugin_entries_and_enabled_state() {
    let config = "[plugins.demo]\npath = \"C:/demo\"\nenabled = false\n";
    let doc = config_doc_or_empty(config).unwrap();
    let entries = entries_from_doc(&doc, "config.toml".to_string());

    assert_eq!(entries.plugins.len(), 1);
    assert_eq!(entries.plugins[0].id, "demo");
    assert!(!entries.plugins[0].enabled);
    assert!(entries.plugins[0].toml_body.contains("path = \"C:/demo\""));
}

#[test]
fn upserts_and_toggles_plugin_entry() {
    let mut doc = DocumentMut::new();
    upsert_context_entry(&mut doc, "plugin", "demo", "path = \"C:/demo\"\n").unwrap();
    toggle_context_entry(&mut doc, "plugin", "demo", false).unwrap();
    let contents = doc.to_string();

    assert!(contents.contains("[plugins.demo]"));
    assert!(contents.contains("path = \"C:/demo\""));
    assert!(contents.contains("enabled = false"));
}

#[test]
fn delete_removes_empty_context_table() {
    let mut doc = config_doc_or_empty("[skills.demo]\npath = \"x\"\n").unwrap();
    delete_context_entry(&mut doc, "skill", "demo").unwrap();

    assert!(!doc.to_string().contains("skills"));
}

#[test]
fn context_edits_report_their_errors() {
    let mut doc = DocumentMut::new();
    assert_eq!(upsert_context_entry(&mut doc, "plugin", " ", "").unwrap_err(), "Entry ID cannot be empty.");
    assert_eq!(
        upsert_context_entry(&mut doc, "plugin", "a b", "").unwrap_err(),
        "Entry ID can only contain letters, numbers, dot, underscore and hyphen."
    );
    assert_eq!(upsert_context_entry(&mut doc, "widget", "a", "").unwrap_err(), "Unknown entry type.");
    assert_eq!(upsert_context_entry(&mut doc, "skill", "a", "x = [").unwrap_err(), "Codex config.toml is invalid.");
    let mut scalar = config_doc_or_empty("skills = 1\n").unwrap();
    assert_eq!(upsert_context_entry(&mut scalar, "skill", "a", "").unwrap_err(), "skills must be a TOML table.");
    assert_eq!(toggle_context_entry(&mut doc, "mcp", "none", true).unwrap_err(), "Entry was not found.");
    assert!(validate_entry_id("a.b-c_1").is_ok());
}

#[test]
fn edits_apply_to_configuration_text() {
    let input = ContextEntryInput {
        kind: "mcpServers".to_string(),
        id: " srv ".to_string(),
        toml_body: "command = \"npx\"\ndisabled = true\n".to_string(),
    };
    let edit = upsert_context_entry_default(&input, "", "config.toml".to_string()).unwrap();
    assert_eq!(edit.message, "Tool/plugin entry saved.");
    assert!(edit.contents.contains("[mcp_servers.srv]"));
    assert_eq!(edit.entries.mcp_servers.len(), 1);
    assert_eq!(edit.entries.mcp_servers[0].kind, "mcp");
    assert!(!edit.entries.mcp_servers[0].enabled);
    let listed = list_context_entries(&edit.contents, "config.toml".to_string()).unwrap();
    assert_eq!(listed.mcp_servers[0].summary, "command = \"npx\"");
    let result = edit.into_result(Some("backup".to_string()));
    assert_eq!(result.backup_path, Some("backup".to_string()));
}

#[test]
fn summaries_skip_blank_lines_and_comments() {
    assert_eq!(context_entry_summary("\n  # note\n  key = 1 \n"), "key = 1");
    assert_eq!(context_entry_summary(""), "");
    assert_eq!(context_entry_summary(&"x".repeat(100)).len(), 96);
    assert_eq!(normalize_optional_toml("  a = 1  ".to_string()), "a = 1\n");
    assert_eq!(normalize_optional_toml(" \n ".to_string()), "");
}

#[test]
fn written_text_parses_back_to_the_edited_document() {
    let base = "[features]\ngoals = true\n\n[plugins.demo]\npath = \"C:/demo\"\ndisabled = true\n";
    let toggle = ContextToggleInput { kind: "plugins".to_string(), id: "demo".to_string(), enabled: true };
    let edit = toggle_context_entry_default(&toggle, base, "config.toml".to_string()).unwrap();
    assert_eq!(edit.message, "Tool/plugin entry enabled.");
    let doc: DocumentMut = edit.contents.parse().unwrap();
    assert_eq!(doc["features"]["goals"].as_bool(), Some(true));
    assert_eq!(doc["plugins"]["demo"]["path"].as_str(), Some("C:/demo"));
    assert_eq!(doc["plugins"]["demo"]["enabled"].as_bool(), Some(true));
    assert!(doc["plugins"]["demo"].get("disabled").is_none());
    assert!(edit.contents.ends_with('\n'));
}

#[test]
fn deleting_twice_writes_the_same_document() {
    let base = "[skills.demo]\npath = \"x\"\n\n[skills.other]\npath = \"y\"\n";
    let input = ContextDeleteInput { kind: "skill".to_string(), id: " demo ".to_string() };
    let first = delete_context_entry_default(&input, base, "config.toml".to_string()).unwrap();
    let second = delete_context_entry_default(&input, &first.contents, "config.toml".to_string()).unwrap();
    assert_eq!(first.contents, second.contents);
    assert_eq!(second.entries.skills.len(), 1);
    assert_eq!(second.entries.skills[0].id, "other");
    let doc: DocumentMut = second.contents.parse().unwrap();
    assert!(doc["skills"].get("demo").is_none());
    assert_eq!(doc["skills"]["other"]["path"].as_str(), Some("y"));
    let last = ContextDeleteInput { kind: "skills".to_string(), id: "other".to_string() };
    let emptied = delete_context_entry_default(&last, &second.contents, "config.toml".to_string()).unwrap();
    let doc: DocumentMut = emptied.contents.parse().unwrap();
    assert!(doc.get("skills").is_none());
}

#[test]
fn listed_body_parses_back_to_the_entry() {
    let config = "[mcp_servers.srv]\ncommand = \"npx\"\nargs = [\"-y\"]\n";
    let entries = list_context_entries(config, "config.toml".to_string()).unwrap();
    let body: DocumentMut = entries.mcp_servers[0].toml_body.parse().unwrap();
    assert_eq!(body["command"].as_str(), Some("npx"));
    assert!(body["args"].is_array());
    assert!(entries.mcp_servers[0].toml_body.ends_with('\n'));
}

#[test]
fn context_texts_keep_values_beside_an_empty_table() {
    let base = "[tui]\n\n[plugins.demo]\npath = \"C:/demo\"\nenabled = false\n";
    let toggle = ContextToggleInput { kind: "plugin".to_string(), id: "demo".to_string(), enabled: true };
    let edit = toggle_context_entry_default(&toggle, base, "config.toml".to_string()).unwrap();
    let doc: DocumentMut = edit.contents.parse().unwrap();
    assert!(doc["tui"].is_table());
    assert_eq!(doc["plugins"]["demo"]["enabled"].as_bool(), Some(true));
    let input = ContextEntryInput { kind: "skill".to_string(), id: "empty".to_string(), toml_body: String::new() };
    let saved = upsert_context_entry_default(&input, &edit.contents, "config.toml".to_string()).unwrap();
    assert!(saved.contents.contains("[skills.empty]"));
    let delete = ContextDeleteInput { kind: "skill".to_string(), id: "empty".to_string() };
    let first = delete_context_entry_default(&delete, &saved.contents, "config.toml".to_string()).unwrap();
    let second = delete_context_entry_default(&delete, &first.contents, "config.toml".to_string()).unwrap();
    assert_eq!(first.contents, second.contents);
    assert!(!second.contents.contains("skills"));
}
