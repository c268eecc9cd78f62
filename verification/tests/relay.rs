use codex_toolkit::relay_config::{
    apply_relay_config_to_default, clear_relay_config_from_default, ensure_trailing_newline,
    is_valid_provider_id, load_relay_settings_from_default, mask_api_key, normalize_provider_id,
    relay_apply_result, relay_status_from_default, relay_status_from_home, restart_result, save_relay_settings_to_default,
    remove_relay_provider, upsert_relay_provider, validate_relay_settings, RelaySettings,
};

fn relay_settings() -> RelaySettings {
    let mut s = RelaySettings::default();
    s.enabled = true;
    s.base_url = "https://relay.example.test/v1".to_string();
    s.api_key = "sk-secret-value".to_string();
    s.test_model = Some("gpt-5-mini".to_string());
    s
}

#[test]
fn apply_relay_config_rejects_empty_base_url() {
    let mut settings = relay_settings();
    settings.base_url = " ".to_string();

    let error = apply_relay_config_to_default(settings, "").unwrap_err();

    assert!(error.contains("Base URL"));
    assert!(!error.contains("sk-secret-value"));
}

#[test]
fn apply_relay_config_rejects_empty_api_key_without_leaking_secret() {
    let mut settings = relay_settings();
    settings.api_key = " ".to_string();

    let error = apply_relay_config_to_default(settings, "").unwrap_err();

    assert!(error.contains("API Key"));
    assert!(!error.contains("sk-secret-value"));
}

#[test]
fn apply_relay_config_creates_config_toml() {
    let (saved, config) = apply_relay_config_to_default(relay_settings(), "").unwrap();
    let status = relay_status_from_home("config.toml".to_string(), &config, &saved, false);
    let result = relay_apply_result("config.toml".to_string(), None, &status, false);

    assert!(result.configured);
    assert!(result.backup_path.is_none());
    assert!(config.contains(r#"model_provider = "moapi""#));
    assert!(config.contains("[model_providers.moapi]"));
    assert!(config.contains(r#"base_url = "https://relay.example.test/v1""#));
    assert!(config.contains(r#"experimental_bearer_token = "sk-secret-value""#));
    assert!(config.ends_with('\n'));
    assert_eq!(status.route, "relay");
    assert_eq!(status.masked_api_key, Some("sk...alue".to_string()));
    assert_eq!(result.message, "Relay configuration applied. Restart Codex to use it.");
}

#[test]
fn apply_relay_config_preserves_unrelated_config() {
    let (_, config) = apply_relay_config_to_default(relay_settings(), "[features]\ngoals = true\n").unwrap();
    assert!(config.contains("[features]"));
    assert!(config.contains("goals = true"));
    assert!(config.contains("[model_providers.moapi]"));
}

#[test]
fn apply_relay_config_uses_custom_provider_id() {
    let mut settings = relay_settings();
    settings.provider_id = "custom_provider".to_string();
    let (_, config) = apply_relay_config_to_default(settings, "").unwrap();
    assert!(config.contains(r#"model_provider = "custom_provider""#));
    assert!(config.contains("[model_providers.custom_provider]"));
    assert!(config.contains(r#"name = "custom_provider""#));
}

#[test]
fn clear_relay_config_removes_provider() {
    let (_, config) = apply_relay_config_to_default(relay_settings(), "").unwrap();
    let cleared = clear_relay_config_from_default(&relay_settings(), &config).unwrap();
    let status = relay_status_from_home("config.toml".to_string(), &cleared, &relay_settings(), false);
    let result = relay_apply_result("config.toml".to_string(), None, &status, true);

    assert!(!result.configured);
    assert!(!cleared.contains("moapi"));
    assert_eq!(status.route, "official");
    assert_eq!(result.message, "Official endpoint restored. Restart Codex to use it.");
}

#[test]
fn load_relay_settings_prefers_active_config_provider() {
    let mut saved = RelaySettings::default();
    saved.provider_id = "old_provider".to_string();
    saved.base_url = "https://old.example.test/v1".to_string();
    saved.api_key = "sk-old-value".to_string();
    saved.test_model = Some("gpt-5-mini".to_string());
    let config = "model_provider = \"custom_provider\"\n\n[model_providers.custom_provider]\nname = \"custom_provider\"\nwire_api = \"responses\"\nbase_url = \"https://active.example.test/v1\"\nexperimental_bearer_token = \"sk-active-value\"\n";

    let loaded = load_relay_settings_from_default(saved, config);

    assert!(loaded.enabled);
    assert_eq!(loaded.provider_id, "custom_provider");
    assert_eq!(loaded.base_url, "https://active.example.test/v1");
    assert_eq!(loaded.api_key, "sk-active-value");
    assert_eq!(loaded.test_model, Some("gpt-5-mini".to_string()));
}

#[test]
fn relay_status_detects_active_custom_provider_from_config() {
    let config = "model_provider = \"custom_provider\"\n\n[model_providers.custom_provider]\nname = \"custom_provider\"\nwire_api = \"responses\"\nbase_url = \"https://active.example.test/v1\"\nexperimental_bearer_token = \"sk-active-value\"\n";

    let settings = load_relay_settings_from_default(RelaySettings::default(), config);
    let status = relay_status_from_home("config.toml".to_string(), config, &settings, false);

    assert!(status.configured);
    assert_eq!(status.route, "relay");
    assert_eq!(status.provider_id, "custom_provider");
    assert_eq!(status.base_url, Some("https://active.example.test/v1".to_string()));
    assert!(status.has_api_key);
    assert_eq!(status.masked_api_key, Some("sk...alue".to_string()));

    let from_default = relay_status_from_default("config.toml".to_string(), config, RelaySettings::default(), true);
    assert!(from_default.configured);
    assert!(from_default.codex_running);
}

#[test]
fn load_relay_settings_falls_back_to_root_provider_fields() {
    let config = "model_provider = \"moapi\"\nbase_url = \"https://root.example.test/v1\"\napi_key = \"sk-root-value\"\n\n[model_providers.moapi]\nname = \"moapi\"\nwire_api = \"responses\"\n";
    let loaded = load_relay_settings_from_default(RelaySettings::default(), config);
    let status = relay_status_from_home("config.toml".to_string(), config, &loaded, false);

    assert!(loaded.enabled);
    assert_eq!(loaded.provider_id, "moapi");
    assert_eq!(loaded.base_url, "https://root.example.test/v1");
    assert_eq!(loaded.api_key, "sk-root-value");
    assert!(status.configured);
    assert_eq!(status.route, "relay");
    assert_eq!(status.base_url, Some("https://root.example.test/v1".to_string()));
    assert_eq!(status.masked_api_key, Some("sk...alue".to_string()));
}

#[test]
fn invalid_configuration_is_reported() {
    assert_eq!(upsert_relay_provider("model = [", &relay_settings()).unwrap_err(), "Codex config.toml is invalid.");
    let status = relay_status_from_home("c".to_string(), "model = [", &relay_settings(), false);
    assert!(!status.configured);
    assert_eq!(status.provider_id, "moapi");
}

#[test]
fn validation_errors_come_in_order() {
    let mut s = relay_settings();
    s.enabled = false;
    assert_eq!(validate_relay_settings(&s).unwrap_err(), "Relay is disabled.");
    let mut s = relay_settings();
    s.provider_id = "bad id".to_string();
    assert_eq!(
        validate_relay_settings(&s).unwrap_err(),
        "Provider ID can only contain letters, numbers, underscore and hyphen."
    );
    let mut s = relay_settings();
    s.base_url = "ftp://x".to_string();
    assert_eq!(validate_relay_settings(&s).unwrap_err(), "API Base URL must start with http:// or https://.");
    assert!(validate_relay_settings(&relay_settings()).is_ok());
}

#[test]
fn normalizes_and_masks() {
    assert_eq!(normalize_provider_id("  "), "moapi");
    assert_eq!(normalize_provider_id(" abc "), "abc");
    assert!(is_valid_provider_id("a-b_c9"));
    assert!(!is_valid_provider_id(""));
    assert_eq!(mask_api_key(" sk-secret-value "), Some("sk...alue".to_string()));
    assert_eq!(mask_api_key("abc"), Some("ab...abc".to_string()));
    assert_eq!(mask_api_key("   "), None);
    assert_eq!(ensure_trailing_newline("a".to_string()), "a\n");
    assert_eq!(ensure_trailing_newline("a\n".to_string()), "a\n");
    let mut s = relay_settings();
    s.provider_id = " ".to_string();
    s.test_model = Some("  ".to_string());
    s.api_key = " k ".to_string();
    let saved = save_relay_settings_to_default(s);
    assert_eq!(saved.provider_id, "moapi");
    assert_eq!(saved.api_key, "k");
    assert_eq!(saved.test_model, None);
}

#[test]
fn restart_messages_follow_the_outcome() {
    assert_eq!(restart_result(true, true, true, Some("p".to_string())).message, "Codex App restarted.");
    assert_eq!(
        restart_result(true, false, true, None).message,
        "Codex was closed, but the app path was unavailable. Please start Codex manually."
    );
    assert_eq!(
        restart_result(false, false, false, None).message,
        "Codex App is not running and no launch path was found. Please start Codex manually."
    );
}

#[test]
fn relay_texts_parse_back_to_the_edited_document() {
    let base = "model = \"gpt-5\"\n\n[features]\ngoals = true\n";
    let upserted = upsert_relay_provider(base, &relay_settings()).unwrap();
    let doc: toml_edit::DocumentMut = upserted.parse().unwrap();
    assert_eq!(doc["model"].as_str(), Some("gpt-5"));
    assert_eq!(doc["features"]["goals"].as_bool(), Some(true));
    assert_eq!(doc["model_provider"].as_str(), Some("moapi"));
    assert_eq!(doc["model_providers"]["moapi"]["base_url"].as_str(), Some("https://relay.example.test/v1"));
    assert_eq!(doc["model_providers"]["moapi"]["experimental_bearer_token"].as_str(), Some("sk-secret-value"));
    let removed = remove_relay_provider(&upserted, "moapi").unwrap();
    let doc: toml_edit::DocumentMut = removed.parse().unwrap();
    assert!(doc.get("model_provider").is_none());
    assert_eq!(doc["features"]["goals"].as_bool(), Some(true));
    assert!(!removed.contains("moapi"));
}

#[test]
fn relay_texts_keep_values_beside_an_empty_table() {
    let base = "[tui]\n\n[features]\ngoals = true\n";
    let (_, config) = apply_relay_config_to_default(relay_settings(), base).unwrap();
    let doc: toml_edit::DocumentMut = config.parse().unwrap();
    assert!(doc["tui"].is_table());
    assert_eq!(doc["features"]["goals"].as_bool(), Some(true));
    assert_eq!(doc["model_provider"].as_str(), Some("moapi"));
    assert_eq!(doc["model_providers"]["moapi"]["base_url"].as_str(), Some("https://relay.example.test/v1"));
    let cleared = clear_relay_config_from_default(&relay_settings(), &config).unwrap();
    let doc: toml_edit::DocumentMut = cleared.parse().unwrap();
    assert!(doc.get("model_provider").is_none());
    assert!(doc.get("model_providers").is_none());
    assert!(doc["tui"].is_table());
}
