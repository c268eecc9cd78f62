use codex_toolkit::json::{Json, JsonNumber};
use codex_toolkit::usage::{
    build_hourly_token_buckets, build_provider_token_summaries, build_weekly_token_buckets, context_window,
    is_relay_usage_provider, parse_quoted_toml_value, plan_type, rate_window, read_configured_providers, token_event,
    token_totals, hourly_buckets_fit, provider_usage_fits, usage_mode, weekly_buckets_fit, TokenEvent, TokenUsage,
};
use serde_json::Value;

fn to_json(v: &Value) -> Json {
    match v {
        Value::Null => Json::Null,
        Value::Bool(b) => Json::Bool(*b),
        Value::Number(n) => {
            if let Some(u) = n.as_u64() {
                Json::Number(JsonNumber::PosInt(u))
            } else if let Some(i) = n.as_i64() {
                Json::Number(JsonNumber::NegInt(i))
            } else {
                Json::Number(JsonNumber::Float(n.to_string()))
            }
        }
        Value::String(s) => Json::String(s.clone()),
        Value::Array(a) => Json::Array(a.iter().map(to_json).collect()),
        Value::Object(m) => Json::Object(m.iter().map(|(k, v)| (k.clone(), to_json(v))).collect()),
    }
}

fn test_usage(total_tokens: u64) -> TokenUsage {
    TokenUsage {
        input_tokens: total_tokens / 2,
        cached_input_tokens: 0,
        output_tokens: total_tokens / 2,
        reasoning_output_tokens: 0,
        total_tokens,
    }
}

fn test_event(secs: i64, provider: &str, total_tokens: u64) -> TokenEvent {
    TokenEvent {
        secs,
        nanos: 0,
        provider: provider.to_string(),
        total_usage: Some(test_usage(total_tokens)),
        last_usage: Some(test_usage(total_tokens)),
    }
}

fn instant(text: &str) -> i64 {
    chrono::DateTime::parse_from_rfc3339(text).unwrap().timestamp()
}

#[test]
fn relay_provider_uses_token_usage_mode() {
    assert!(!is_relay_usage_provider("openai"));
    assert!(is_relay_usage_provider("moapi"));
    assert!(is_relay_usage_provider("songsongcard"));
    assert!(!is_relay_usage_provider("unknown"));
}

#[test]
fn builds_hourly_token_buckets_for_last_24_hours() {
    let now = instant("2026-06-13T12:00:00Z");
    let events = vec![
        test_event(now - 20 * 60, "moapi", 100),
        test_event(now - 3600 - 20 * 60, "moapi", 250),
        test_event(now - 25 * 3600, "moapi", 999),
    ];

    let buckets = build_hourly_token_buckets(&events, now, 0);

    assert_eq!(buckets.len(), 24);
    assert_eq!(buckets[23].total_tokens, 100);
    assert_eq!(buckets[23].event_count, 1);
    assert_eq!(buckets[22].total_tokens, 250);
    assert_eq!(buckets.iter().map(|bucket| bucket.total_tokens).sum::<u64>(), 350);
}

#[test]
fn ignores_non_token_count_events() {
    let line = r#"{"timestamp":"2026-04-24T12:34:56.000Z","type":"event_msg","payload":{"type":"agent_message","message":"hello"}}"#;
    let value = to_json(&serde_json::from_str::<Value>(line).unwrap());
    assert!(token_event(&value, "openai").is_none());
}

#[test]
fn reads_token_count_events() {
    let line = r#"{"timestamp":"2026-04-24T12:34:56.000Z","type":"event_msg","payload":{"type":"token_count","info":{"total_token_usage":{"input_tokens":1200,"cached_input_tokens":800,"output_tokens":240,"reasoning_output_tokens":32,"total_tokens":1440},"last_token_usage":{"input_tokens":300,"cached_input_tokens":120,"output_tokens":90,"reasoning_output_tokens":12,"total_tokens":390},"model_context_window":258400}}}"#;
    let value = to_json(&serde_json::from_str::<Value>(line).unwrap());
    let event = token_event(&value, "openai").unwrap();
    assert_eq!(event.secs, instant("2026-04-24T12:34:56.000Z"));
    assert_eq!(event.total_usage.as_ref().unwrap().total_tokens, 1440);
    assert_eq!(event.last_usage.as_ref().unwrap().total_tokens, 390);
    assert_eq!(event.provider, "openai");
}

#[test]
fn weekly_buckets_cover_whole_days() {
    let now = instant("2026-06-13T12:00:00Z");
    let start_of_today = instant("2026-06-13T00:00:00Z");
    let events = vec![
        test_event(start_of_today, "a", 5),
        test_event(start_of_today - 1, "a", 7),
        test_event(start_of_today - 7 * 86400, "a", 11),
    ];
    let buckets = build_weekly_token_buckets(&events, now);
    assert_eq!(buckets.len(), 7);
    assert_eq!(buckets[6].total_tokens, 5);
    assert_eq!(buckets[5].total_tokens, 7);
    assert_eq!(buckets.iter().map(|b| b.total_tokens).sum::<u64>(), 12);
}

#[test]
fn token_totals_and_provider_summaries() {
    let now = instant("2026-06-13T12:00:00Z");
    let events = vec![
        test_event(now - 60, "b", 10),
        test_event(now - 120, "a", 10),
        test_event(now - 7200, "c", 30),
    ];
    let buckets = build_hourly_token_buckets(&events, now, 0);
    assert_eq!(token_totals(&buckets), Some((50, 3, 20, 30)));
    let configured = vec!["openai".to_string()];
    let summaries = build_provider_token_summaries(&events, &configured);
    let order: Vec<&str> = summaries.iter().map(|s| s.provider.as_str()).collect();
    assert_eq!(order, vec!["c", "a", "b", "openai"]);
    assert_eq!(summaries[0].last_event_at, Some(now - 7200));
    assert_eq!(summaries[3].event_count, 0);
}

#[test]
fn configured_providers_include_the_root_provider() {
    assert_eq!(parse_quoted_toml_value("model_provider  =  \"x\" # c", "model_provider"), Some("x".to_string()));
    assert_eq!(parse_quoted_toml_value("model_provider = x", "model_provider"), None);
    let providers = read_configured_providers(Some("model_provider = \"moapi\"\n[model_providers.moapi]\n[model_providers.zz]\n"));
    assert_eq!(providers, vec!["openai".to_string(), "moapi".to_string(), "zz".to_string()]);
    assert_eq!(read_configured_providers(None), vec!["openai".to_string()]);
}

#[test]
fn reads_rate_limit_fields() {
    let line: Value = serde_json::from_str(
        r#"{"payload":{"rate_limits":{"plan_type":"plus","primary":{"used_percent":12.5,"window_minutes":300,"resets_at":1700000000},"secondary":{"used_percent":3,"window_minutes":"x","resets_at":1}},"info":{"model_context_window":272000}}}"#,
    )
    .unwrap();
    let json = to_json(&line);
    assert_eq!(plan_type(&json), "plus");
    assert_eq!(rate_window(&json, "primary"), Some((300, 1700000000)));
    assert_eq!(rate_window(&json, "secondary"), None);
    assert_eq!(context_window(&json), Some(272000));

    let bare: Value = serde_json::from_str(r#"{"payload":{"rate_limits":{"primary":{"used_percent":"high","window_minutes":1,"resets_at":2}}}}"#).unwrap();
    let json = to_json(&bare);
    assert_eq!(plan_type(&json), "unknown");
    assert_eq!(rate_window(&json, "primary"), None);
    assert_eq!(context_window(&json), None);
}

#[test]
fn token_counts_fit_until_a_slot_or_provider_overflows() {
    let now = 100 * 86400;
    let events = vec![test_event(now - 10, "a", 10), test_event(now - 5000, "b", 20)];
    assert!(hourly_buckets_fit(&events, now, 0));
    assert!(weekly_buckets_fit(&events, now));
    assert!(provider_usage_fits(&events));
    let split = vec![test_event(now - 10, "a", u64::MAX), test_event(now - 5000, "b", 1)];
    assert!(hourly_buckets_fit(&split, now, 0));
    assert!(!weekly_buckets_fit(&split, now));
    assert!(provider_usage_fits(&split));
    let same_hour = vec![test_event(now - 10, "a", u64::MAX), test_event(now - 20, "b", 1)];
    assert!(!hourly_buckets_fit(&same_hour, now, 0));
    let same_provider = vec![test_event(now - 10, "a", u64::MAX), test_event(now - 30 * 86400, "a", 1)];
    assert!(hourly_buckets_fit(&same_provider, now, 0));
    assert!(weekly_buckets_fit(&same_provider, now));
    assert!(!provider_usage_fits(&same_provider));
}

#[test]
fn usage_mode_follows_the_latest_provider() {
    assert_eq!(usage_mode(&Vec::new()), Err("No Codex usage events were found".to_string()));
    assert_eq!(usage_mode(&vec![test_event(1, "openai", 1), test_event(2, "moapi", 1)]), Ok("token_usage".to_string()));
    assert_eq!(usage_mode(&vec![test_event(1, "moapi", 1), test_event(2, "OpenAI", 1)]), Ok("rate_limit".to_string()));
    assert_eq!(usage_mode(&vec![test_event(1, "unknown", 1)]), Ok("rate_limit".to_string()));
}
