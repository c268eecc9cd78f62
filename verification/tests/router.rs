use codex_toolkit::json::{to_compact_string, Json, JsonNumber};
use codex_toolkit::local_router::{
    chat_chunk_finish_reason, chat_chunk_is_finished, chat_chunk_reasoning_delta,
    chat_chunk_tool_calls, chat_chunk_usage, chat_to_responses_response, normalize_usage,
    responses_to_chat_request, router_health, split_inline_think_text, upstream_error_response,
    InlineDelta, InlineDeltaKind, InlineThinkParser, ResponseStreamState, RouterConfig,
};
use codex_toolkit::router_http::{
    ensure_router_for_settings, header_scan, parse_request_head, passthrough_url, read_request_head,
    response_head, route_request, HeaderScan, RouteAction, RouterPlan,
};
use codex_toolkit::router_stream::{stream_model, ChatStreamConverter, SseLine, SseLineBuffer};
use codex_toolkit::relay_config::RelaySettings;
use serde_json::Value;

fn to_json(v: &Value) -> Json {
    match v {
        Value::Null => Json::Null,
        Value::Bool(b) => Json::Bool(*b),
        Value::Number(n) => {
            if let Some(u) = n.as_u64() {
                Json::Number(JsonNumber::PosInt(u))
            } else if let Some(i) = n.as_i64() {
                Json::Number(JsonNumber::NegInt(i))
            } else {
                Json::Number(JsonNumber::Float(n.to_string()))
            }
        }
        Value::String(s) => Json::String(s.clone()),
        Value::Array(a) => Json::Array(a.iter().map(to_json).collect()),
        Value::Object(m) => Json::Object(m.iter().map(|(k, v)| (k.clone(), to_json(v))).collect()),
    }
}

fn to_value(j: &Json) -> Value {
    match j {
        Json::Null => Value::Null,
        Json::Bool(b) => Value::Bool(*b),
        Json::Number(JsonNumber::PosInt(u)) => Value::from(*u),
        Json::Number(JsonNumber::NegInt(i)) => Value::from(*i),
        Json::Number(JsonNumber::Float(s)) => serde_json::from_str(s).unwrap(),
        Json::String(s) => Value::String(s.clone()),
        Json::Array(a) => Value::Array(a.iter().map(to_value).collect()),
        Json::Object(es) => {
            let mut m = serde_json::Map::new();
            for (k, v) in es {
                m.insert(k.clone(), to_value(v));
            }
            Value::Object(m)
        }
    }
}

fn parse(text: &str) -> Json {
    to_json(&serde_json::from_str::<Value>(text).unwrap())
}

fn config() -> RouterConfig {
    RouterConfig {
        port: 15721,
        upstream_base_url: "https://api.deepseek.com/v1".to_string(),
        api_key: "sk-test".to_string(),
        upstream_model: Some("deepseek-chat".to_string()),
        upstream_wire_api: "chat_completions".to_string(),
    }
}

fn names(events: &[(&'static str, Json)]) -> Vec<&'static str> {
    events.iter().map(|(name, _)| *name).collect()
}

#[test]
fn converts_response_input_to_chat_messages() {
    let request = parse(
        r#"{"model":"gpt-5","instructions":"Be concise.","input":"hello","max_output_tokens":128,"reasoning":{"effort":"high"}}"#,
    );
    let chat = to_value(&responses_to_chat_request(&request, &config()));

    assert_eq!(chat["model"], "deepseek-chat");
    assert_eq!(chat["max_tokens"], 128);
    assert_eq!(chat["reasoning_effort"], "high");
    assert_eq!(chat["messages"][0]["role"], "system");
    assert_eq!(chat["messages"][1]["content"], "hello");
}

#[test]
fn converts_function_call_output_to_chat_tool_message() {
    let request = parse(
        r#"{"model":"gpt-5","input":[{"type":"function_call_output","call_id":"call_1","output":"D:\\codexviewer"}]}"#,
    );
    let chat = to_value(&responses_to_chat_request(&request, &config()));

    assert_eq!(chat["messages"][0]["role"], "tool");
    assert_eq!(chat["messages"][0]["tool_call_id"], "call_1");
    assert_eq!(chat["messages"][0]["content"], "D:\\codexviewer");
}

#[test]
fn converts_function_call_context_to_chat_messages() {
    let request = parse(
        r#"{"model":"gpt-5","input":[{"type":"function_call","call_id":"call_1","name":"shell_command","arguments":"{\"command\":\"pwd\"}"},{"type":"function_call_output","call_id":"call_1","output":{"stdout":"D:\\codexviewer"}}]}"#,
    );
    let chat = to_value(&responses_to_chat_request(&request, &config()));

    assert_eq!(chat["messages"][0]["role"], "assistant");
    assert_eq!(chat["messages"][0]["tool_calls"][0]["id"], "call_1");
    assert_eq!(chat["messages"][1]["role"], "tool");
    assert_eq!(chat["messages"][1]["tool_call_id"], "call_1");
    assert_eq!(chat["messages"][1]["content"], "{\"stdout\":\"D:\\\\codexviewer\"}");
}

#[test]
fn converts_chat_response_to_response_shape() {
    let chat = parse(
        r#"{"id":"chatcmpl-1","created":123,"model":"deepseek-chat","choices":[{"message":{"role":"assistant","content":"done"}}],"usage":{"prompt_tokens":2,"completion_tokens":3,"total_tokens":5}}"#,
    );
    let response = to_value(&chat_to_responses_response(&chat, &parse("{}")));

    assert_eq!(response["object"], "response");
    assert_eq!(response["output"][0]["content"][0]["text"], "done");
    assert_eq!(response["usage"]["total_tokens"], 5);
}

#[test]
fn converts_non_stream_reasoning_to_response_output() {
    let chat = parse(
        r#"{"id":"chatcmpl-1","created":123,"model":"deepseek-chat","choices":[{"message":{"role":"assistant","reasoning_content":"check facts","content":"done"}}]}"#,
    );
    let response = to_value(&chat_to_responses_response(&chat, &parse("{}")));

    assert_eq!(response["output"][0]["type"], "reasoning");
    assert_eq!(response["output"][0]["summary"][0]["text"], "check facts");
    assert_eq!(response["output"][1]["content"][0]["text"], "done");
}

#[test]
fn converts_non_stream_tool_calls_to_response_items() {
    let chat = parse(
        r#"{"id":"chatcmpl-1","created":123,"model":"deepseek-chat","choices":[{"message":{"role":"assistant","content":"","tool_calls":[{"id":"call_1","type":"function","function":{"name":"shell_command","arguments":"{\"command\":\"pwd\"}"}}]}}]}"#,
    );
    let response = to_value(&chat_to_responses_response(&chat, &parse("{}")));

    assert_eq!(response["output"][1]["type"], "function_call");
    assert_eq!(response["output"][1]["call_id"], "call_1");
    assert_eq!(response["output"][1]["name"], "shell_command");
    assert_eq!(response["output"][1]["arguments"], "{\"command\":\"pwd\"}");
}

#[test]
fn response_stream_events_have_complete_lifecycle() {
    let mut state = ResponseStreamState::new("gpt-5.5".to_string());
    let mut events = state.start_events();
    events.extend(state.delta_events("po"));
    events.extend(state.delta_events("ng"));
    events.extend(state.done_events());

    assert_eq!(
        names(&events),
        vec![
            "response.created",
            "response.in_progress",
            "response.output_item.added",
            "response.content_part.added",
            "response.output_text.delta",
            "response.output_text.delta",
            "response.output_text.done",
            "response.content_part.done",
            "response.output_item.done",
            "response.completed"
        ]
    );
    let completed = to_value(&events.last().unwrap().1);
    assert_eq!(completed["type"], "response.completed");
    assert_eq!(completed["response"]["status"], "completed");
    assert_eq!(completed["response"]["output"][0]["content"][0]["text"], "pong");
}

#[test]
fn response_stream_events_include_reasoning_lifecycle() {
    let mut state = ResponseStreamState::new("gpt-5.5".to_string());
    let mut events = state.start_events();
    events.extend(state.reasoning_delta_events("Need context."));
    events.extend(state.delta_events("pong"));
    events.extend(state.done_events());

    let names = names(&events);
    assert!(names.contains(&"response.reasoning_summary_part.added"));
    assert!(names.contains(&"response.reasoning_summary_text.delta"));
    assert!(names.contains(&"response.reasoning_summary_text.done"));
    assert!(names.contains(&"response.reasoning_summary_part.done"));
    let completed = to_value(&events.last().unwrap().1);
    assert_eq!(completed["response"]["output"][0]["summary"][0]["text"], "Need context.");
    assert_eq!(completed["response"]["output"][1]["content"][0]["text"], "pong");
}

#[test]
fn response_stream_events_include_tool_call_lifecycle() {
    let mut state = ResponseStreamState::new("gpt-5.5".to_string());
    let first = parse(
        r#"{"index":0,"id":"call_1","type":"function","function":{"name":"shell_command","arguments":"{\"command\":"}}"#,
    );
    let second = parse(r#"{"index":0,"function":{"arguments":"\"pwd\"}"}}"#);
    let mut events = state.start_events();
    events.extend(state.tool_call_added_events(&first));
    events.extend(state.tool_call_delta_events(&first));
    events.extend(state.tool_call_added_events(&second));
    events.extend(state.tool_call_delta_events(&second));
    events.extend(state.done_events());

    let names = names(&events);
    assert!(names.contains(&"response.output_item.added"));
    assert!(names.contains(&"response.function_call_arguments.delta"));
    assert!(names.contains(&"response.output_item.done"));
    let completed = to_value(&events.last().unwrap().1);
    assert_eq!(completed["response"]["output"][0]["type"], "function_call");
    assert_eq!(completed["response"]["output"][0]["arguments"], "{\"command\":\"pwd\"}");
}

#[test]
fn response_stream_marks_length_finish_as_incomplete() {
    let mut state = ResponseStreamState::new("gpt-5.5".to_string());
    state.set_finish_reason(Some("length".to_string()));
    let events = state.done_events();

    let completed = to_value(&events.last().unwrap().1);
    assert_eq!(completed["response"]["status"], "incomplete");
    assert_eq!(completed["response"]["incomplete_details"]["reason"], "max_output_tokens");
}

#[test]
fn response_stream_failed_event_uses_responses_error_shape() {
    let mut state = ResponseStreamState::new("gpt-5.5".to_string());
    let events = state.failed_events("network closed");

    assert_eq!(events[0].0, "response.failed");
    let payload = to_value(&events[0].1);
    assert_eq!(payload["response"]["status"], "failed");
    assert_eq!(payload["error"]["code"], "upstream_stream_error");
}

#[test]
fn extracts_reasoning_delta_from_chat_chunk() {
    let chunk = parse(r#"{"choices":[{"delta":{"reasoning_content":"thinking"}}]}"#);

    assert_eq!(chat_chunk_reasoning_delta(&chunk), Some("thinking".to_string()));
}

#[test]
fn extracts_tool_calls_from_chat_chunk() {
    let chunk = parse(
        r#"{"choices":[{"delta":{"tool_calls":[{"index":0,"id":"call_1","function":{"name":"shell_command"}}]}}]}"#,
    );

    let tool_calls = chat_chunk_tool_calls(&chunk);
    assert_eq!(tool_calls.len(), 1);
    assert_eq!(to_value(&tool_calls[0])["id"], "call_1");
}

#[test]
fn extracts_finish_reason_and_usage_from_chat_chunk() {
    let chunk = parse(
        r#"{"choices":[{"finish_reason":"length"}],"usage":{"prompt_tokens":3,"completion_tokens":4,"total_tokens":7}}"#,
    );

    assert_eq!(chat_chunk_finish_reason(&chunk), Some("length".to_string()));
    assert_eq!(to_value(&normalize_usage(&chat_chunk_usage(&chunk).unwrap()))["total_tokens"], 7);
}

#[test]
fn upstream_errors_are_normalized_for_responses_clients() {
    let body = r#"{"error":{"message":"slow down","code":"rate_limit"}}"#;
    let parsed = parse(body);
    let error = to_value(&upstream_error_response(429, body, Some(&parsed)));

    assert_eq!(error["error"]["message"], "slow down");
    assert_eq!(error["error"]["type"], "rate_limit_error");
    assert_eq!(error["error"]["code"], "rate_limit");
}

#[test]
fn router_health_describes_codex_and_upstream_wire_apis() {
    let health = to_value(&router_health(&config()));

    assert_eq!(health["codexWireApi"], "responses");
    assert_eq!(health["upstreamWireApi"], "chat_completions");
}

#[test]
fn splits_inline_think_text() {
    let (reasoning, text) = split_inline_think_text("<think>work</think>answer");

    assert_eq!(reasoning, Some("work".to_string()));
    assert_eq!(text, "answer");
}

#[test]
fn parses_split_inline_think_stream() {
    let mut parser = InlineThinkParser::new();
    let mut deltas = Vec::new();
    deltas.extend(parser.push("<thi"));
    deltas.extend(parser.push("nk>work</thi"));
    deltas.extend(parser.push("nk>answer"));
    deltas.extend(parser.finish());

    assert_eq!(
        deltas,
        vec![
            InlineDelta { kind: InlineDeltaKind::Reasoning, text: "work".to_string() },
            InlineDelta { kind: InlineDeltaKind::Text, text: "answer".to_string() }
        ]
    );
}

#[test]
fn keeps_partial_open_tag_as_text_when_stream_finishes() {
    let mut parser = InlineThinkParser::new();
    let mut deltas = parser.push("hello <thi");
    deltas.extend(parser.finish());

    let text = deltas
        .iter()
        .filter(|delta| delta.kind == InlineDeltaKind::Text)
        .map(|delta| delta.text.as_str())
        .collect::<String>();
    assert_eq!(text, "hello <thi");
}

#[test]
fn detects_finished_chat_stream_chunk() {
    let chunk = parse(r#"{"choices":[{"delta":{},"finish_reason":"stop"}]}"#);

    assert!(chat_chunk_is_finished(&chunk));
}

#[test]
fn streaming_in_pieces_gives_the_same_split_as_the_whole_text() {
    let whole = "intro <think>plan</think>final answer";
    let (reasoning, text) = split_inline_think_text(whole);
    for cut in 1..whole.len() {
        let mut parser = InlineThinkParser::new();
        let mut deltas = parser.push(&whole[..cut]);
        deltas.extend(parser.push(&whole[cut..]));
        deltas.extend(parser.finish());
        let streamed_reasoning: String = deltas
            .iter()
            .filter(|d| d.kind == InlineDeltaKind::Reasoning)
            .map(|d| d.text.as_str())
            .collect();
        let streamed_text: String = deltas
            .iter()
            .filter(|d| d.kind == InlineDeltaKind::Text)
            .map(|d| d.text.as_str())
            .collect();
        assert_eq!(Some(streamed_reasoning), reasoning);
        assert_eq!(streamed_text, text);
    }
}

#[test]
fn converter_streams_a_chat_completion() {
    let mut t = ChatStreamConverter::with_clock("gpt-5.5".to_string(), 1_700_000_000, 12_345);
    let start = t.start_events();
    assert_eq!(names(&start), vec!["response.created", "response.in_progress"]);
    let created = to_value(&start[0].1);
    assert_eq!(created["response"]["id"], "resp_codex_toolkit_170000000012345");

    let (events, done) = t.chunk_events(&parse(r#"{"choices":[{"delta":{"content":"<think>hm</think>hi"}}]}"#));
    assert!(!done);
    assert!(names(&events).contains(&"response.reasoning_summary_text.delta"));
    assert!(names(&events).contains(&"response.output_text.delta"));

    let (events, done) = t.chunk_events(&parse(
        r#"{"choices":[{"delta":{},"finish_reason":"stop"}],"usage":{"prompt_tokens":1,"completion_tokens":2,"total_tokens":3}}"#,
    ));
    assert!(done);
    let completed = to_value(&events.last().unwrap().1);
    assert_eq!(completed["type"], "response.completed");
    assert_eq!(completed["response"]["output"][0]["summary"][0]["text"], "hm");
    assert_eq!(completed["response"]["output"][1]["content"][0]["text"], "hi");
    assert_eq!(completed["response"]["usage"]["total_tokens"], 3);
}

#[test]
fn converter_flushes_a_partial_tag_at_the_end_of_the_stream() {
    let mut t = ChatStreamConverter::with_clock("m".to_string(), 1, 2);
    let (_, done) = t.chunk_events(&parse(r#"{"choices":[{"delta":{"content":"a <thi"}}]}"#));
    assert!(!done);
    let events = t.end_events();
    let completed = to_value(&events.last().unwrap().1);
    assert_eq!(completed["response"]["output"][0]["content"][0]["text"], "a <thi");
}

#[test]
fn sse_lines_are_split_and_classified() {
    let mut buffer = SseLineBuffer::new();
    buffer.push_text("data: {\"a\":1}\r\n: keep-alive\n");
    buffer.push_text("data: [DONE]");
    match buffer.next_line() {
        Some(SseLine::Data(d)) => assert_eq!(d, "{\"a\":1}"),
        _ => panic!("expected a data line"),
    }
    assert!(matches!(buffer.next_line(), Some(SseLine::Skip)));
    assert!(buffer.next_line().is_none());
    buffer.push_text("\n");
    assert!(matches!(buffer.next_line(), Some(SseLine::Done)));
}

#[test]
fn stream_model_defaults_to_router_name() {
    assert_eq!(stream_model(&parse(r#"{"model":"gpt-5"}"#)), "gpt-5");
    assert_eq!(stream_model(&parse("{}")), "codex-toolkit-router");
}

#[test]
fn routes_requests_by_method_and_path() {
    assert!(matches!(route_request("GET", "/health"), RouteAction::Health));
    assert!(matches!(route_request("GET", "/v1/responses"), RouteAction::EndpointInfo));
    assert!(matches!(route_request("PUT", "/v1/responses"), RouteAction::MethodNotAllowed));
    assert!(matches!(route_request("POST", "/responses"), RouteAction::Responses));
    assert!(matches!(route_request("POST", "/v1/embeddings"), RouteAction::Passthrough));
}

#[test]
fn parses_request_heads() {
    let head = parse_request_head("POST /v1/responses HTTP/1.1\r\nHost: x\r\nContent-LENGTH:  42 \r\n").unwrap();
    assert_eq!(head.method, "POST");
    assert_eq!(head.path, "/v1/responses");
    assert_eq!(head.content_length, 42);
    let bad_length = parse_request_head("GET / HTTP/1.1\r\ncontent-length: x\r\ncontent-length: 5").unwrap();
    assert_eq!(bad_length.content_length, 0);
    assert!(parse_request_head("").is_none());
    let bytes = b"GET /health HTTP/1.1\r\nHost: a\r\n\r\nbody";
    match header_scan(bytes) {
        HeaderScan::Complete(end) => {
            let head = read_request_head(bytes, end).unwrap();
            assert_eq!(head.path, "/health");
        }
        _ => panic!("expected a complete head"),
    }
    assert_eq!(read_request_head(b"\r\n\r\n", 0).unwrap_err(), "HTTP request line is missing.");
}

#[test]
fn builds_upstream_urls_and_response_heads() {
    assert_eq!(passthrough_url(&config(), "/v1/embeddings"), "https://api.deepseek.com/v1/embeddings");
    assert_eq!(passthrough_url(&config(), "/models"), "https://api.deepseek.com/v1/models");
    assert_eq!(
        response_head(405, "application/json", 12),
        "HTTP/1.1 405 Method Not Allowed\r\ncontent-type: application/json\r\ncontent-length: 12\r\nconnection: close\r\n\r\n"
    );
    assert_eq!(
        response_head(429, "application/json", 0),
        "HTTP/1.1 429 Upstream\r\ncontent-type: application/json\r\ncontent-length: 0\r\nconnection: close\r\n\r\n"
    );
}

fn router_settings() -> RelaySettings {
    let mut s = RelaySettings::default();
    s.enabled = true;
    s.route_mode = "local_router".to_string();
    s.base_url = " https://api.example.test/v1// ".to_string();
    s.api_key = " sk-x ".to_string();
    s
}

#[test]
fn router_plan_follows_the_settings() {
    assert!(matches!(ensure_router_for_settings(&RelaySettings::default(), None), Ok(RouterPlan::Skip)));
    match ensure_router_for_settings(&router_settings(), None) {
        Ok(RouterPlan::Start(c)) => {
            assert_eq!(c.upstream_base_url, "https://api.example.test/v1");
            assert_eq!(c.api_key, "sk-x");
            assert_eq!(c.port, 15721);
        }
        _ => panic!("expected a start"),
    }
    assert!(matches!(ensure_router_for_settings(&router_settings(), Some(15721)), Ok(RouterPlan::Reuse(_))));
    let mut no_key = router_settings();
    no_key.api_key = "  ".to_string();
    assert_eq!(ensure_router_for_settings(&no_key, None).err(), Some("API Key cannot be empty.".to_string()));
    let mut responses = router_settings();
    responses.upstream_wire_api = "responses".to_string();
    assert_eq!(
        ensure_router_for_settings(&responses, None).err(),
        Some("Local router currently supports chat_completions upstreams only.".to_string())
    );
}

#[test]
fn request_head_decodes_invalid_bytes_lossily() {
    let bytes: &[u8] = b"GET /a\xffb HTTP/1.1\r\ncontent-length: 7\r\n\r\nbody";
    let end = match header_scan(bytes) {
        HeaderScan::Complete(end) => end,
        _ => panic!("head should be complete"),
    };
    let head = read_request_head(bytes, end).unwrap();
    assert_eq!(head.method, "GET");
    assert_eq!(head.path, "/a\u{FFFD}b");
    assert_eq!(head.content_length, 7);
}

#[test]
fn compact_text_matches_serde_json() {
    let value: Value = serde_json::from_str(
        r#"{"a":"line\nbreak \"quoted\" \\ tab\t","b":[1,-2,2.5,null,true],"c":{"d":"\u0001é✓"}}"#,
    )
    .unwrap();
    let json = to_json(&value);
    let text = to_compact_string(&json);
    assert_eq!(text, serde_json::to_string(&value).unwrap());
    assert_eq!(text, r#"{"a":"line\nbreak \"quoted\" \\ tab\t","b":[1,-2,2.5,null,true],"c":{"d":"\u0001é✓"}}"#);
}

#[test]
fn every_response_object_of_a_stream_names_the_same_response() {
    let mut state = ResponseStreamState::new("gpt-5.5".to_string());
    let mut events = state.start_events();
    events.extend(state.reasoning_delta_events("think"));
    events.extend(state.delta_events("pong"));
    let created = to_value(&events[0].1);
    let id = created["response"]["id"].clone();
    let created_at = created["response"]["created_at"].clone();
    assert!(id.as_str().unwrap().starts_with("resp_"));
    let object = to_value(&state.response_object("in_progress"));
    assert_eq!(object["id"], id);
    events.extend(state.done_events());
    let completed = to_value(&events.last().unwrap().1);
    assert_eq!(completed["response"]["id"], id);
    assert_eq!(completed["response"]["created_at"], created_at);
    assert_eq!(completed["response"]["model"], "gpt-5.5");
}

#[test]
fn response_object_joins_the_deltas_in_order() {
    let mut state = ResponseStreamState::new("gpt-5.5".to_string());
    state.reasoning_delta_events("");
    state.reasoning_delta_events("Need ");
    state.reasoning_delta_events("context.");
    state.delta_events("po");
    state.delta_events("ng");
    let object = to_value(&state.response_object("incomplete"));
    assert_eq!(object["status"], "incomplete");
    assert_eq!(object["model"], "gpt-5.5");
    assert_eq!(object["output"].as_array().unwrap().len(), 2);
    assert_eq!(object["output"][0]["summary"][0]["text"], "Need context.");
    assert_eq!(object["output"][1]["content"][0]["text"], "pong");
    assert_eq!(object["incomplete_details"]["reason"], "max_output_tokens");

    let mut plain = ResponseStreamState::new("gpt-5.5".to_string());
    plain.reasoning_delta_events("");
    plain.delta_events("");
    let object = to_value(&plain.response_object("completed"));
    assert_eq!(object["output"].as_array().unwrap().len(), 1);
    assert_eq!(object["output"][0]["type"], "message");
    assert_eq!(object["output"][0]["content"][0]["text"], "");
    assert!(object.get("incomplete_details").is_none());
}

#[test]
fn tool_calls_keep_the_index_their_added_event_announced() {
    let mut state = ResponseStreamState::new("gpt-5.5".to_string());
    state.delta_events("Running.");
    let late = parse(r#"{"index":3,"id":"call_b","function":{"name":"b","arguments":""}}"#);
    let early = parse(r#"{"index":1,"id":"call_a","function":{"name":"a","arguments":"{}"}}"#);
    let added_late = state.tool_call_added_events(&late);
    let added_early = state.tool_call_added_events(&early);
    assert_eq!(to_value(&added_late[0].1)["output_index"], 1);
    assert_eq!(to_value(&added_early[0].1)["output_index"], 2);
    assert!(state.tool_call_added_events(&late).is_empty());
    let more = parse(r#"{"index":3,"function":{"arguments":"{\"x\":1}"}}"#);
    let delta = state.tool_call_delta_events(&more);
    assert_eq!(to_value(&delta[0].1)["output_index"], 1);
    let object = to_value(&state.response_object("completed"));
    assert_eq!(object["output"][0]["type"], "message");
    assert_eq!(object["output"][1]["call_id"], "call_b");
    assert_eq!(object["output"][2]["call_id"], "call_a");
}
