use codex_companion_relay::collected::{
    terminal_response_from_sse, validate_successful_responses_body, validation_message,
};
use codex_companion_relay::headers::HeaderField;
use codex_companion_relay::json::{render_json, Json};
use codex_companion_relay::official::{
    normalize_official_responses_input, normalize_ultra_reasoning_effort,
    official_codex_needs_non_stream_bridge, official_codex_session_identity, rewrite_model,
};
use codex_companion_relay::preflight::ResponseTransform;
use serde_json::Value;

fn value_of(json: &Json) -> Value {
    serde_json::from_str(&render_json(json)).expect("json")
}

fn normalized(path: &str, body: &[u8], session: Option<&str>) -> Value {
    let body =
        normalize_official_responses_input(true, "POST", Some(path), body.to_vec(), session)
            .expect("an object");
    serde_json::from_slice(&body).expect("json")
}

#[test]
fn rewrites_request_model_from_provider_map() {
    let model_map = vec![("gpt-5-codex".to_string(), "deepseek-chat".to_string())];
    let body = rewrite_model(
        &model_map,
        br#"{"model":"gpt-5-codex","input":"hello","reasoning":{"effort":"ultra"}}"#.to_vec(),
    );
    let value: Value = serde_json::from_slice(&body).expect("json");
    assert_eq!(value["model"], "deepseek-chat");
    assert_eq!(value["reasoning"]["effort"], "ultra");
}

#[test]
fn normalizes_ultra_to_official_upstream_max_effort() {
    let body = normalize_ultra_reasoning_effort(
        br#"{"reasoning":{"effort":"ultra"},"reasoning_effort":"ultra"}"#.to_vec(),
    );
    let value: Value = serde_json::from_slice(&body).expect("json");

    assert_eq!(value["reasoning"]["effort"], "max");
    assert_eq!(value["reasoning_effort"], "max");
}

#[test]
fn official_codex_normalizes_standard_string_input_to_item_list() {
    let value = normalized(
        "/v1/responses",
        br#"{"model":"gpt-test","input":"hello","max_output_tokens":16,"temperature":0.2,"top_p":0.9,"truncation":"auto","user":"client-user","context_management":{}}"#,
        None,
    );
    assert_eq!(value["input"][0]["role"], "user");
    assert_eq!(value["input"][0]["content"][0]["type"], "input_text");
    assert_eq!(value["input"][0]["content"][0]["text"], "hello");
    assert_eq!(value["store"], false);
    assert_eq!(value["stream"], true);
    assert_eq!(value["parallel_tool_calls"], true);
    for key in [
        "max_output_tokens",
        "temperature",
        "top_p",
        "truncation",
        "user",
        "context_management",
    ] {
        assert!(value.get(key).is_none(), "{key} should be removed");
    }
}

#[test]
fn official_codex_preserves_existing_input_item_list() {
    let value = normalized(
        "/v1/responses",
        br#"{"model":"gpt-test","input":[{"role":"user","content":[]}]}"#,
        None,
    );
    assert_eq!(value["input"][0]["role"], "user");
    assert_eq!(value["store"], false);
    assert_eq!(value["stream"], true);
}

#[test]
fn official_codex_normalizes_cross_provider_input_item_id_prefixes() {
    let value = normalized(
        "/v1/responses",
        br#"{"model":"gpt-test","input":[
                    {"type":"custom_tool_call","id":"item_custom","call_id":"call_1","name":"exec","input":""},
                    {"type":"reasoning","id":"item_reasoning","summary":[]},
                    {"type":"function_call","id":"item_function","call_id":"call_2","name":"lookup","arguments":"{}"},
                    {"type":"message","id":"item_message","role":"assistant","content":[]},
                    {"type":"custom_tool_call","id":"ctc_already_valid","call_id":"call_3","name":"exec","input":""},
                    {"type":"custom_tool_call_output","id":"ctco_output","call_id":"call_1","output":"ok"}
                ]}"#,
        None,
    );
    assert_eq!(value["input"][0]["id"], "ctc_custom");
    assert_eq!(value["input"][1]["id"], "rs_reasoning");
    assert_eq!(value["input"][2]["id"], "fc_function");
    assert_eq!(value["input"][3]["id"], "msg_message");
    assert_eq!(value["input"][4]["id"], "ctc_already_valid");
    assert_eq!(value["input"][5]["id"], "ctco_output");
}

#[test]
fn official_codex_compact_request_preserves_standalone_compaction_semantics() {
    let original = br#"{"model":"gpt-test","input":[{"role":"user","content":"hello"}]}"#;

    let body = normalize_official_responses_input(
        true,
        "POST",
        Some("/v1/responses/compact"),
        original.to_vec(),
        None,
    )
    .expect("an object");

    assert_eq!(body, original);
    let value: Value = serde_json::from_slice(&body).expect("json");
    assert!(value.get("stream").is_none());
    assert!(value.get("store").is_none());
}

#[test]
fn official_codex_compact_normalizes_cross_provider_input_item_ids() {
    let value = normalized(
        "/v1/responses/compact",
        br#"{"model":"gpt-test","input":[{"type":"custom_tool_call","id":"item_99fb83474df510b04e475dc5","call_id":"call_1","name":"exec","input":""}]}"#,
        None,
    );
    assert_eq!(value["input"][0]["id"], "ctc_99fb83474df510b04e475dc5");
    assert!(value.get("stream").is_none());
    assert!(value.get("store").is_none());
}

#[test]
fn official_codex_uses_real_client_session_for_cache_identity() {
    let headers = vec![HeaderField {
        name: "x-session-id".to_string(),
        value: Some("session-42".to_string()),
    }];
    let original = br#"{"model":"gpt-test","input":"hello"}"#;
    let identity = official_codex_session_identity(
        true,
        "POST",
        Some("/v1/responses"),
        &headers,
        original,
    );
    assert_eq!(identity.as_deref(), Some("session-42"));
    let value = normalized("/v1/responses", original, identity.as_deref());
    assert_eq!(value["prompt_cache_key"], "session-42");
    assert_eq!(value["include"][0], "reasoning.encrypted_content");
}

#[test]
fn official_codex_preserves_explicit_cache_key() {
    let value = normalized(
        "/v1/responses",
        br#"{"model":"gpt-test","input":"hello","prompt_cache_key":"explicit"}"#,
        Some("session-42"),
    );
    assert_eq!(value["prompt_cache_key"], "explicit");
}

#[test]
fn official_codex_converts_system_input_role_to_developer() {
    let value = normalized(
        "/v1/responses",
        br#"{"model":"gpt-test","input":[{"role":"system","content":[]},{"role":"user","content":[]}]}"#,
        None,
    );
    assert_eq!(value["input"][0]["role"], "developer");
    assert_eq!(value["input"][1]["role"], "user");
}

#[test]
fn official_codex_bridges_standard_non_stream_responses_requests() {
    assert!(official_codex_needs_non_stream_bridge(
        true,
        "POST",
        Some("/v1/responses"),
        br#"{"model":"gpt-test","input":"hello"}"#,
    ));
    assert!(!official_codex_needs_non_stream_bridge(
        true,
        "POST",
        Some("/v1/responses"),
        br#"{"model":"gpt-test","input":"hello","stream":true}"#,
    ));
}

#[test]
fn extracts_terminal_response_from_official_codex_sse() {
    let body = b"event: response.created\ndata: {\"type\":\"response.created\"}\n\nevent: response.output_item.done\ndata: {\"type\":\"response.output_item.done\",\"output_index\":0,\"item\":{\"type\":\"message\",\"role\":\"assistant\",\"content\":[{\"type\":\"output_text\",\"text\":\"OK\"}]}}\n\nevent: response.completed\ndata: {\"type\":\"response.completed\",\"response\":{\"id\":\"resp_1\",\"status\":\"completed\",\"output\":[]}}\n\ndata: [DONE]\n\n";
    let response = value_of(&terminal_response_from_sse(body).expect("terminal response"));
    assert_eq!(response["id"], "resp_1");
    assert_eq!(response["status"], "completed");
    assert_eq!(response["output"][0]["content"][0]["text"], "OK");
}

#[test]
fn extracts_terminal_response_from_cr_only_sse() {
    let body = b"event: response.created\rdata: {\"type\":\"response.created\"}\r\revent: response.completed\rdata: {\"type\":\"response.completed\",\"response\":{\"id\":\"resp_cr\",\"status\":\"completed\",\"output\":[]}}\r\r";
    let response = value_of(&terminal_response_from_sse(body).expect("terminal response"));

    assert_eq!(response["id"], "resp_cr");
    assert_eq!(response["status"], "completed");
}

#[test]
fn default_to_default_model_map_does_not_rewrite_requested_model() {
    let model_map = vec![("default".to_string(), "default".to_string())];
    let body = rewrite_model(&model_map, br#"{"model":"gpt-5.5","input":"hello"}"#.to_vec());
    let value: Value = serde_json::from_slice(&body).expect("json");
    assert_eq!(value["model"], "gpt-5.5");
}

#[test]
fn default_model_map_does_not_override_user_selected_model() {
    let model_map = vec![("default".to_string(), "gpt-5.5".to_string())];
    let body = rewrite_model(&model_map, br#"{"model":"gpt-5.4","input":"hello"}"#.to_vec());
    let value: Value = serde_json::from_slice(&body).expect("json");
    assert_eq!(value["model"], "gpt-5.4");
}

#[test]
fn an_official_request_that_is_a_list_has_no_normal_form() {
    assert!(normalize_official_responses_input(
        true,
        "POST",
        Some("/v1/responses"),
        b"[1]".to_vec(),
        None,
    )
    .is_none());
    assert_eq!(
        normalize_official_responses_input(
            true,
            "POST",
            Some("/v1/responses"),
            b"not json".to_vec(),
            None,
        ),
        Some(b"not json".to_vec())
    );
}

#[test]
fn item_ids_are_normalized_once() {
    let first = normalized(
        "/v1/responses/compact",
        br#"{"input":[{"type":"reasoning","id":"item_a"}]}"#,
        None,
    );
    let again = normalized(
        "/v1/responses/compact",
        first.to_string().as_bytes(),
        None,
    );
    assert_eq!(first["input"][0]["id"], "rs_a");
    assert_eq!(first, again);
}

#[test]
fn a_body_that_is_not_utf8_is_no_stream() {
    let fault = terminal_response_from_sse(b"data: \xff\n\n").expect_err("not UTF-8");
    assert_eq!(fault.reported(), None);
    let error = fault.told_as("");
    assert!(error.starts_with("invalid UTF-8: invalid utf-8 sequence"));
}

#[test]
fn successful_bodies_must_be_responses() {
    assert!(validate_successful_responses_body(
        ResponseTransform::Passthrough,
        br#"{"object":"response","status":"completed","output":[]}"#,
    )
    .is_ok());
    assert!(validate_successful_responses_body(ResponseTransform::Passthrough, b"").is_err());
    assert!(
        validate_successful_responses_body(ResponseTransform::Passthrough, b"plain text").is_err()
    );
}

#[test]
fn a_stream_without_an_end_says_what_the_server_said() {
    let body = b"data: {\"type\":\"response.failed\",\"response\":{\"error\":{\"message\":\"busy key=abc\"}}}\n\n";
    let fault = terminal_response_from_sse(body).expect_err("no response");
    assert_eq!(fault.reported(), Some("busy key=abc"));
    assert_eq!(fault.told_as("busy key=***"), "busy key=***");
    let fault = terminal_response_from_sse(b"data: {\"type\":\"response.created\"}\n\n")
        .expect_err("no response");
    assert_eq!(
        fault.told_as(""),
        "stream ended without a terminal response event"
    );
}

#[test]
fn successful_bodies_that_report_a_failure_are_named() {
    let fault = validate_successful_responses_body(
        ResponseTransform::Passthrough,
        br#"{"type":"error","message":"busy key=abc"}"#,
    )
    .expect_err("a failure");
    assert_eq!(fault.reported(), Some("busy key=abc"));
    assert_eq!(
        validation_message(&fault, &"y".repeat(600)),
        format!("upstream semantic failure: {}", "y".repeat(512))
    );
    let fault = validate_successful_responses_body(ResponseTransform::Passthrough, b"")
        .expect_err("empty");
    assert_eq!(
        validation_message(&fault, ""),
        "upstream semantic failure: 上游返回了空的成功响应"
    );
}
