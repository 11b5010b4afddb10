use codex_companion_relay::headers::HeaderField;
use codex_companion_relay::history::ChatHistoryStore;
use codex_companion_relay::preflight::ResponseTransform;
use codex_companion_relay::upstream::{
    after_first_response, auth_plan, bearer, prepare_upstream_request, SendStep,
};
use codex_companion_relay::urls::{
    chat_completions_url, format_upstream_request_error, forwards_request_header,
    forwards_response_header, is_event_stream, provider_supports_chat_prompt_cache_key,
    response_transform, upstream_headers, upstream_url, ProviderRoute, SendFault,
};

fn provider(base_url: &str, endpoint: bool, chat: bool) -> ProviderRoute {
    ProviderRoute {
        id: "p".to_string(),
        official_codex: false,
        base_url: base_url.to_string(),
        base_url_is_endpoint: endpoint,
        endpoint_is_chat_completions: chat,
        model_map: Vec::new(),
    }
}

#[test]
fn builds_upstream_url_from_v1_base() {
    let provider = provider("https://api.example.com/v1", false, false);
    assert_eq!(
        upstream_url(&provider, Some("/v1/chat/completions?stream=true"), "1.0.0"),
        "https://api.example.com/v1/chat/completions?stream=true"
    );
}

#[test]
fn upstream_request_strips_encoding_and_relay_credential_headers() {
    let headers = [
        ("host", "localhost:1455"),
        ("authorization", "Bearer local-relay-key"),
        ("accept-encoding", "gzip, br"),
        ("content-length", "42"),
        ("x-api-key", "relay-client-secret"),
        ("x-session-id", "thread-1"),
    ];
    let mut sent: Vec<(String, String)> = headers
        .iter()
        .filter(|(name, _)| forwards_request_header(name, false))
        .map(|(name, value)| (name.to_string(), value.to_string()))
        .collect();
    sent.extend(upstream_headers(
        false,
        Some("Bearer upstream-token"),
        None,
        None,
    ));
    let value = |wanted: &str| {
        sent.iter()
            .filter(|(name, _)| name == wanted)
            .map(|(_, value)| value.as_str())
            .collect::<Vec<_>>()
    };
    assert!(value("accept-encoding").is_empty());
    assert!(value("x-api-key").is_empty());
    assert!(value("host").is_empty());
    assert!(value("content-length").is_empty());
    assert_eq!(value("authorization"), vec!["Bearer upstream-token"]);
    assert_eq!(value("x-session-id"), vec!["thread-1"]);
}

#[test]
fn compact_request_is_not_translated_to_chat_completions() {
    assert_eq!(
        response_transform(true, "POST", Some("/v1/responses/compact")),
        ResponseTransform::Passthrough
    );
}

#[test]
fn relay_provider_v1_base_keeps_responses_requests() {
    let provider = provider("https://api.example.com/v1", false, false);
    let uri = Some("/v1/responses?foo=bar");

    assert_eq!(
        upstream_url(&provider, uri, "1.0.0"),
        "https://api.example.com/v1/responses?foo=bar"
    );
    assert_eq!(
        response_transform(false, "POST", uri),
        ResponseTransform::Passthrough
    );
}

#[test]
fn explicit_chat_endpoint_uses_chat_completions_transform() {
    let provider = provider("https://api.example.com/v1/chat/completions", true, true);
    let uri = Some("/v1/responses?foo=bar");
    let upstream = upstream_url(&provider, uri, "1.0.0");

    assert_eq!(upstream, "https://api.example.com/v1/chat/completions");
    assert_eq!(
        response_transform(true, "POST", uri),
        ResponseTransform::ChatCompletionsToResponses
    );
    assert_eq!(
        chat_completions_url(&provider, &upstream),
        "https://api.example.com/v1/chat/completions"
    );
}

#[test]
fn explicit_responses_endpoint_preserves_query_and_skips_transform() {
    let provider = provider(
        "https://api.example.com/v1/responses?api-version=2026-06-09",
        true,
        false,
    );
    let uri = Some("/v1/responses?foo=bar");

    assert_eq!(
        upstream_url(&provider, uri, "1.0.0"),
        "https://api.example.com/v1/responses?api-version=2026-06-09"
    );
    assert_eq!(
        response_transform(false, "POST", uri),
        ResponseTransform::Passthrough
    );
}

#[test]
fn explicit_responses_endpoint_routes_compact_to_the_compact_endpoint() {
    let provider = provider(
        "https://api.example.com/v1/responses?api-version=2026-06-09",
        true,
        false,
    );
    let uri = Some("/v1/responses/compact");

    assert_eq!(
        upstream_url(&provider, uri, "1.0.0"),
        "https://api.example.com/v1/responses/compact?api-version=2026-06-09"
    );
    assert_eq!(
        response_transform(false, "POST", uri),
        ResponseTransform::Passthrough
    );
}

#[test]
fn official_codex_url_gets_client_version() {
    let mut provider = provider("https://chatgpt.com/backend-api/codex", false, false);
    provider.official_codex = true;
    assert_eq!(
        upstream_url(&provider, Some("/v1/models?foo=bar"), "1.2.3"),
        "https://chatgpt.com/backend-api/codex/models?foo=bar&client_version=1.2.3"
    );
}

#[test]
fn cache_keys_go_to_servers_that_know_them() {
    for (base_url, expected) in [
        ("https://api.openai.com/v1", true),
        (" https://API.OpenAI.com ", true),
        ("https://api.kimi.com/coding/v1", true),
        ("https://api.kimi.com/v1", false),
        ("https://example.com/v1", false),
        ("not a url", false),
    ] {
        let provider = provider(base_url, false, false);
        assert_eq!(
            provider_supports_chat_prompt_cache_key(&provider),
            expected,
            "{base_url}"
        );
    }
}

#[test]
fn a_fault_names_the_host() {
    let message =
        format_upstream_request_error(SendFault::Timeout, "https://api.example.com/v1/responses");
    assert!(message.contains("api.example.com"));
}

#[test]
fn headers_of_responses_are_filtered() {
    assert!(is_event_stream(Some("text/event-stream; charset=utf-8")));
    assert!(!is_event_stream(None));
    assert!(!forwards_response_header("transfer-encoding"));
    assert!(!forwards_response_header("connection"));
    assert!(forwards_response_header("x-request-id"));
}

#[test]
fn a_refused_credential_is_renewed_once() {
    let plan = auth_plan(true, false, true);
    let authorization = bearer("old-access");
    assert!(matches!(
        after_first_response(plan, Some(&authorization), 401, true, false),
        SendStep::RefreshOAuth(token) if token == "old-access"
    ));
    assert!(matches!(
        after_first_response(auth_plan(false, false, false), Some(&authorization), 401, true, false),
        SendStep::Deliver
    ));
}

#[test]
fn a_request_is_prepared_for_its_provider() {
    let mut provider = provider("https://api.example.com/v1/chat/completions", true, true);
    provider.model_map = vec![("gpt-5-codex".to_string(), "deepseek-chat".to_string())];
    let headers = vec![HeaderField {
        name: "x-session-id".to_string(),
        value: Some("s".to_string()),
    }];
    let prepared = prepare_upstream_request(
        &provider,
        "POST",
        Some("/v1/responses"),
        &headers,
        br#"{"model":"gpt-5-codex","input":"hi","reasoning":{"effort":"ultra"}}"#.to_vec(),
        "https://api.example.com/v1/chat/completions",
        &ChatHistoryStore::new(),
    )
    .expect("prepared");
    assert_eq!(
        prepared.transform,
        ResponseTransform::ChatCompletionsToResponses
    );
    assert_eq!(prepared.url, "https://api.example.com/v1/chat/completions");
    let body: serde_json::Value = serde_json::from_slice(&prepared.conversion.body).expect("json");
    assert_eq!(body["model"], "deepseek-chat");
    assert_eq!(body["reasoning_effort"], "max");
}
