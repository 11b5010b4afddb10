use codex_companion_relay::dispatch::{
    after_attempt, begin_attempts, catalog_answer, failure_error_code, local_answer, Attempt,
    AttemptOutcome, ClientAccess, EventKind, FailureClassification, HealthNote, LocalAnswer,
    NextStep, Progress,
};
use codex_companion_relay::headers::HeaderField;
use codex_companion_relay::policy::HealthFailureKind;
use codex_companion_relay::request::{
    allowed_models_body, authenticate_client, body_decode_error, body_read_error, client_api_key,
    compact_error_body, hash_affinity_key, internal_error, is_relay_root_probe, next_request_id,
    request_affinity_key, request_id_at, request_metadata, request_session_id, scoped_affinity_key,
    BodyReadFault, ClientLookup, RequestMetadata,
};
use codex_companion_relay::content_encoding::RequestBodyDecodeError;
use serde_json::Value;

fn header(name: &str, value: &str) -> HeaderField {
    HeaderField {
        name: name.to_string(),
        value: Some(value.to_string()),
    }
}

#[test]
fn request_metadata_reads_observability_fields() {
    assert_eq!(
        request_metadata(
            br#"{"model":"gpt-5.6-sol","reasoning":{"effort":"high"},"service_tier":"priority"}"#,
        ),
        RequestMetadata {
            model: Some("gpt-5.6-sol".to_string()),
            reasoning_effort: Some("high".to_string()),
            service_tier: Some("priority".to_string()),
        }
    );
    assert_eq!(
        request_metadata(br#"{"reasoning_effort":"xhigh"}"#).reasoning_effort,
        Some("xhigh".to_string())
    );
}

#[test]
fn relay_root_probe_is_handled_locally() {
    let root = "/v1";
    let models = "/v1/models";

    assert!(is_relay_root_probe("GET", root));
    assert!(!is_relay_root_probe("POST", root));
    assert!(!is_relay_root_probe("GET", models));
}

#[test]
fn affinity_key_accepts_metadata_session_id_but_not_previous_response_id() {
    let none = Vec::new();
    let session = request_affinity_key(&none, br#"{"metadata":{"session_id":"session-123"}}"#);
    assert!(session.is_some());
    assert_eq!(
        session,
        request_affinity_key(
            &none,
            br#"{"metadata":{"session_id":"session-123"},"previous_response_id":"resp-2"}"#,
        )
    );
    assert!(request_affinity_key(&none, br#"{"previous_response_id":"resp-1"}"#).is_none());
    assert_eq!(
        request_session_id(&none, br#"{"metadata":{"session_id":"session-123"}}"#).as_deref(),
        Some("session-123")
    );
    let request_headers = vec![header("x-client-request-id", "request-456")];
    assert_eq!(
        request_session_id(
            &request_headers,
            br#"{"metadata":{"session_id":"session-123"}}"#,
        )
        .as_deref(),
        Some("session-123")
    );
    assert_eq!(
        request_session_id(&request_headers, b"").as_deref(),
        Some("request-456")
    );
}

#[test]
fn affinity_key_is_isolated_per_api_client() {
    let raw = hash_affinity_key("session:shared");
    assert_ne!(
        scoped_affinity_key(&raw, Some("client-a")),
        scoped_affinity_key(&raw, Some("client-b"))
    );
    assert_eq!(
        scoped_affinity_key(&raw, Some("client-a")),
        scoped_affinity_key(&raw, Some("client-a"))
    );
}

#[test]
fn browser_origin_requires_a_valid_client_key_even_in_local_mode() {
    let mut browser_headers = vec![header("origin", "http://localhost:1420")];
    let key = client_api_key(&browser_headers);
    let missing =
        authenticate_client(key.is_some(), ClientLookup::Unknown, false, false, false, true)
            .expect_err("browser request without a key");
    assert_eq!(missing.0, 401);

    browser_headers.push(header("authorization", "Bearer cc_live_secret"));
    let key = client_api_key(&browser_headers);
    assert_eq!(key.as_deref(), Some("cc_live_secret"));
    let authenticated =
        authenticate_client(key.is_some(), ClientLookup::Known, false, false, false, true)
            .expect("authenticated browser request");
    assert!(authenticated);
}

#[test]
fn non_loopback_runtime_auth_floor_survives_config_changes() {
    let missing = authenticate_client(false, ClientLookup::Unknown, true, true, false, false)
        .expect_err("runtime floor must require a key");
    assert_eq!(missing.0, 401);
    let root_probe = authenticate_client(false, ClientLookup::Unknown, true, false, false, false)
        .expect_err("non-loopback root probe must require a key");
    assert_eq!(root_probe.0, 401);
}

#[test]
fn keys_are_refused_in_words() {
    let wrong = authenticate_client(true, ClientLookup::Unknown, false, true, true, false)
        .expect_err("unknown key");
    assert_eq!(wrong, (401, "API key 无效、已停用或已轮换".to_string()));
    let broken = authenticate_client(
        true,
        ClientLookup::Failed("locked".to_string()),
        false,
        true,
        true,
        false,
    )
    .expect_err("no database");
    assert_eq!(broken, (500, "API client 数据库不可用: locked".to_string()));
    assert_eq!(
        authenticate_client(false, ClientLookup::Unknown, false, true, false, false),
        Ok(false)
    );
}

#[test]
fn keys_are_read_from_two_headers() {
    assert_eq!(
        client_api_key(&vec![header("x-api-key", " key ")]).as_deref(),
        Some("key")
    );
    assert_eq!(client_api_key(&vec![header("authorization", "Basic x")]), None);
}

#[test]
fn metadata_is_trimmed_and_cut() {
    let body = format!("{{\"model\":\"  {}  \",\"service_tier\":\" \"}}", "m".repeat(200));
    let metadata = request_metadata(body.as_bytes());
    assert_eq!(metadata.model.map(|model| model.len()), Some(160));
    assert_eq!(metadata.service_tier, None);
    assert_eq!(request_metadata(b"no json"), RequestMetadata::default());
}

#[test]
fn request_ids_hold_the_time_and_a_number() {
    assert_eq!(request_id_at(0x1234, 255), "cc-1234-ff");
    assert_eq!(request_id_at(0, 0), "cc-0-0");
    let mut sequence = u64::MAX;
    let id = next_request_id(&mut sequence);
    assert!(id.starts_with("cc-"));
    assert!(id.ends_with("-ffffffffffffffff"));
    assert_eq!(sequence, 0);
    let ids: Vec<String> = (0..64).map(|_| next_request_id(&mut sequence)).collect();
    assert_eq!(sequence, 64);
    for (index, id) in ids.iter().enumerate() {
        assert!(ids[..index].iter().all(|other| other != id));
    }
}

#[test]
fn hashes_take_sixteen_digits() {
    let key = hash_affinity_key("");
    assert_eq!(key.len(), 16);
    assert!(key.chars().all(|c| c.is_ascii_hexdigit()));
    assert_ne!(key, hash_affinity_key("x"));
}

#[test]
fn error_bodies_are_put_on_one_line_and_cut() {
    assert_eq!(compact_error_body(" a\n\tb  c "), "a b c");
    assert_eq!(compact_error_body(" \n "), "无响应正文");
    let long = compact_error_body(&"x".repeat(300));
    assert_eq!(long, format!("{}...", "x".repeat(280)));
    assert_eq!(compact_error_body(&"x".repeat(280)), "x".repeat(280));
}

#[test]
fn faults_of_the_body_have_codes() {
    let large = body_read_error(BodyReadFault::TooLarge);
    assert_eq!((large.status, large.code), (413, "local_request_too_large"));
    assert!(large.message.contains("Codex Companion 本地代理的 200 MiB 上限"));
    let failed = body_read_error(BodyReadFault::Failed("reset".to_string()));
    assert_eq!((failed.status, failed.code), (400, "request_body_read_failed"));
    assert_eq!(failed.message, "读取请求体失败: reset");
    let large = body_decode_error(&RequestBodyDecodeError::TooLarge { limit: 1 });
    assert_eq!(
        (large.status, large.code),
        (413, "local_decompressed_request_too_large")
    );
    let unknown =
        body_decode_error(&RequestBodyDecodeError::UnsupportedEncoding("snappy".to_string()));
    assert_eq!((unknown.status, unknown.code), (415, "unsupported_content_encoding"));
    assert_eq!(unknown.message, "不支持请求体编码 snappy");
    let invalid = body_decode_error(&RequestBodyDecodeError::InvalidEncoding {
        encoding: "gzip".to_string(),
        message: "bad".to_string(),
    });
    assert_eq!((invalid.status, invalid.code), (400, "invalid_content_encoding"));
    assert_eq!(invalid.message, "failed to decode request body as gzip: bad");
    let value: Value = serde_json::from_str(&internal_error("oh  no").body()).expect("json");
    assert_eq!(value["error"]["message"], "oh no");
    assert_eq!(value["error"]["type"], "codex_companion_error");
    assert_eq!(value["error"]["code"], "proxy_internal_error");
}

#[test]
fn models_are_listed() {
    let body = allowed_models_body(&vec!["a".to_string(), "b".to_string()]);
    let value: Value = serde_json::from_str(&body).expect("json");
    assert_eq!(value["object"], "list");
    assert_eq!(value["data"][1]["id"], "b");
    assert_eq!(value["data"][1]["owned_by"], "codex-companion");
    assert_eq!(
        catalog_answer(
            "GET",
            "/v1/models",
            &vec![
                vec!["z".to_string(), "default".to_string()],
                vec!["a".to_string(), "z".to_string()],
            ],
        ),
        Some(vec!["a".to_string(), "z".to_string()])
    );
    assert_eq!(catalog_answer("GET", "/v1/models", &Vec::new()), None);
    assert_eq!(
        catalog_answer("POST", "/v1/models", &vec![vec!["a".to_string()]]),
        None
    );
}

#[test]
fn a_client_is_limited_to_its_models() {
    let client = ClientAccess {
        name: "app".to_string(),
        allowed_models: vec!["gpt-a".to_string()],
    };
    assert!(matches!(
        local_answer("GET", "/", Some(&client), Some("gpt-b")),
        LocalAnswer::Root
    ));
    match local_answer("POST", "/v1/responses", Some(&client), Some("gpt-b")) {
        LocalAnswer::Refused(error) => {
            assert_eq!((error.status, error.code), (403, "model_not_allowed"));
            assert_eq!(error.message, "API client app 无权使用模型 gpt-b");
        }
        other => panic!("{other:?}"),
    }
    assert!(matches!(
        local_answer("GET", "/v1/models", Some(&client), None),
        LocalAnswer::Models(models) if models == vec!["gpt-a".to_string()]
    ));
    assert!(matches!(
        local_answer("POST", "/v1/responses", Some(&client), Some("gpt-a")),
        LocalAnswer::NotLocal
    ));
    assert!(matches!(
        local_answer("GET", "/v1/models", None, None),
        LocalAnswer::NotLocal
    ));
}

fn attempt(index: usize, count: usize) -> Attempt {
    Attempt {
        provider_name: "A".to_string(),
        chat_only: false,
        index,
        count,
        fallback_enabled: true,
        compact: false,
        model_known: true,
        explicit_preference: false,
        session_known: true,
    }
}

fn failure(kind: HealthFailureKind, retryable: bool) -> FailureClassification {
    FailureClassification { kind, retryable }
}

fn status_error(status: u16, text: &str, kind: HealthFailureKind) -> AttemptOutcome {
    AttemptOutcome::ErrorStatus {
        status,
        status_text: text.to_string(),
        body: "busy".to_string(),
        refresh_error: None,
        failure: failure(kind, true),
    }
}

#[test]
fn a_success_ends_the_attempts() {
    let attempt = attempt(0, 2);
    assert!(attempt.before_sending().is_none());
    let verdict = attempt.judge(AttemptOutcome::Delivered { status: 200 });
    assert_eq!(verdict.attempt, 1);
    assert_eq!(verdict.health, HealthNote::Healthy);
    assert!(verdict.bind_session && verdict.clear_model_cooldown);
    assert!(matches!(
        after_attempt(&attempt, verdict),
        Progress::Delivered { index: 0 }
    ));
}

#[test]
fn a_rate_limit_cools_the_model_and_falls_back() {
    let first = attempt(0, 2);
    let verdict = first.judge(status_error(
        429,
        "429 Too Many Requests",
        HealthFailureKind::RateLimited,
    ));
    assert_eq!(verdict.health, HealthNote::ModelFailed);
    assert_eq!(verdict.event, Some(EventKind::Fallback));
    assert_eq!(verdict.error.as_deref(), Some("上游返回 429 Too Many Requests: busy"));
    assert!(matches!(
        after_attempt(&first, verdict),
        Progress::Pending { index: 1, .. }
    ));
    let last = attempt(1, 2);
    let verdict = last.judge(status_error(
        429,
        "429 Too Many Requests",
        HealthFailureKind::RateLimited,
    ));
    match after_attempt(&last, verdict) {
        Progress::Answered { error, attempts } => {
            assert_eq!((error.status, error.code), (429, "upstream_rate_limited"));
            assert_eq!(attempts, 2);
        }
        other => panic!("{other:?}"),
    }
}

#[test]
fn a_request_that_is_too_large_leaves_health_alone() {
    let only = attempt(0, 1);
    let verdict = only.judge(status_error(
        413,
        "413 Payload Too Large",
        HealthFailureKind::Unknown,
    ));
    assert_eq!(verdict.health, HealthNote::Untouched);
    match verdict.next {
        NextStep::Answer(error) => {
            assert_eq!((error.status, error.code), (413, "upstream_request_too_large"));
            assert!(error.message.starts_with("上游 Provider A 返回 413"));
        }
        other => panic!("{other:?}"),
    }
    let verdict = only.judge(status_error(400, "400 Bad Request", HealthFailureKind::Unknown));
    assert_eq!(verdict.health, HealthNote::Untouched);
    assert!(matches!(
        verdict.next,
        NextStep::Answer(error) if error.code == "upstream_request_incompatible"
    ));
}

#[test]
fn compacting_needs_a_provider_that_can() {
    let mut chat = attempt(0, 2);
    chat.compact = true;
    chat.chat_only = true;
    let verdict = chat.before_sending().expect("cannot be made");
    assert_eq!(verdict.status, Some(501));
    assert!(matches!(verdict.next, NextStep::TryNext));
    chat.index = 1;
    let verdict = chat.before_sending().expect("cannot be made");
    assert!(matches!(
        verdict.next,
        NextStep::Answer(error) if error.code == "responses_compact_unsupported"
    ));
    let mut other = attempt(0, 1);
    other.compact = true;
    let verdict = other.judge(status_error(404, "404 Not Found", HealthFailureKind::Unknown));
    assert_eq!(verdict.health, HealthNote::Untouched);
    assert_eq!(
        verdict.error.as_deref(),
        Some("上游 Provider A 不支持 Responses Compact API（HTTP 404 Not Found）")
    );
}

#[test]
fn a_request_that_cannot_be_sent_ends_in_a_bad_gateway() {
    let only = attempt(0, 1);
    let verdict = only.judge(AttemptOutcome::SendFailed {
        failure: failure(HealthFailureKind::NetworkFailed, true),
        message: "connection  refused".to_string(),
    });
    assert_eq!(verdict.status, None);
    assert_eq!(verdict.event, Some(EventKind::Error));
    match after_attempt(&only, verdict) {
        Progress::Answered { error, attempts } => {
            assert_eq!((error.status, error.code), (502, "all_providers_failed"));
            assert_eq!(error.message, "connection refused");
            assert_eq!(attempts, 1);
        }
        other => panic!("{other:?}"),
    }
}

#[test]
fn a_failed_preflight_falls_back_only_where_that_may_help() {
    let first = attempt(0, 2);
    let rejected = first.judge(AttemptOutcome::PreflightFailed {
        failure: failure(HealthFailureKind::RequestRejected, false),
        message: "no".to_string(),
    });
    assert_eq!(rejected.health, HealthNote::Untouched);
    assert!(matches!(
        rejected.next,
        NextStep::Answer(error) if error.status == 502 && error.code == "upstream_request_rejected"
    ));
    let expired = first.judge(AttemptOutcome::PreflightFailed {
        failure: failure(HealthFailureKind::AuthFailed, false),
        message: "expired".to_string(),
    });
    assert!(matches!(expired.next, NextStep::TryNext));
    let converted = attempt(1, 2).judge(AttemptOutcome::NotConverted {
        status: 502,
        status_text: "502 Bad Gateway".to_string(),
        failure: failure(HealthFailureKind::UpstreamFailed, true),
    });
    assert!(matches!(
        converted.next,
        NextStep::Answer(error) if error.code == "response_transform_failed"
    ));
}

#[test]
fn a_group_without_providers_answers_itself() {
    match begin_attempts(0) {
        Progress::Answered { error, attempts } => {
            assert_eq!((error.status, error.code), (503, "no_available_provider"));
            assert_eq!(error.message, "当前本地代理分组没有可用账号");
            assert_eq!(attempts, 0);
        }
        other => panic!("{other:?}"),
    }
    assert!(matches!(begin_attempts(2), Progress::Pending { index: 0, .. }));
}

#[test]
fn kinds_of_failure_have_codes() {
    for (kind, code) in [
        (HealthFailureKind::AuthFailed, "upstream_auth_failed"),
        (HealthFailureKind::QuotaExhausted, "upstream_quota_exhausted"),
        (HealthFailureKind::ModelMissing, "upstream_model_not_found"),
        (HealthFailureKind::NetworkFailed, "upstream_network_error"),
        (HealthFailureKind::UpstreamFailed, "upstream_error"),
        (HealthFailureKind::Unknown, "upstream_unknown_error"),
    ] {
        assert_eq!(failure_error_code(kind), code);
    }
}
