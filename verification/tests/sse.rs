use codex_companion_relay::failure::{
    compact_json_error, reported_failure, semantic_failure_message, ResponseFault,
    MAX_UPSTREAM_ERROR_MESSAGE_CHARS,
};
use codex_companion_relay::json::{parse_json, Json};
use codex_companion_relay::preflight::{
    inspect_non_sse_body, preflight_buffered_sse, response_event_has_visible_output,
    NonSsePreflight, PreflightStep, ResponseTransform, StreamInspection, StreamPreflightError,
};
use codex_companion_relay::sse::{
    could_start_sse_frame, event_data_of, looks_like_sse, next_sse_block_boundary,
    sse_frame_limit_reached, sse_line_ending_len, MAX_SSE_FRAME_BYTES,
};

fn json(text: &str) -> Json {
    parse_json(text.as_bytes()).expect("json")
}

#[test]
fn parses_sse_boundaries_for_standard_and_mixed_line_endings() {
    for input in [
        b"data: one\n\nnext".as_slice(),
        b"data: one\r\n\r\nnext".as_slice(),
        b"data: one\r\rnext".as_slice(),
        b"data: one\n\r\nnext".as_slice(),
        b"data: one\r\n\nnext".as_slice(),
        b"data: one\r\r\nnext".as_slice(),
    ] {
        let boundary = next_sse_block_boundary(input, false).expect("SSE boundary");
        assert_eq!(&input[..boundary.block_end], b"data: one");
        assert_eq!(&input[boundary.drain_len..], b"next");
    }
}

#[test]
fn defers_a_trailing_cr_until_the_next_chunk_or_eof() {
    for input in [b"data: one\r\n\r".as_slice(), b"data: one\r\r".as_slice()] {
        assert_eq!(next_sse_block_boundary(input, false), None);
        let boundary = next_sse_block_boundary(input, true).expect("EOF boundary");
        assert_eq!(&input[..boundary.block_end], b"data: one");
        assert_eq!(boundary.drain_len, input.len());
    }
}

#[test]
fn enforces_the_configured_eight_mib_sse_frame_boundary() {
    assert_eq!(MAX_SSE_FRAME_BYTES, 8 * 1024 * 1024);
    assert!(!sse_frame_limit_reached(
        MAX_SSE_FRAME_BYTES - 1,
        MAX_SSE_FRAME_BYTES
    ));
    assert!(sse_frame_limit_reached(
        MAX_SSE_FRAME_BYTES,
        MAX_SSE_FRAME_BYTES
    ));
}

#[test]
fn detects_semantic_failure_in_buffered_sse() {
    let body = [
        "data: {\"type\":\"response.created\"}\n\n",
        "data: {\"type\":\"response.output_item.added\",\"item\":{\"type\":\"reasoning\"}}\n\n",
        "data: {\"type\":\"response.reasoning_summary_text.delta\",\"delta\":\"Checking\"}\n\n",
        "data: {\"type\":\"response.failed\",\"response\":{\"error\":{\"message\":",
        "\"exceeded retry limit, last status: 429 Too Many Requests\"}}}\n\n",
    ]
    .concat();
    let error = preflight_buffered_sse(body.as_bytes(), true).expect_err("semantic failure");

    assert!(
        matches!(error, StreamPreflightError::Semantic(message) if message.contains("429 Too Many Requests"))
    );
}

#[test]
fn distinguishes_partial_sse_prefixes_from_opaque_streams() {
    for prefix in [
        b"".as_slice(),
        b" \r\n".as_slice(),
        b"d".as_slice(),
        b"data".as_slice(),
        b"event:".as_slice(),
        b": keep-alive".as_slice(),
    ] {
        assert!(could_start_sse_frame(prefix));
    }
    for opaque in [
        b"{".as_slice(),
        b"opaque".as_slice(),
        b"\x1f\x8b\x08".as_slice(),
    ] {
        assert!(!could_start_sse_frame(opaque));
    }
}

#[test]
fn semantic_failure_detection_does_not_reject_valid_incomplete_response() {
    let failed = json(r#"{"status":"failed","error":{"message":"overloaded"}}"#);
    assert_eq!(reported_failure(&failed).as_deref(), Some("overloaded"));
    assert!(semantic_failure_message(&failed, "overloaded").is_some());
    let incomplete = json(
        r#"{"status":"incomplete","incomplete_details":{"reason":"max_output_tokens"},"output":[{"type":"message"}]}"#,
    );
    assert!(reported_failure(&incomplete).is_none());
    assert!(semantic_failure_message(&incomplete, "").is_none());
}

#[test]
fn semantic_failure_messages_are_redacted_and_bounded() {
    let detail = format!(
        "AgentAssertion assertion-secret refresh_token=refresh-secret {}",
        "x".repeat(MAX_UPSTREAM_ERROR_MESSAGE_CHARS * 2)
    );
    let value = json(&format!("{{\"type\":\"error\",\"message\":\"{detail}\"}}"));
    let reported = reported_failure(&value).expect("reported failure");
    assert_eq!(reported, detail);
    let redacted = reported
        .replace("assertion-secret", "[REDACTED]")
        .replace("refresh-secret", "[REDACTED]");
    let message = semantic_failure_message(&value, &redacted).expect("semantic failure");

    assert!(!message.contains("assertion-secret"));
    assert!(!message.contains("refresh-secret"));
    assert!(message.chars().count() <= MAX_UPSTREAM_ERROR_MESSAGE_CHARS);
    assert!(redacted.starts_with(&message));
}

#[test]
fn error_messages_are_cut_to_their_limit() {
    let value = json(r#"{"type":"error","message":"overloaded"}"#);
    assert_eq!(
        semantic_failure_message(&value, "overloaded").as_deref(),
        Some("overloaded")
    );
    assert_eq!(compact_json_error("short"), "short");
    assert_eq!(compact_json_error(&"x".repeat(1024)).chars().count(), 512);
}

#[test]
fn what_the_server_said_is_redacted_and_what_the_relay_found_is_kept() {
    let error = StreamPreflightError::Semantic("key=abc".to_string());
    assert_eq!(error.reported(), Some("key=abc"));
    assert!(
        matches!(error.redacted_as("key=***"), StreamPreflightError::Semantic(message) if message == "key=***")
    );
    let error = StreamPreflightError::Network("key=abc".to_string());
    assert_eq!(error.reported(), None);
    assert!(
        matches!(error.redacted_as(""), StreamPreflightError::Network(message) if message == "key=abc")
    );
    let fault = ResponseFault::Reported("key=abc".to_string());
    assert_eq!(fault.reported(), Some("key=abc"));
    assert_eq!(fault.told_as("key=***"), "key=***");
    let fault = ResponseFault::Found("no end".to_string());
    assert_eq!(fault.reported(), None);
    assert_eq!(fault.told_as(""), "no end");
}

#[test]
fn stream_preflight_network_errors_say_that_the_network_failed() {
    let error = StreamPreflightError::Network("连接超时".to_string());

    assert!(error.message_text().contains("网络失败"));
    assert!(error.classification_text().contains("连接超时"));
}

#[test]
fn line_endings_take_one_or_two_bytes() {
    assert_eq!(sse_line_ending_len(b"a\nb", 1, false), Some(1));
    assert_eq!(sse_line_ending_len(b"a\r\nb", 1, false), Some(2));
    assert_eq!(sse_line_ending_len(b"a\rb", 1, false), Some(1));
    assert_eq!(sse_line_ending_len(b"ab", 1, false), None);
}

#[test]
fn data_lines_are_joined_without_their_prefix() {
    assert_eq!(
        event_data_of("event: x\r\ndata: one\ndata:two\n: note", true),
        "one\ntwo"
    );
    assert!(looks_like_sse(b"\n data: x"));
    assert!(!looks_like_sse(b"{\"data\":1}"));
}

#[test]
fn a_body_that_is_no_stream_is_told_apart() {
    assert!(matches!(
        inspect_non_sse_body(b"{\"error\":{\"message\":\"busy\"}}", true),
        NonSsePreflight::SemanticFailure(_)
    ));
}

#[test]
fn a_stream_with_output_is_passed_on_at_once() {
    let mut inspection = StreamInspection::new(false, ResponseTransform::Passthrough);
    let step = inspection.on_chunk(
        b"data: {\"type\":\"response.output_text.delta\",\"delta\":\"hi\"}\n\n",
    );
    assert!(matches!(step, PreflightStep::Accept { opaque: false }));
}

#[test]
fn a_stream_split_anywhere_is_inspected_alike() {
    let stream = b"data: {\"type\":\"response.created\"}\r\n\r\ndata: {\"type\":\"response.failed\",\"response\":{\"error\":{\"message\":\"busy\"}}}\r\n\r\n";
    for cut in 1..stream.len() {
        let mut inspection = StreamInspection::new(true, ResponseTransform::Passthrough);
        let first = inspection.on_chunk(&stream[..cut]);
        let step = if matches!(first, PreflightStep::Read) {
            inspection.on_chunk(&stream[cut..])
        } else {
            first
        };
        assert!(matches!(
            step,
            PreflightStep::Reject(StreamPreflightError::Semantic(_))
        ));
    }
}

#[test]
fn output_is_visible_when_the_client_would_see_it() {
    for (event, visible) in [
        (r#"{"type":"response.output_text.delta","delta":"hi"}"#, true),
        (r#"{"type":"response.output_text.delta","delta":""}"#, false),
        (r#"{"type":"response.output_item.added","item":{"type":"reasoning"}}"#, false),
        (r#"{"type":"response.output_item.added","item":{"type":"function_call"}}"#, true),
        (r#"{"type":"response.content_part.added","part":{"type":"output_text","text":""}}"#, false),
        (r#"{"choices":[{"delta":{"content":"x"}}]}"#, true),
        (r#"{"choices":[{"delta":{"role":"assistant"}}]}"#, false),
    ] {
        assert_eq!(response_event_has_visible_output(&json(event)), visible, "{event}");
    }
}

#[test]
fn a_failure_behind_output_is_not_looked_at() {
    let stream = b"data: {\"type\":\"response.output_text.delta\",\"delta\":\"hi\"}\n\ndata: {\"type\":\"response.failed\",\"response\":{\"error\":{\"message\":\"busy\"}}}\n\n";
    let mut inspection = StreamInspection::new(true, ResponseTransform::Passthrough);
    assert!(matches!(
        inspection.on_chunk(stream),
        PreflightStep::Accept { opaque: false }
    ));
    let held = b"data: {\"type\":\"response.reasoning_summary_text.delta\",\"delta\":\"hm\"}\n\n";
    let mut inspection = StreamInspection::new(true, ResponseTransform::Passthrough);
    assert!(matches!(inspection.on_chunk(held), PreflightStep::Read));
    let mut alone = StreamInspection::new(false, ResponseTransform::Passthrough);
    assert!(matches!(
        alone.on_chunk(held),
        PreflightStep::Accept { opaque: false }
    ));
}
