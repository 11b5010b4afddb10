use codex_companion_relay::chat_stream::{ChatSseTransformState, ChatStreamNotice};
use codex_companion_relay::json::{parse_json, Json};
use codex_companion_relay::observer::{
    stream_failure_cause, stream_failure_note, watched_failure_note, ResponsesSseObserverState,
    StreamFailure,
};
use codex_companion_relay::tools::ChatToolContext;

fn json(text: &str) -> Json {
    parse_json(text.as_bytes()).expect("json")
}

fn stream() -> ChatSseTransformState {
    ChatSseTransformState::new(String::new(), ChatToolContext::new(), Vec::new())
}

fn sent(state: &mut ChatSseTransformState) -> String {
    let mut output = String::new();
    while let Some(bytes) = state.take_pending() {
        output.push_str(&String::from_utf8_lossy(&bytes));
    }
    output
}

fn added(state: &mut ResponsesSseObserverState) -> String {
    let mut output = String::new();
    while let Some(bytes) = state.take_pending() {
        output.push_str(&String::from_utf8_lossy(&bytes));
    }
    output
}

#[test]
fn chat_sse_transform_emits_response_completed() {
    let mut state = stream();
    state.push_chunk(
        br#"data: {"id":"chatcmpl_1","model":"deepseek-chat","choices":[{"delta":{"content":"ok"},"finish_reason":null}]}

"#,
    );
    state.push_chunk(
        br#"data: {"id":"chatcmpl_tools","model":"gpt-5.4","choices":[],"usage":{"prompt_tokens":12,"completion_tokens":3,"total_tokens":15}}

"#,
    );
    state.push_chunk(
        br#"data: [DONE]

"#,
    );
    let output = sent(&mut state);

    assert!(output.contains("response.output_text.delta"));
    assert!(output.contains("response.completed"));
    assert!(output.contains("ok"));
}

#[test]
fn chat_sse_transform_accepts_cr_only_boundaries() {
    let mut state = stream();
    state.push_chunk(
        b"data: {\"id\":\"chatcmpl_cr\",\"model\":\"gpt-test\",\"choices\":[{\"delta\":{\"content\":\"ok\"},\"finish_reason\":\"stop\"}]}\r\rdata: [DONE]\r\r",
    );
    state.finish_stream();

    let output = sent(&mut state);
    assert!(output.contains("response.output_text.delta"));
    assert!(output.contains("response.completed"));
    assert!(!output.contains("response.failed"));
}

#[test]
fn chat_sse_transform_preserves_utf8_across_transport_chunks() {
    let mut state = stream();
    let event = [
        "data: {\"id\":\"chatcmpl_utf8\",\"model\":\"deepseek-chat\",",
        "\"choices\":[{\"delta\":{\"content\":\"你好\"},\"finish_reason\":\"stop\"}]}\n\n",
    ]
    .concat();
    let event = event.as_bytes();
    let split = event
        .windows("你".len())
        .position(|window| window == "你".as_bytes())
        .expect("utf8 character")
        + 1;

    state.push_chunk(&event[..split]);
    state.push_chunk(&event[split..]);
    state.finish_stream();

    let output = sent(&mut state);
    assert!(output.contains("你好"));
    assert!(!output.contains('\u{fffd}'));
    assert!(output.contains("response.completed"));
}

#[test]
fn chat_sse_transform_reports_incomplete_eof_as_failed() {
    let mut state = stream();
    state.push_chunk(
        br#"data: {"id":"chatcmpl_cut","model":"deepseek-chat","choices":[{"delta":{"content":"partial"},"finish_reason":null}]}

"#,
    );

    state.finish_stream();

    let output = sent(&mut state);
    assert!(output.contains("response.failed"));
    assert!(output.contains("upstream_stream_incomplete"));
    assert!(!output.contains("response.completed"));
}

#[test]
fn chat_sse_transform_bounds_retained_text_and_tool_arguments() {
    let mut state = stream().with_retained_output_limit(16);
    state.push_chunk(b"data: {\"choices\":[{\"delta\":{\"content\":\"hello\"}}]}\n\n");
    state.push_chunk(
        b"data: {\"choices\":[{\"delta\":{\"tool_calls\":[{\"index\":0,\"id\":\"call\",\"function\":{\"name\":\"tool\",\"arguments\":\"12345678\"}}]}}]}\n\n",
    );

    let output = sent(&mut state);
    assert!(state.stops_upstream());
    assert_eq!(state.retained_output_bytes(), 0);
    assert!(state.retained_text().is_empty());
    assert_eq!(state.retained_calls(), 0);
    assert!(output.contains("response.failed"));
    assert!(output.contains("Chat Completions 输出达到 16 字节"));
    assert!(!output.contains("response.completed"));
}

#[test]
fn direct_responses_sse_observer_reports_incomplete_eof() {
    let mut state = ResponsesSseObserverState::new();
    state.push_chunk(
        br#"data: {"type":"response.created","response":{"id":"resp_1","model":"gpt-test"}}

"#,
    );

    state.finish_stream();

    let output = added(&mut state);
    assert!(output.contains("response.failed"));
    assert!(output.contains("upstream_stream_incomplete"));
    assert!(matches!(
        state.take_failures().as_slice(),
        [StreamFailure::Incomplete(_)]
    ));
}

#[test]
fn direct_responses_observer_disables_inspection_after_a_frame_overflow() {
    let mut state = ResponsesSseObserverState::new().with_frame_limit(64);

    state.push_chunk(&[b'x'; 64]);
    state.finish_stream();

    assert!(state.is_disabled());
    assert_eq!(state.buffered_bytes(), 0);
    assert!(state.take_pending().is_none());
    assert!(state.take_failures().is_empty());
}

#[test]
fn direct_responses_sse_observer_accepts_terminal_event_across_chunks() {
    let mut state = ResponsesSseObserverState::new();
    let event = br#"data: {"type":"response.completed","response":{"id":"resp_2","status":"completed"}}

"#;
    let split = event.len() / 2;
    state.push_chunk(&event[..split]);
    state.push_chunk(&event[split..]);
    state.finish_stream();

    assert!(state.take_pending().is_none());
    assert!(state.is_terminal());
    assert!(state.take_failures().is_empty());
}

#[test]
fn chat_sse_transform_restores_custom_and_tool_search_calls() {
    let context = ChatToolContext::from_request(&json(
        r#"{"tools":[{"type":"custom","name":"apply_patch"},{"type":"tool_search"}]}"#,
    ));
    let mut state = ChatSseTransformState::new("p".to_string(), context, Vec::new());
    state.push_chunk(
        br#"data: {"id":"chatcmpl_tools","model":"gpt-5.4","choices":[{"delta":{"tool_calls":[{"index":0,"id":"call_custom","type":"function","function":{"name":"apply_patch","arguments":"{\"input\":\"patch\"}"}},{"index":1,"id":"call_search","type":"function","function":{"name":"tool_search","arguments":"{\"query\":\"gmail\"}"}}]},"finish_reason":"tool_calls"}]}

"#,
    );
    state.push_chunk(
        br#"data: {"id":"chatcmpl_tools","model":"gpt-5.4","choices":[],"usage":{"prompt_tokens":12,"completion_tokens":3,"total_tokens":15}}

"#,
    );
    state.push_chunk(
        br#"data: [DONE]

"#,
    );
    let output = sent(&mut state);

    assert!(output.contains("response.custom_tool_call_input.done"));
    assert!(output.contains("\"type\":\"custom_tool_call\""));
    assert!(output.contains("\"type\":\"tool_search_call\""));
    assert!(output.contains("\"query\":\"gmail\""));
    assert!(output.contains("\"input_tokens\":12"));
    assert!(output.contains("response.completed"));
}

#[test]
fn chat_sse_transform_preserves_late_tool_identity_and_sparse_order() {
    let mut state = stream();
    state.push_chunk(
        br#"data: {"id":"chatcmpl_sparse","choices":[{"delta":{"tool_calls":[{"index":1,"id":"call_b","function":{"name":"tool_b","arguments":"{\"b\":"}},{"index":2,"id":"call_c","function":{"name":"tool_c","arguments":"{}"}}]}}]}

"#,
    );
    state.push_chunk(
        br#"data: {"id":"chatcmpl_sparse","choices":[{"delta":{"tool_calls":[{"index":1,"id":"","function":{"name":"","arguments":"1}"}},{"index":0,"function":{"name":"","arguments":"{}"}}]}}]}

"#,
    );
    state.push_chunk(
        br#"data: {"id":"chatcmpl_sparse","choices":[{"delta":{"tool_calls":[{"index":0,"id":"call_a","function":{"name":"tool_a","arguments":""}}]},"finish_reason":"tool_calls"}]}

data: [DONE]

"#,
    );
    let output = sent(&mut state);
    let tool_a = output.find("\"name\":\"tool_a\"").expect("tool a");
    let tool_b = output.find("\"name\":\"tool_b\"").expect("tool b");
    let tool_c = output.find("\"name\":\"tool_c\"").expect("tool c");
    assert!(tool_a < tool_b && tool_b < tool_c);
    assert!(output.contains("{\\\"b\\\":1}"));
    assert!(!output.contains("\"output_index\":4"));
}

#[test]
fn a_frame_that_is_too_long_ends_the_stream() {
    let mut state = stream().with_frame_limit(64);
    state.push_chunk(&[b'x'; 64]);
    assert!(state.stops_upstream());
    let output = sent(&mut state);
    assert!(output.contains("response.failed"));
    assert!(output.contains("upstream_stream_incomplete"));
    assert!(output.len() < 4 * 1024);
}

#[test]
fn events_that_wait_are_bounded() {
    let frame = format!(
        "data: {{\"choices\":[{{\"delta\":{{\"content\":\"{}\"}}}}]}}\n\n",
        "x".repeat(64)
    );
    let mut state = stream().with_pending_limit(4 * 1024);
    state.push_chunk(frame.repeat(64).as_bytes());
    state.finish_stream();
    let output = sent(&mut state);
    assert!(output.contains("response.failed"));
    assert!(output.contains("事件输出达到 4 KiB"));
    assert!(!output.contains("response.completed"));
    assert!(output.len() < 4 * 1024);
}

#[test]
fn nothing_follows_the_end_of_a_stream() {
    let mut state = stream();
    state.push_chunk(
        b"data: {\"choices\":[{\"delta\":{\"content\":\"done\"},\"finish_reason\":\"stop\"}]}\n\ndata: [DONE]\n\n",
    );
    assert!(state.stops_upstream());
    state.push_chunk(
        b"data: {\"choices\":[{\"delta\":{\"tool_calls\":[{\"index\":0,\"function\":{\"name\":\"ignored\",\"arguments\":\"{}\"}}]}}]}\n\n",
    );
    let output = sent(&mut state);
    assert!(output.contains("response.completed"));
    assert!(output.contains("done"));
    assert!(!output.contains("ignored"));
    assert!(matches!(
        state.take_notices().as_slice(),
        [ChatStreamNotice::Completed { .. }]
    ));
}

#[test]
fn chunks_may_be_cut_anywhere() {
    let whole = b"data: {\"id\":\"c\",\"model\":\"m\",\"created\":5,\"choices\":[{\"delta\":{\"content\":\"a\"}}]}\r\n\r\ndata: {\"choices\":[{\"delta\":{\"content\":\"b\"},\"finish_reason\":\"stop\"}]}\r\n\r\ndata: [DONE]\r\n\r\n";
    let mut reference = stream();
    reference.push_chunk(whole);
    reference.finish_stream();
    let expected = sent(&mut reference);
    for cut in 0..whole.len() {
        let mut state = stream();
        state.push_chunk(&whole[..cut]);
        state.push_chunk(&whole[cut..]);
        state.finish_stream();
        assert_eq!(sent(&mut state), expected);
    }
}

#[test]
fn an_observed_stream_may_be_cut_anywhere() {
    let whole = b"data: {\"type\":\"response.created\",\"response\":{\"id\":\"r\"}}\r\rdata: {\"type\":\"response.failed\",\"response\":{\"error\":{\"message\":\"busy\"}}}\r\r";
    for cut in 0..whole.len() {
        let mut state = ResponsesSseObserverState::new();
        state.push_chunk(&whole[..cut]);
        state.push_chunk(&whole[cut..]);
        state.finish_stream();
        assert!(state.is_terminal());
        assert!(state.take_pending().is_none());
        assert!(matches!(
            state.take_failures().as_slice(),
            [StreamFailure::Reported(message)] if message == "busy"
        ));
    }
}

#[test]
fn the_cause_of_a_failure_is_what_the_server_said() {
    assert!(stream_failure_cause("rate limited").contains("rate limited"));
}

#[test]
fn notes_of_watched_streams_have_no_white_space_at_their_ends() {
    assert_eq!(
        watched_failure_note("cc-1-2", "  busy \n"),
        "[cc-1-2] upstream_stream_incomplete: busy"
    );
    assert_eq!(
        stream_failure_note("cc-1-2", "  busy "),
        "[cc-1-2] upstream_stream_incomplete:   busy "
    );
}

#[test]
fn failures_that_the_server_reports_are_redacted_and_cut() {
    let mut state = ResponsesSseObserverState::new();
    state.push_chunk(
        b"data: {\"type\":\"response.failed\",\"response\":{\"error\":{\"message\":\"busy key=abc\"}}}\n\n",
    );
    let failures = state.take_failures();
    assert_eq!(failures.len(), 1);
    assert_eq!(failures[0].reported(), Some("busy key=abc"));
    assert_eq!(failures[0].detail_as("busy key=***"), "busy key=***");
    assert_eq!(failures[0].detail_as(&"y".repeat(600)), "y".repeat(512));
    let found = StreamFailure::Incomplete("cut".to_string());
    assert_eq!(found.reported(), None);
    assert_eq!(found.detail_as(""), "cut");
}

#[test]
fn pieces_of_a_call_go_to_its_index() {
    let mut state = stream();
    state.push_chunk(
        b"data: {\"choices\":[{\"delta\":{\"tool_calls\":[{\"index\":3,\"id\":\"call\",\"function\":{\"name\":\"tool\",\"arguments\":\"{\\\"a\\\":\"}}]}}]}\n\n",
    );
    state.push_chunk(
        b"data: {\"choices\":[{\"delta\":{\"tool_calls\":[{\"index\":3,\"id\":\"\",\"function\":{\"name\":\"\",\"arguments\":\"1}\"}}]}}]}\n\n",
    );
    assert_eq!(state.retained_calls(), 1);
    assert_eq!(state.retained_output_bytes(), 4 + 4 + 7);
    state.push_chunk(b"data: [DONE]\n\n");
    let output = sent(&mut state);
    assert!(output.contains("\"call_id\":\"call\""));
    assert!(output.contains("\"name\":\"tool\""));
    assert!(output.contains(r#""arguments":"{\"a\":1}""#));
}

#[test]
fn a_stream_without_room_for_its_events_tells_of_that_once() {
    let mut state = stream().with_pending_limit(64);
    state.push_chunk(b"data: {\"choices\":[{\"delta\":{\"content\":\"hello\"}}]}\n\n");
    state.finish_stream();
    assert!(state.is_completed());
    let notices = state.take_notices();
    assert!(
        matches!(notices.as_slice(), [ChatStreamNotice::Failed(detail)] if detail.contains("64 字节"))
    );
    let output = sent(&mut state);
    assert_eq!(output.matches("response.failed").count(), 1);
}
