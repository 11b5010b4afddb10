use codex_companion_relay::chat_request::responses_body_to_chat_completions;
use codex_companion_relay::history::ChatHistoryStore;
use codex_companion_relay::tools::{ChatToolContext, ChatToolKind};
use serde_json::Value;

fn converted_with_tools(
    body: Vec<u8>,
    provider_id: &str,
    prompt_cache_enabled: bool,
) -> (Vec<u8>, ChatToolContext) {
    let conversion = responses_body_to_chat_completions(
        body,
        provider_id,
        prompt_cache_enabled,
        &ChatHistoryStore::new(),
    );
    (conversion.body, conversion.tool_context)
}

fn converted_body(body: Vec<u8>, provider_id: &str, prompt_cache_enabled: bool) -> Vec<u8> {
    converted_with_tools(body, provider_id, prompt_cache_enabled).0
}

#[test]
fn omitted_stream_defaults_to_non_streaming_in_chat_bridge() {
    let body = converted_body(
        br#"{"model":"gpt-test","input":"hello"}"#.to_vec(),
        "p",
        false,
    );
    let value: Value = serde_json::from_slice(&body).expect("json");
    assert_eq!(value["stream"], false);
    assert!(value.get("stream_options").is_none());
}

#[test]
fn converts_responses_body_to_chat_messages() {
    let body = converted_body(
        br#"{"model":"gpt-5-codex","instructions":"be brief","input":[{"type":"message","role":"user","content":[{"type":"input_text","text":"hello"}]}],"stream":true}"#.to_vec(),
        "p",
        false,
    );
    let value: Value = serde_json::from_slice(&body).expect("json");

    assert_eq!(value["model"], "gpt-5-codex");
    assert_eq!(value["messages"][0]["role"], "system");
    assert_eq!(value["messages"][0]["content"], "be brief");
    assert_eq!(value["messages"][1]["role"], "user");
    assert_eq!(value["messages"][1]["content"], "hello");
    assert!(value.get("messages").and_then(Value::as_array).is_some());
}

#[test]
fn maps_ultra_to_official_max_effort_for_chat_completions() {
    let body = converted_body(
        br#"{"model":"gpt-5.6-sol","input":"hello","reasoning":{"effort":"ultra"}}"#.to_vec(),
        "p",
        false,
    );
    let value: Value = serde_json::from_slice(&body).expect("json");

    assert_eq!(value["reasoning_effort"], "max");
    assert!(value.get("reasoning").is_none());
}

#[test]
fn normalizes_chat_function_parameter_root_schema() {
    let body = converted_body(
        br#"{"tools":[{"type":"function","function":{"name":"lookup","parameters":{"properties":{"q":{"type":"string"}}}}}]}"#.to_vec(),
        "p",
        false,
    );
    let value: Value = serde_json::from_slice(&body).expect("json");
    assert_eq!(
        value.pointer("/tools/0/function/parameters/type"),
        Some(&Value::String("object".to_string()))
    );
}

#[test]
fn injects_prompt_cache_key_only_for_supported_chat_upstreams() {
    let request =
        br#"{"metadata":{"session_id":"session-123"},"input":"hello"}"#.to_vec();
    let enabled = converted_body(request.clone(), "p", true);
    let disabled = converted_body(request, "p", false);
    let enabled: Value = serde_json::from_slice(&enabled).expect("enabled json");
    let disabled: Value = serde_json::from_slice(&disabled).expect("disabled json");
    assert_eq!(enabled["prompt_cache_key"], "session-123");
    assert!(disabled.get("prompt_cache_key").is_none());
}

#[test]
fn converts_codex_tool_types_to_chat_functions_and_messages() {
    let (body, context) = converted_with_tools(
        br#"{
            "model":"gpt-5.4",
            "tools":[
                {"type":"custom","name":"apply_patch","description":"Apply a patch"},
                {"type":"tool_search"},
                {"type":"namespace","name":"github","tools":[
                    {"type":"function","name":"search_issues","parameters":{"type":"object"}}
                ]}
            ],
            "tool_choice":{"type":"function","name":"search_issues","namespace":"github"},
            "input":[
                {"type":"function_call","call_id":"call_ns","name":"search_issues","namespace":"github","arguments":"{\"q\":\"bug\"}"},
                {"type":"function_call_output","call_id":"call_ns","output":{"items":[]}},
                {"type":"custom_tool_call","call_id":"call_custom","name":"apply_patch","input":"*** Begin Patch"},
                {"type":"custom_tool_call_output","call_id":"call_custom","output":"ok"},
                {"type":"tool_search_call","call_id":"call_search","arguments":{"query":"gmail"}},
                {"type":"tool_search_output","call_id":"call_search","output":[]}
            ]
        }"#.to_vec(),
        "p",
        false,
    );
    let value: Value = serde_json::from_slice(&body).expect("json");
    let tool_names = value["tools"]
        .as_array()
        .expect("tools")
        .iter()
        .filter_map(|tool| tool.pointer("/function/name").and_then(Value::as_str))
        .collect::<Vec<_>>();

    assert_eq!(
        tool_names,
        vec!["apply_patch", "tool_search", "github__search_issues"]
    );
    assert_eq!(
        value.pointer("/tool_choice/function/name"),
        Some(&Value::String("github__search_issues".to_string()))
    );
    assert_eq!(
        value.pointer("/messages/0/tool_calls/0/function/name"),
        Some(&Value::String("github__search_issues".to_string()))
    );
    assert_eq!(value["messages"][1]["role"], "tool");
    assert_eq!(
        value.pointer("/messages/2/tool_calls/0/function/name"),
        Some(&Value::String("apply_patch".to_string()))
    );
    assert_eq!(
        context
            .lookup("github__search_issues")
            .map(|tool| tool.spec.kind),
        Some(ChatToolKind::Namespace)
    );
}

#[test]
fn attaches_responses_reasoning_to_the_following_assistant_message() {
    let body = converted_body(
        br#"{
                "model":"thinking-model",
                "input":[
                    {"type":"reasoning","summary":[{"type":"summary_text","text":"first thought"}]},
                    {"type":"message","role":"assistant","content":"First answer."},
                    {"type":"reasoning","summary":[{"type":"summary_text","text":"second thought"}]},
                    {"type":"message","role":"assistant","content":"Second answer."},
                    {"type":"message","role":"user","content":"Continue"}
                ]
            }"#.to_vec(),
        "p",
        false,
    );
    let value: Value = serde_json::from_slice(&body).expect("json");
    let messages = value["messages"].as_array().expect("messages");

    assert_eq!(messages[0]["reasoning_content"], "first thought");
    assert_eq!(messages[1]["reasoning_content"], "second thought");
    assert!(messages[2].get("reasoning_content").is_none());
}

#[test]
fn preserves_object_and_detail_array_reasoning_fields() {
    let body = converted_body(
        br#"{
                "input":[
                    {"type":"message","role":"assistant","content":"First","reasoning":{"summary":"object thought"}},
                    {"type":"message","role":"assistant","content":"Second","reasoning_details":[{"type":"reasoning.text","text":"detail thought"}]}
                ]
            }"#.to_vec(),
        "p",
        false,
    );
    let value: Value = serde_json::from_slice(&body).expect("json");
    let messages = value["messages"].as_array().expect("messages");

    assert_eq!(messages[0]["reasoning_content"], "object thought");
    assert_eq!(messages[1]["reasoning_content"], "detail thought");
}

#[test]
fn keeps_reasoning_with_tool_calls_and_the_final_answer() {
    let body = converted_body(
        br#"{
                "model":"thinking-model",
                "input":[
                    {"type":"reasoning","summary":[{"type":"summary_text","text":"need a tool"}]},
                    {"type":"function_call","call_id":"call_1","name":"lookup","arguments":"{}"},
                    {"type":"function_call_output","call_id":"call_1","output":"result"},
                    {"type":"reasoning","summary":[{"type":"summary_text","text":"now answer"}]},
                    {"type":"message","role":"assistant","content":"Done."}
                ]
            }"#.to_vec(),
        "p",
        false,
    );
    let value: Value = serde_json::from_slice(&body).expect("json");
    let messages = value["messages"].as_array().expect("messages");

    assert_eq!(messages[0]["reasoning_content"], "need a tool");
    assert_eq!(messages[0]["tool_calls"][0]["id"], "call_1");
    assert_eq!(messages[1]["role"], "tool");
    assert_eq!(messages[2]["reasoning_content"], "now answer");
}

#[test]
fn appends_trailing_reasoning_before_a_user_turn_boundary() {
    let body = converted_body(
        br#"{
                "input":[
                    {"type":"message","role":"assistant","content":"Done.","reasoning_content":"embedded"},
                    {"type":"reasoning","summary":[{"type":"summary_text","text":"trailing"}]},
                    {"type":"message","role":"user","content":"Continue"}
                ]
            }"#.to_vec(),
        "p",
        false,
    );
    let value: Value = serde_json::from_slice(&body).expect("json");
    let messages = value["messages"].as_array().expect("messages");

    assert_eq!(messages[0]["reasoning_content"], "embedded\n\ntrailing");
    assert!(messages[1].get("reasoning_content").is_none());
}

#[test]
fn forwards_tool_result_images_as_native_chat_media() {
    let body = converted_body(
        br#"{
                "model":"gpt-5.6-sol",
                "input":[
                    {"type":"function_call","call_id":"call_image","name":"view_image","arguments":"{}"},
                    {"type":"function_call_output","call_id":"call_image","output":[
                        {"type":"image","mimeType":"image/png","data":"aGVsbG8="},
                        {"type":"text","text":"preview ready"}
                    ]}
                ]
            }"#.to_vec(),
        "p",
        false,
    );
    let value: Value = serde_json::from_slice(&body).expect("json");
    let messages = value["messages"].as_array().expect("messages");

    assert_eq!(messages[1]["role"], "tool");
    assert!(!messages[1]["content"]
        .as_str()
        .expect("tool content")
        .contains("aGVsbG8="));
    assert_eq!(messages[2]["role"], "user");
    assert_eq!(
        messages[2].pointer("/content/1/image_url/url"),
        Some(&Value::String("data:image/png;base64,aGVsbG8=".to_string()))
    );
}

#[test]
fn flushes_parallel_tool_media_after_the_complete_tool_batch() {
    let body = converted_body(
        br#"{
                "input":[
                    {"type":"function_call","call_id":"call_1","name":"first","arguments":"{}"},
                    {"type":"function_call","call_id":"call_2","name":"second","arguments":"{}"},
                    {"type":"function_call_output","call_id":"call_1","output":{"type":"image","mimeType":"image/png","data":"aGVsbG8="}},
                    {"type":"function_call_output","call_id":"call_2","output":"done"},
                    {"type":"message","role":"user","content":"continue"}
                ]
            }"#.to_vec(),
        "p",
        false,
    );
    let value: Value = serde_json::from_slice(&body).expect("json");
    let messages = value["messages"].as_array().expect("messages");

    assert_eq!(messages[0]["role"], "assistant");
    assert_eq!(messages[0]["tool_calls"].as_array().map(Vec::len), Some(2));
    assert_eq!(messages[1]["role"], "tool");
    assert_eq!(messages[2]["role"], "tool");
    assert_eq!(messages[3]["role"], "user");
    assert_eq!(messages[3]["content"][1]["type"], "image_url");
    assert_eq!(messages[4]["role"], "user");
    assert_eq!(messages[4]["content"], "continue");
}

#[test]
fn collects_additional_tools_from_top_level_input_and_overrides() {
    let (body, context) = converted_with_tools(
        br#"{
                "model":"gpt-5.4",
                "additional_tools":[
                    {"type":"custom","name":"top_level_tool"}
                ],
                "input":{
                    "type":"message",
                    "role":"user",
                    "content":"use tools",
                    "additional_tools":[
                        {"type":"namespace","name":"github","tools":[
                            {"type":"function","name":"search_issues","parameters":{"type":"object"}}
                        ]}
                    ]
                },
                "override":{
                    "additional_tools":[
                        {"type":"function","name":"override_tool","parameters":{"type":"object"}}
                    ]
                },
                "overrides":[{
                    "additional_tools":[{"type":"tool_search"}]
                }],
                "tool_choice":{"type":"function","name":"search_issues","namespace":"github"}
            }"#.to_vec(),
        "p",
        false,
    );
    let value: Value = serde_json::from_slice(&body).expect("json");
    let tool_names = value["tools"]
        .as_array()
        .expect("tools")
        .iter()
        .filter_map(|tool| tool.pointer("/function/name").and_then(Value::as_str))
        .collect::<Vec<_>>();

    assert_eq!(
        tool_names,
        vec![
            "top_level_tool",
            "github__search_issues",
            "override_tool",
            "tool_search"
        ]
    );
    assert_eq!(
        value.pointer("/tool_choice/function/name"),
        Some(&Value::String("github__search_issues".to_string()))
    );
    assert_eq!(
        value.pointer("/messages/0/content"),
        Some(&Value::String("use tools".to_string()))
    );
    assert_eq!(
        context
            .lookup("github__search_issues")
            .map(|tool| tool.spec.kind),
        Some(ChatToolKind::Namespace)
    );
}

#[test]
fn a_body_that_is_not_json_is_left_as_it_is() {
    assert_eq!(converted_body(b"plain".to_vec(), "p", false), b"plain");
    assert_eq!(converted_body(b"[1]".to_vec(), "p", false), b"[1]");
}

#[test]
fn a_request_without_input_still_has_a_message() {
    let body = converted_body(br#"{"parallel_tool_calls":true}"#.to_vec(), "p", false);
    let value: Value = serde_json::from_slice(&body).expect("json");
    assert_eq!(value["messages"].as_array().map(Vec::len), Some(1));
    assert_eq!(value["messages"][0]["role"], "user");
    assert_eq!(value["messages"][0]["content"], "");
    assert!(value.get("tools").is_none());
    assert!(value.get("parallel_tool_calls").is_none());
}

#[test]
fn a_streaming_request_asks_for_usage() {
    let body = converted_body(br#"{"input":"x","stream":true}"#.to_vec(), "p", false);
    let value: Value = serde_json::from_slice(&body).expect("json");
    assert_eq!(value["stream_options"]["include_usage"], true);
}
