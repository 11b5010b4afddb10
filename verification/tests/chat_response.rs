use codex_companion_relay::api_service::read_stored_history;
use codex_companion_relay::chat_request::{convert_request, responses_body_to_chat_completions};
use codex_companion_relay::chat_response::{
    chat_json_to_responses_json, chat_usage_to_responses_usage, non_stream_chat_history,
    response_id_from_chat_id, stable_response_id,
};
use codex_companion_relay::digest::hex_text;
use codex_companion_relay::history::{chat_history_key, ChatHistoryEntry, ChatHistoryStore};
use codex_companion_relay::json::{parse_json, render_json, Json};
use codex_companion_relay::tools::{ChatToolContext, ChatToolKind};
use serde_json::Value;

fn json(text: &str) -> Json {
    parse_json(text.as_bytes()).expect("json")
}

fn value_of(json: &Json) -> Value {
    serde_json::from_str(&render_json(json)).expect("json")
}

#[test]
fn restores_custom_tool_search_and_namespace_calls_from_chat_response() {
    let request = json(
        r#"{
            "tools": [
                {"type":"custom","name":"apply_patch"},
                {"type":"tool_search"},
                {"type":"namespace","name":"github","tools":[
                    {"type":"function","name":"search_issues","parameters":{"type":"object"}}
                ]}
            ]
        }"#,
    );
    let context = ChatToolContext::from_request(&request);
    let response = value_of(&chat_json_to_responses_json(
        &json(
            r#"{
                "id": "chatcmpl_tools",
                "model": "gpt-5.4",
                "choices": [{
                    "message": {
                        "role": "assistant",
                        "content": null,
                        "tool_calls": [
                            {
                                "id": "call_custom",
                                "type": "function",
                                "function": {"name":"apply_patch","arguments":"{\"input\":\"patch text\"}"}
                            },
                            {
                                "id": "call_search",
                                "type": "function",
                                "function": {"name":"tool_search","arguments":"{\"query\":\"gmail\",\"limit\":5}"}
                            },
                            {
                                "id": "call_ns",
                                "type": "function",
                                "function": {"name":"github__search_issues","arguments":"{\"q\":\"bug\"}"}
                            }
                        ]
                    }
                }]
            }"#,
        ),
        &context,
    ));

    assert_eq!(response["output"][0]["type"], "custom_tool_call");
    assert_eq!(response["output"][0]["input"], "patch text");
    assert_eq!(response["output"][1]["type"], "tool_search_call");
    assert_eq!(response["output"][1]["arguments"]["query"], "gmail");
    assert_eq!(response["output"][2]["type"], "function_call");
    assert_eq!(response["output"][2]["name"], "search_issues");
    assert_eq!(response["output"][2]["namespace"], "github");
}

#[test]
fn restores_previous_response_history_for_tool_result_follow_up() {
    let provider_id = "history-provider";
    let mut history = ChatHistoryStore::new();
    let first = responses_body_to_chat_completions(
        br#"{
            "model":"gpt-5.4",
            "tools":[{"type":"custom","name":"apply_patch"}],
            "input":"fix it"
        }"#
        .to_vec(),
        provider_id,
        false,
        &history,
    );
    let first_request: Value = serde_json::from_slice(&first.body).expect("json");
    assert_eq!(first_request["messages"][0]["content"], "fix it");

    let chat_response = json(
        r#"{
            "id": "chatcmpl_history",
            "model": "gpt-5.4",
            "choices": [{
                "message": {
                    "role": "assistant",
                    "content": null,
                    "tool_calls": [{
                        "id": "call_patch",
                        "type": "function",
                        "function": {
                            "name": "apply_patch",
                            "arguments": "{\"input\":\"patch\"}"
                        }
                    }]
                }
            }]
        }"#,
    );
    let converted = chat_json_to_responses_json(&chat_response, &first.tool_context);
    let (response_id, entry) =
        non_stream_chat_history(&converted, &chat_response, &first.tool_context, &first.messages)
            .expect("a conversation");
    history.store_chat_history(provider_id, &response_id, entry);

    let follow_up = responses_body_to_chat_completions(
        br#"{
            "model":"gpt-5.4",
            "previous_response_id":"resp_chatcmpl_history",
            "input":[{
                "type":"custom_tool_call_output",
                "call_id":"call_patch",
                "output":"ok"
            }]
        }"#
        .to_vec(),
        provider_id,
        false,
        &history,
    );
    let body: Value = serde_json::from_slice(&follow_up.body).expect("json");

    assert_eq!(body["messages"][0]["content"], "fix it");
    assert_eq!(
        body.pointer("/messages/1/tool_calls/0/function/name"),
        Some(&Value::String("apply_patch".to_string()))
    );
    assert_eq!(body["messages"][2]["role"], "tool");
    assert_eq!(
        follow_up
            .tool_context
            .lookup("apply_patch")
            .map(|tool| tool.spec.kind),
        Some(ChatToolKind::Custom)
    );
}

#[test]
fn restores_previous_response_history_from_sqlite_after_memory_cache_is_cleared() {
    let database = rusqlite::Connection::open_in_memory().expect("database");
    database
        .execute_batch("CREATE TABLE chat_history (key TEXT PRIMARY KEY, messages TEXT, tools TEXT)")
        .expect("table");
    let provider_id = "persistent-history-provider";
    let first = responses_body_to_chat_completions(
        br#"{
            "model":"gpt-5.4",
            "tools":[{"type":"custom","name":"apply_patch"}],
            "input":"persist this context"
        }"#
        .to_vec(),
        provider_id,
        false,
        &ChatHistoryStore::new(),
    );
    let first_request: Value = serde_json::from_slice(&first.body).expect("first request");
    assert_eq!(
        first_request["messages"][0]["content"],
        "persist this context"
    );

    let chat_response = json(
        r#"{
            "id": "chatcmpl_persisted",
            "model": "gpt-5.4",
            "choices": [{
                "message": {
                    "role": "assistant",
                    "content": null,
                    "tool_calls": [{
                        "id": "call_persisted",
                        "type": "function",
                        "function": {
                            "name": "apply_patch",
                            "arguments": "{\"input\":\"patch\"}"
                        }
                    }]
                }
            }]
        }"#,
    );
    let converted = chat_json_to_responses_json(&chat_response, &first.tool_context);
    let (response_id, entry) =
        non_stream_chat_history(&converted, &chat_response, &first.tool_context, &first.messages)
            .expect("a conversation");
    assert_eq!(response_id, "resp_chatcmpl_persisted");
    let (stored_messages, stored_tools) = entry.to_stored();
    database
        .execute(
            "INSERT INTO chat_history (key, messages, tools) VALUES (?1, ?2, ?3)",
            (
                chat_history_key(provider_id, &response_id),
                stored_messages,
                stored_tools,
            ),
        )
        .expect("insert");

    let (messages, tools): (String, String) = database
        .query_row(
            "SELECT messages, tools FROM chat_history WHERE key = ?1",
            (chat_history_key(provider_id, "resp_chatcmpl_persisted"),),
            |row| Ok((row.get(0)?, row.get(1)?)),
        )
        .expect("stored");
    let (messages, tools) = read_stored_history(&messages, &tools).expect("history");
    let entry = ChatHistoryEntry::from_persisted(&messages, &tools).expect("entry");
    let follow_up = convert_request(
        &json(
            r#"{
                "model":"gpt-5.4",
                "previous_response_id":"resp_chatcmpl_persisted",
                "input":[{
                    "type":"custom_tool_call_output",
                    "call_id":"call_persisted",
                    "output":"ok"
                }]
            }"#,
        ),
        Some(&entry),
        false,
    );
    let body: Value = serde_json::from_slice(&follow_up.body).expect("follow-up");

    assert_eq!(body["messages"][0]["content"], "persist this context");
    assert_eq!(
        body.pointer("/messages/1/tool_calls/0/function/name"),
        Some(&Value::String("apply_patch".to_string()))
    );
    assert_eq!(body["messages"][2]["role"], "tool");
    assert_eq!(
        follow_up
            .tool_context
            .lookup("apply_patch")
            .map(|tool| tool.spec.kind),
        Some(ChatToolKind::Custom)
    );
}

#[test]
fn missing_chat_response_id_uses_stable_semantic_hash() {
    let response = json(
        r#"{"model":"gpt-test","choices":[{"message":{"role":"assistant","content":"same"}}]}"#,
    );
    let first = value_of(&chat_json_to_responses_json(&response, &ChatToolContext::new()));
    let second = value_of(&chat_json_to_responses_json(&response, &ChatToolContext::new()));
    let first_id = first.get("id").and_then(Value::as_str).expect("first id");
    assert_eq!(second.get("id").and_then(Value::as_str), Some(first_id));
    assert!(first_id.starts_with("resp_cc_"));
}

#[test]
fn usage_is_renamed_and_added_up() {
    let usage = value_of(&chat_usage_to_responses_usage(Some(&json(
        r#"{"prompt_tokens":12,"completion_tokens":3}"#,
    ))));
    assert_eq!(usage["input_tokens"], 12);
    assert_eq!(usage["output_tokens"], 3);
    assert_eq!(usage["total_tokens"], 15);
}

#[test]
fn ids_of_responses_have_a_prefix() {
    assert_eq!(response_id_from_chat_id("chatcmpl_1"), "resp_chatcmpl_1");
    let first = stable_response_id(&json(r#"{"a":1}"#));
    assert_eq!(first, stable_response_id(&json(r#"{"a":1}"#)));
    assert_ne!(first, stable_response_id(&json(r#"{"a":2}"#)));
}

#[test]
fn bytes_are_written_in_hexadecimal() {
    assert_eq!(hex_text(&[0x00, 0x0f, 0xa5, 0xff]), "000fa5ff");
}

#[test]
fn tools_survive_being_stored() {
    let context = ChatToolContext::from_request(&json(
        r#"{"tools":[{"type":"custom","name":"apply_patch"},{"type":"tool_search"}]}"#,
    ));
    let restored = ChatToolContext::from_persisted(&context.to_persisted());
    assert_eq!(restored.tools.len(), 2);
    assert_eq!(
        restored.lookup("apply_patch").map(|tool| tool.spec.kind),
        Some(ChatToolKind::Custom)
    );
    assert_eq!(
        restored.lookup("tool_search").map(|tool| tool.spec.kind),
        Some(ChatToolKind::ToolSearch)
    );
}

#[test]
fn history_is_bounded_and_kept_apart_by_provider() {
    let mut history = ChatHistoryStore::new();
    for index in 0..300 {
        history.store_chat_history(
            "p",
            &format!("resp_{index}"),
            ChatHistoryEntry {
                messages: Vec::new(),
                tool_context: ChatToolContext::new(),
            },
        );
    }
    assert!(history.load_chat_history("p", "resp_299").is_some());
    assert!(history.load_chat_history("p", "resp_0").is_none());
    assert!(history.load_chat_history("q", "resp_299").is_none());
}

#[test]
fn conversations_survive_storage() {
    let context = ChatToolContext::from_request(&json(
        r#"{"tools":[{"type":"custom","name":"apply_patch"},{"type":"function","name":"f","parameters":{"type":"object"}}]}"#,
    ));
    let entry = ChatHistoryEntry {
        messages: vec![json(r#"{"role":"user","content":"hello"}"#)],
        tool_context: context,
    };
    let (messages, tools) = entry.to_stored();
    let (messages, tools) = read_stored_history(&messages, &tools).expect("readable");
    let restored = ChatHistoryEntry::from_persisted(&messages, &tools).expect("entry");
    assert_eq!(restored.to_stored(), entry.to_stored());
    assert_eq!(restored.tool_context.tools[1].spec.name, "f");
}
