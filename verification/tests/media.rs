use codex_companion_relay::json::{parse_json, render_json, Json};
use codex_companion_relay::media::{
    supported_tool_image_url, tool_output_content_and_media, BASE64ISH_MIN_BYTES,
};
use codex_companion_relay::reasoning::append_pending_reasoning;
use codex_companion_relay::tool_names::{flatten_namespace_tool_name, stable_short_hash};
use serde_json::Value;

fn json(text: &str) -> Json {
    parse_json(text.as_bytes()).expect("json")
}

fn value_of(json: &Json) -> Value {
    serde_json::from_str(&render_json(json)).expect("json")
}

fn content_and_media(value: &Json) -> (String, Vec<Value>) {
    let (content, media) = tool_output_content_and_media(value);
    (content, media.iter().map(value_of).collect())
}

#[test]
fn forwards_json_encoded_and_remote_tool_result_images() {
    let output = r#"{"content":[{"type":"input_image","image_url":{"url":"https://example.com/preview.png","detail":"high"}}]}"#;
    let (content, media) = content_and_media(&Json::Text(output.to_string()));

    assert!(!content.contains("https://example.com/preview.png"));
    assert_eq!(media.len(), 1);
    assert_eq!(
        media[0].pointer("/image_url/url"),
        Some(&Value::String(
            "https://example.com/preview.png".to_string()
        ))
    );
    assert_eq!(
        media[0].pointer("/image_url/detail"),
        Some(&Value::String("high".to_string()))
    );
}

#[test]
fn forwards_large_whole_string_tool_image_data_url() {
    let data_url = format!("data:image/png;base64,{}", "aGVsbG8=".repeat(1_100));
    let (content, media) = content_and_media(&Json::Text(data_url.clone()));

    assert_eq!(content, "[image attached separately]");
    assert_eq!(
        media[0].pointer("/image_url/url").and_then(Value::as_str),
        Some(data_url.as_str())
    );
}

#[test]
fn media_tool_outputs_clamp_residual_base64_but_text_only_outputs_are_stable() {
    let text_only = r#"{ "content": [{"type":"text","text":"ordinary result"}] }"#;
    let (content, media) = content_and_media(&Json::Text(text_only.to_string()));
    assert_eq!(content, text_only);
    assert!(media.is_empty());

    let bare_base64 = "A".repeat(BASE64ISH_MIN_BYTES);
    let (content, media) = content_and_media(&Json::Text(bare_base64.clone()));
    assert_eq!(content, bare_base64);
    assert!(media.is_empty());

    let (content, media) = content_and_media(&json(&format!(
        r#"{{"content":[{{"type":"image","mimeType":"image/png","data":"aGVsbG8="}},{{"type":"text","text":"caption"}}],"raw":"{}"}}"#,
        "A".repeat(BASE64ISH_MIN_BYTES)
    )));
    assert_eq!(media.len(), 1);
    assert!(content.contains("omitted"));
    assert!(!content.contains(&"A".repeat(BASE64ISH_MIN_BYTES)));
}

#[test]
fn forwards_anthropic_shaped_tool_images() {
    let (content, media) = content_and_media(&json(
        r#"{"content":[{"type":"image","source":{"type":"base64","media_type":"image/jpeg","data":"YWJj"}}]}"#,
    ));

    assert!(!content.contains("YWJj"));
    assert_eq!(
        media[0].pointer("/image_url/url"),
        Some(&Value::String("data:image/jpeg;base64,YWJj".to_string()))
    );
}

#[test]
fn images_come_from_the_web_or_inline() {
    assert!(supported_tool_image_url("https://example.com/a.png"));
    assert!(supported_tool_image_url("data:image/png;base64,AA=="));
    assert!(!supported_tool_image_url("file:///tmp/a.png"));
}

#[test]
fn reasoning_that_waits_is_joined() {
    let mut pending = None;
    append_pending_reasoning(&mut pending, Some("first".to_string()));
    append_pending_reasoning(&mut pending, None);
    append_pending_reasoning(&mut pending, Some("second".to_string()));
    assert_eq!(pending.as_deref(), Some("first\n\nsecond"));
}

#[test]
fn long_tool_names_are_cut_and_hashed() {
    assert_eq!(flatten_namespace_tool_name("github", "search"), "github__search");
    let long = flatten_namespace_tool_name(&"n".repeat(40), &"t".repeat(40));
    assert_eq!(long.len(), 64);
    let whole = format!("{}__{}", "n".repeat(40), "t".repeat(40));
    assert!(long.ends_with(&format!("__{:08x}", stable_short_hash(&whole))));
    assert_eq!(stable_short_hash(""), 2166136261);
    assert_eq!(stable_short_hash("a"), 0xe40c292c);
}
