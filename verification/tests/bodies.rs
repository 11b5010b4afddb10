use codex_companion_relay::content_encoding::{
    bounded_bytes, comma_words, decode_one, decode_request_body, read_bounded,
    RequestBodyDecodeError,
};
use codex_companion_relay::headers::{contains_header, HeaderField};
use codex_companion_relay::json::{parse_json, render_json, Json};
use codex_companion_relay::limits::{
    append_limited_error_response_chunk, append_limited_success_response_chunk_with_limit,
    append_omitted_error_response_marker, display_byte_limit, success_response_too_large_message,
    MAX_UPSTREAM_ERROR_RESPONSE_BYTES,
};
use codex_companion_relay::model_catalog::{
    adapt_codex_model_catalog, can_merge, listed_slugs, merge_codex_catalogs, with_repaired_models,
};
use codex_companion_relay::moderation::{
    content_type, frames, payload, request_wants_stream, AnswerTime,
};
use codex_companion_relay::usage_capture::{capture_mode, UsageCapture};
use flate2::write::{DeflateEncoder, GzEncoder, ZlibEncoder};
use flate2::Compression;
use serde_json::Value;
use std::io::{Cursor, Write};

fn header(name: &str, value: &str) -> HeaderField {
    HeaderField {
        name: name.to_string(),
        value: Some(value.to_string()),
    }
}

fn json(text: &str) -> Json {
    parse_json(text.as_bytes()).expect("json")
}

fn value_of(json: &Json) -> Value {
    serde_json::from_str(&render_json(json)).expect("json")
}

#[test]
fn decodes_stacked_gzip_then_zstd_and_clears_entity_headers() {
    let payload = br#"{"model":"gpt-test","input":"hello"}"#;
    let mut gzip = GzEncoder::new(Vec::new(), Compression::default());
    gzip.write_all(payload).expect("gzip write");
    let gzip = gzip.finish().expect("gzip finish");
    let encoded = zstd::stream::encode_all(Cursor::new(gzip), 0).expect("zstd encode");
    let mut headers = vec![
        header("content-encoding", "gzip, zstd"),
        header("content-length", "123"),
    ];

    let decoded = decode_request_body(&mut headers, encoded, 1024).expect("decode request");

    assert_eq!(&decoded[..], payload);
    assert!(!contains_header(&headers, "content-encoding"));
    assert!(!contains_header(&headers, "content-length"));
}

#[test]
fn rejects_decompressed_bodies_over_the_limit() {
    let encoded = zstd::stream::encode_all(Cursor::new(vec![b'x'; 2048]), 0).expect("zstd encode");
    let mut headers = vec![header("content-encoding", "zstd")];

    let error = decode_request_body(&mut headers, encoded, 1024)
        .expect_err("body should exceed decoded limit");

    assert!(matches!(
        error,
        RequestBodyDecodeError::TooLarge { limit: 1024 }
    ));
}

#[test]
fn rejects_unknown_content_encoding() {
    let mut headers = vec![header("content-encoding", "snappy")];

    let error = decode_request_body(&mut headers, b"payload".to_vec(), 1024)
        .expect_err("encoding should be rejected");

    assert!(matches!(
        error,
        RequestBodyDecodeError::UnsupportedEncoding(encoding) if encoding == "snappy"
    ));
    assert!(contains_header(&headers, "content-encoding"));
}

#[test]
fn every_encoding_is_undone() {
    let payload = b"some text that is compressed";
    let mut zlib = ZlibEncoder::new(Vec::new(), Compression::default());
    zlib.write_all(payload).expect("write");
    let zlib = zlib.finish().expect("finish");
    assert_eq!(decode_one("deflate", &zlib, 1024).expect("zlib"), payload);
    let mut raw = DeflateEncoder::new(Vec::new(), Compression::default());
    raw.write_all(payload).expect("write");
    let raw = raw.finish().expect("finish");
    assert_eq!(decode_one("Deflate", &raw, 1024).expect("raw"), payload);
    let mut gzip = GzEncoder::new(Vec::new(), Compression::default());
    gzip.write_all(payload).expect("write");
    let gzip = gzip.finish().expect("finish");
    assert_eq!(decode_one("x-gzip", &gzip, 1024).expect("gzip"), payload);
    let mut brotli_bytes = Vec::new();
    brotli::CompressorWriter::new(&mut brotli_bytes, 4096, 5, 22)
        .write_all(payload)
        .expect("write");
    assert_eq!(decode_one("br", &brotli_bytes, 1024).expect("brotli"), payload);
    let zstd_bytes = zstd::stream::encode_all(Cursor::new(payload), 0).expect("encode");
    assert_eq!(decode_one("zst", &zstd_bytes, 1024).expect("zstd"), payload);
    assert_eq!(decode_one("IDENTITY", payload, 1024).expect("identity"), payload);
    for encoding in ["gzip", "deflate", "br", "zstd"] {
        assert!(matches!(
            decode_one(encoding, b"\xff\xff\xff\xff\xff\xff\xff\xff", 1024),
            Err(RequestBodyDecodeError::InvalidEncoding { .. })
        ));
    }
    assert!(matches!(
        decode_one("gzip", &gzip, payload.len() - 1),
        Err(RequestBodyDecodeError::TooLarge { .. })
    ));
    assert!(decode_one("gzip", &gzip, payload.len()).is_ok());
}

#[test]
fn bodies_within_the_limit_are_kept() {
    assert_eq!(bounded_bytes(b"abc", 3).expect("fits"), b"abc");
    assert!(bounded_bytes(b"abc", 2).is_err());
    assert_eq!(
        read_bounded(Ok(b"abc".to_vec()), "gzip", 3).expect("fits"),
        b"abc"
    );
    let error = read_bounded(Err("broken".to_string()), "gzip", 3).expect_err("broken");
    assert_eq!(
        error.message_text(),
        "failed to decode request body as gzip: broken"
    );
    let error = read_bounded(Ok(vec![0; 4]), "gzip", 3).expect_err("long");
    assert_eq!(
        error.message_text(),
        "decompressed request body exceeds the local 0 MiB limit"
    );
    assert_eq!(
        RequestBodyDecodeError::UnsupportedEncoding("x".to_string()).message_text(),
        "unsupported request content-encoding: x"
    );
    assert_eq!(comma_words(" gzip , ,zstd,"), vec!["gzip", "zstd"]);
}

#[test]
fn a_plain_body_stays_as_it_is() {
    let mut headers = vec![header("content-length", "3"), header("content-encoding", " ")];
    let body = decode_request_body(&mut headers, b"abc".to_vec(), 1).expect("plain");
    assert_eq!(body, b"abc");
    assert!(contains_header(&headers, "content-length"));
}

#[test]
fn bodies_of_errors_are_cut() {
    let mut body = b"provider failed: ".to_vec();
    let long = vec![b'x'; MAX_UPSTREAM_ERROR_RESPONSE_BYTES + 1];
    assert!(append_limited_error_response_chunk(&mut body, &long));
    assert!(body.starts_with(b"provider failed: "));
    assert!(body.len() <= MAX_UPSTREAM_ERROR_RESPONSE_BYTES);
    let mut small = Vec::new();
    assert!(!append_limited_error_response_chunk(&mut small, b"busy"));
    assert_eq!(small, b"busy");
    append_omitted_error_response_marker(&mut small);
    assert!(small.len() > 4);
}

#[test]
fn bodies_of_successes_are_bounded() {
    let mut body = Vec::new();
    assert!(
        append_limited_success_response_chunk_with_limit(&mut body, &[b'x'; 1024], 1024).is_ok()
    );
    let error = append_limited_success_response_chunk_with_limit(&mut body, b"x", 1024)
        .expect_err("over the limit");
    assert!(error.contains("1 KiB"));
    assert_eq!(error, success_response_too_large_message(1024));
    assert_eq!(display_byte_limit(16), "16 字节");
    assert_eq!(display_byte_limit(8 * 1024 * 1024), "8 MiB");
}

const TEMPLATE: &str = r#"{"slug":"","shell_type":"local","visibility":"list","supported_in_api":true,"base_instructions":"","truncation_policy":{"mode":"bytes"},"multi_agent_version":2,"supported_reasoning_levels":[{"effort":"low"},{"effort":"ultra"}]}"#;

fn adapted(text: &str) -> Json {
    adapt_codex_model_catalog(json(text), &json(TEMPLATE), &vec!["gpt-6-sol".to_string()])
}

#[test]
fn group_catalog_keeps_models_across_provider_order_changes() {
    let sol = r#"{"data":[{"id":"gpt-6-sol"},{"id":"gpt-5.6-sol"}]}"#;
    let luna = r#"{"data":[{"id":"gpt-6-luna"},{"id":"gpt-5.6-sol"}]}"#;
    let ultra = vec!["gpt-6-sol".to_string()];
    let template = json(TEMPLATE);
    let first = value_of(&merge_codex_catalogs(json(sol), &vec![json(luna)], &template, &ultra));
    let second = value_of(&merge_codex_catalogs(json(luna), &vec![json(sol)], &template, &ultra));
    assert_eq!(first["models"], second["models"]);
    assert_eq!(first["models"].as_array().map(Vec::len), Some(3));
    assert_eq!(first["models"][0]["slug"], "gpt-6-sol");
    assert_eq!(first["models"][1]["slug"], "gpt-6-luna");
    assert_eq!(first["models"][2]["slug"], "gpt-5.6-sol");
    for index in 0..3 {
        assert_eq!(first["models"][index]["priority"], index);
    }
    let again = value_of(&merge_codex_catalogs(
        adapted(sol),
        &vec![adapted(luna)],
        &template,
        &ultra,
    ));
    assert_eq!(again, first);
}

#[test]
fn repaired_models_replace_those_of_a_catalog() {
    let repaired = || vec![json(r#"{"slug":"a","fixed":true}"#)];
    let catalog = value_of(&with_repaired_models(
        json(r#"{"models":[{"slug":"a"}],"etag":"x"}"#),
        repaired(),
    ));
    assert_eq!(catalog["models"][0]["fixed"], true);
    assert_eq!(catalog["etag"], "x");
    let plain = value_of(&with_repaired_models(json(r#"{"etag":"x"}"#), repaired()));
    assert!(plain.get("models").is_none());
}

#[test]
fn adds_native_schema_without_losing_standard_api_list() {
    let value = value_of(&adapted(
        r#"{"data":[{"id":"my-model"},{"id":""},{"other":true}]}"#,
    ));
    let original: Value =
        serde_json::from_str(r#"[{"id":"my-model"},{"id":""},{"other":true}]"#).expect("json");
    assert_eq!(value["data"], original);
    assert_eq!(value["models"].as_array().map(Vec::len), Some(1));
    assert_eq!(value["models"][0]["slug"], "my-model");
    for required in [
        "shell_type",
        "visibility",
        "supported_in_api",
        "base_instructions",
        "truncation_policy",
    ] {
        assert!(value["models"][0].get(required).is_some());
    }
}

#[test]
fn native_catalog_is_unchanged_including_empty_catalog() {
    for text in [
        r#"{"models":[],"data":[{"id":"excluded"}]}"#,
        r#"{"models":[{"slug":"native","custom":true}]}"#,
    ] {
        let before: Value = serde_json::from_str(text).expect("json");
        assert_eq!(value_of(&adapted(text)), before);
    }
}

#[test]
fn only_known_models_take_the_greatest_effort() {
    let value = value_of(&adapted(r#"{"data":[{"id":"gpt-6-sol"},{"id":"plain"}]}"#));
    let levels = |index: usize| {
        value["models"][index]["supported_reasoning_levels"]
            .as_array()
            .map(Vec::len)
    };
    assert_eq!(levels(0), Some(2));
    assert_eq!(levels(1), Some(1));
    assert!(value["models"][0].get("multi_agent_version").is_some());
    assert!(value["models"][1].get("multi_agent_version").is_none());
    assert!(!can_merge(&json(r#"{"models":["text"]}"#)));
    assert!(can_merge(&json(r#"{"models":[null,{}]}"#)));
    assert_eq!(listed_slugs(&json(r#"{"data":[{"id":" a "}]}"#)), vec!["a"]);
}

const TIME: AnswerTime = AnswerTime {
    micros: 1_700_000_000_000_001,
    seconds: 1_700_000_000,
};

#[test]
fn notice_is_terminal_with_zero_usage_and_ordered_frames() {
    let events: Vec<Value> = frames(Some("fixture-model"), TIME)
        .iter()
        .map(value_of)
        .collect();
    for (index, event) in events.iter().enumerate() {
        assert_eq!(event["sequence_number"], index);
    }
    assert_eq!(events.last().unwrap()["response"]["status"], "completed");
    assert_eq!(
        events.last().unwrap()["response"]["usage"]["total_tokens"],
        0
    );
    assert!(
        events.last().unwrap()["response"]["output"][0]["content"][0]["text"]
            .as_str()
            .unwrap()
            .contains("审核拦截")
    );
}

#[test]
fn the_notice_has_the_form_that_was_asked_for() {
    let plain: Value =
        serde_json::from_str(&payload("/v1/responses", false, None, TIME)).expect("json");
    assert_eq!(plain["id"], "resp_moderation_1700000000000001");
    assert_eq!(plain["created_at"], 1_700_000_000);
    assert_eq!(plain["model"], Value::Null);
    let chat: Value =
        serde_json::from_str(&payload("/v1/chat/completions", false, Some("m"), TIME))
            .expect("json");
    assert_eq!(chat["id"], "chatcmpl_moderation_1700000000000001");
    assert_eq!(chat["choices"][0]["finish_reason"], "stop");
    let stream = payload("/v1/chat/completions", true, Some("m"), TIME);
    assert!(stream.starts_with("data: {"));
    assert!(stream.ends_with("data: [DONE]\n\n"));
    assert_eq!(stream.matches("chat.completion.chunk").count(), 2);
    let events = payload("/v1/responses", true, Some("m"), TIME);
    assert!(events.starts_with("event: response.created\ndata: {"));
    assert_eq!(events.matches("\n\n").count(), 6);
    assert!(request_wants_stream(br#"{"stream":true}"#));
    assert!(!request_wants_stream(br#"{"stream":"true"}"#));
    assert!(!request_wants_stream(b""));
    assert_eq!(content_type(true), "text/event-stream");
    assert_eq!(content_type(false), "application/json");
}

#[test]
fn fragmented_sse_and_json_record_only_terminal_token_counters() {
    for ending in [None, Some("\r\n\r\n"), Some("\r\r"), Some("")] {
        let sse = ending.is_some();
        let mut capture = UsageCapture::new(sse);
        let json = r#"{"type":"response.completed","response":{"status":"completed","output":[{"text":"private response"}],"usage":{"input_tokens":100,"output_tokens":20,"input_tokens_details":{"cached_tokens":80}}}}"#;
        let data = if sse {
            format!(
                "event: response.completed\r\ndata: {json}{}",
                ending.unwrap()
            )
        } else {
            json.into()
        };
        for bytes in data.as_bytes().chunks(7) {
            capture.push(bytes);
        }
        capture.finish();
        assert!(capture.is_done());
        let found = value_of(&capture.take_found().expect("counts"));
        assert_eq!(found["response"]["usage"]["input_tokens"], 100);
        assert_eq!(found["response"]["usage"]["output_tokens"], 20);
        assert!(capture.take_found().is_none());
    }
}

#[test]
fn counts_of_unfinished_responses_are_not_kept() {
    let mut capture = UsageCapture::new(true);
    capture.push(b"data: {\"type\":\"response.output_text.delta\",\"delta\":\"hello\"}\n\n");
    capture.finish();
    assert!(!capture.is_done());
    assert!(capture.take_found().is_none());
    let mut broken = UsageCapture::new(false);
    broken.push(b"{\"status\":");
    broken.give_up();
    broken.push(b"\"completed\"}");
    assert!(broken.take_found().is_none());
}

#[test]
fn compressed_responses_are_not_read() {
    assert_eq!(capture_mode(false, &Vec::new()), None);
    assert_eq!(capture_mode(true, &Vec::new()), Some(false));
    assert_eq!(
        capture_mode(true, &vec![header("content-encoding", "gzip")]),
        None
    );
    assert_eq!(
        capture_mode(
            true,
            &vec![
                header("content-encoding", "identity"),
                header("content-type", "text/event-stream"),
            ],
        ),
        Some(true)
    );
}
