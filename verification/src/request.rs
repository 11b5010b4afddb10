//! What a request says of itself: who sends it, which model it wants, and which
//! session it belongs to.
use crate::clock::millis_since_epoch;
use crate::content_encoding::{DecodeErrorView, RequestBodyDecodeError, MAX_REQUEST_BODY_BYTES};
use crate::headers::{
    get_header, get_header_word, header_text, header_views, header_word, HeaderField,
};
use crate::json::{
    array, at, either, get_at, lemma_entry_field, obj, object, parse_json, parsed_json, render_json, rendered, seen,
    str_view, text, text_at, text_in, views, Json, JsonView,
};
use crate::names::holds_name;
use crate::text::{
    after_prefix, chars_of, concat2, concat3, cut, cut_to, decimal, hexadecimal,
    lemma_numeral_digits, lemma_numeral_is_unique, numeral, pad_zeros, respaced, same, spaced,
    string_view, strip_prefix, texts, trim, trimmed, zero_padded,
};
use std::hash::BuildHasher;
use std::hash::BuildHasherDefault;
use std::hash::DefaultHasher;
use vstd::prelude::*;
use vstd::string::*;

verus! {

/// How many scalar values of a word of a request are kept.
pub const MAX_METADATA_CHARS: usize = 160;

/// How many scalar values of the body of an error are kept.
pub const MAX_ERROR_BODY_CHARS: usize = 280;

/// An answer of the relay's own that says what went wrong.
#[derive(Debug)]
pub struct ApiError {
    pub status: u16,
    pub code: &'static str,
    pub message: String,
}

/// What an `ApiError` holds.
#[verifier::ext_equal]
pub struct ApiErrorView {
    pub status: u16,
    pub code: Seq<char>,
    pub message: Seq<char>,
}

impl View for ApiError {
    type V = ApiErrorView;

    open spec fn view(&self) -> ApiErrorView {
        ApiErrorView { status: self.status, code: self.code@, message: self.message@ }
    }
}

impl ApiErrorView {
    /// The JSON of the error.
    pub open spec fn json(self) -> JsonView {
        obj().entry(
            "error"@,
            obj().entry("message"@, JsonView::Text(self.message)).entry(
                "type"@,
                JsonView::Text("codex_companion_error"@),
            ).entry("code"@, JsonView::Text(self.code)),
        )
    }
}

impl ApiError {
    /// The body of the answer.
    pub fn body(&self) -> (body: String)
        ensures
            body@ == rendered(self@.json()),
    {
        let error = object().entry("message", text(self.message.as_str())).entry(
            "type",
            text("codex_companion_error"),
        ).entry("code", text(self.code));
        render_json(&object().entry("error", error))
    }
}

/// The JSON of a list of models, up to one of them.
pub open spec fn model_entries(models: Seq<Seq<char>>, count: int) -> Seq<JsonView>
    decreases count,
{
    if !(0 < count <= models.len()) {
        seq![]
    } else {
        model_entries(models, count - 1).push(
            obj().entry("id"@, JsonView::Text(models[count - 1])).entry(
                "object"@,
                JsonView::Text("model"@),
            ).entry("owned_by"@, JsonView::Text("codex-companion"@)),
        )
    }
}

/// The body that lists models.
pub fn allowed_models_body(models: &Vec<String>) -> (body: String)
    ensures
        body@ == rendered(
            obj().entry("object"@, JsonView::Text("list"@)).entry(
                "data"@,
                JsonView::Array(model_entries(texts(models@), models@.len() as int)),
            ),
        ),
{
    let ghost all = texts(models@);
    let mut data: Vec<Json> = Vec::new();
    let mut index: usize = 0;
    assert(views(data@) =~= model_entries(all, 0));
    while index < models.len()
        invariant
            index <= models@.len(),
            all == texts(models@),
            views(data@) == model_entries(all, index as int),
        decreases models@.len() - index,
    {
        let ghost before = views(data@);
        assert(all[index as int] == models@[index as int]@);
        let entry = object().entry("id", text(models[index].as_str())).entry(
            "object",
            text("model"),
        ).entry("owned_by", text("codex-companion"));
        let ghost view = entry@;
        data.push(entry);
        assert(views(data@) =~= before.push(view));
        index += 1;
    }
    render_json(&object().entry("object", text("list")).entry("data", array(data)))
}

/// The body that answers a probe of the relay.
pub fn relay_root_body() -> (body: &'static str)
    ensures
        body@ == "{\"object\":\"codex_companion.relay\",\"status\":\"ok\"}"@,
{
    "{\"object\":\"codex_companion.relay\",\"status\":\"ok\"}"
}

/// Whether a request only asks whether the relay is there.
pub fn is_relay_root_probe(method: &str, path: &str) -> (probe: bool)
    ensures
        probe == (method@ == "GET"@ && (path@ == "/"@ || path@ == "/v1"@)),
{
    same(method, "GET") && (same(path, "/") || same(path, "/v1"))
}

/// Why the body of a request could not be read.
#[derive(Debug)]
pub enum BodyReadFault {
    TooLarge,
    Failed(String),
}

/// What is answered when a body is over the limit of the relay.
pub open spec fn over_limit_message(kind: Seq<char>) -> Seq<char> {
    kind + "超过 Codex Companion 本地代理的 "@ + (numeral(
        (MAX_REQUEST_BODY_BYTES / 1_048_576) as nat,
        10,
    ) + " MiB 上限；请先运行 /compact、移除大段日志或内联图片，或调整本地代理限制"@)
}

fn over_limit_text(kind: &str) -> (message: String)
    ensures
        message@ == over_limit_message(kind@),
{
    let size = decimal((MAX_REQUEST_BODY_BYTES / 1_048_576) as u64);
    let end = concat2(
        size.as_str(),
        " MiB 上限；请先运行 /compact、移除大段日志或内联图片，或调整本地代理限制",
    );
    concat3(kind, "超过 Codex Companion 本地代理的 ", end.as_str())
}

/// What is answered when the body of a request cannot be read.
pub fn body_read_error(fault: BodyReadFault) -> (error: ApiError)
    ensures
        error@ == (match fault {
            BodyReadFault::TooLarge => (ApiErrorView {
                status: 413,
                code: "local_request_too_large"@,
                message: over_limit_message("请求体"@),
            }),
            BodyReadFault::Failed(reason) => (ApiErrorView {
                status: 400,
                code: "request_body_read_failed"@,
                message: "读取请求体失败: "@ + reason@,
            }),
        }),
{
    match fault {
        BodyReadFault::TooLarge => ApiError {
            status: 413,
            code: "local_request_too_large",
            message: over_limit_text("请求体"),
        },
        BodyReadFault::Failed(reason) => ApiError {
            status: 400,
            code: "request_body_read_failed",
            message: concat2("读取请求体失败: ", reason.as_str()),
        },
    }
}

/// What is answered when the body of a request cannot be decoded.
pub fn body_decode_error(fault: &RequestBodyDecodeError) -> (error: ApiError)
    ensures
        error@ == (match fault@ {
            DecodeErrorView::TooLarge(_) => (ApiErrorView {
                status: 413,
                code: "local_decompressed_request_too_large"@,
                message: over_limit_message("解压后的请求体"@),
            }),
            DecodeErrorView::UnsupportedEncoding(encoding) => (ApiErrorView {
                status: 415,
                code: "unsupported_content_encoding"@,
                message: "不支持请求体编码 "@ + encoding,
            }),
            DecodeErrorView::InvalidEncoding(_, _) => (ApiErrorView {
                status: 400,
                code: "invalid_content_encoding"@,
                message: fault@.message(),
            }),
        }),
{
    match fault {
        RequestBodyDecodeError::TooLarge { .. } => ApiError {
            status: 413,
            code: "local_decompressed_request_too_large",
            message: over_limit_text("解压后的请求体"),
        },
        RequestBodyDecodeError::UnsupportedEncoding(encoding) => ApiError {
            status: 415,
            code: "unsupported_content_encoding",
            message: concat2("不支持请求体编码 ", encoding.as_str()),
        },
        RequestBodyDecodeError::InvalidEncoding { .. } => ApiError {
            status: 400,
            code: "invalid_content_encoding",
            message: fault.message_text(),
        },
    }
}

/// The body of an error on one line, cut where it is long.
pub open spec fn compacted(body: Seq<char>) -> Seq<char> {
    let line = spaced(body);
    if line.len() > MAX_ERROR_BODY_CHARS {
        line.take(MAX_ERROR_BODY_CHARS as int) + "..."@
    } else if line.len() == 0 {
        "无响应正文"@
    } else {
        line
    }
}

/// The body of an error on one line, cut where it is long, given the body without
/// the secrets in it.
pub fn compact_error_body(redacted: &str) -> (line: String)
    ensures
        line@ == compacted(redacted@),
{
    let line = respaced(redacted);
    if chars_of(line.as_str()).len() > MAX_ERROR_BODY_CHARS {
        let head = cut_to(line.as_str(), MAX_ERROR_BODY_CHARS);
        concat2(head.as_str(), "...")
    } else if line.as_str().is_empty() {
        "无响应正文".to_string()
    } else {
        line
    }
}

/// What is answered when a request fails inside the relay, given what went wrong
/// without the secrets in it.
pub fn internal_error(redacted: &str) -> (error: ApiError)
    ensures
        error@ == (ApiErrorView {
            status: 502,
            code: "proxy_internal_error"@,
            message: compacted(redacted@),
        }),
{
    ApiError { status: 502, code: "proxy_internal_error", message: compact_error_body(redacted) }
}

/// A text where there is anything of it.
pub open spec fn not_empty(value: Option<Seq<char>>) -> Option<Seq<char>> {
    match value {
        Some(value) if value.len() > 0 => Some(value),
        _ => None,
    }
}

/// The key that a request presents: a bearer token, or else an API key.
pub open spec fn key_of(headers: Seq<(Seq<char>, Option<Seq<char>>)>) -> Option<Seq<char>> {
    let token = match header_text(headers, "authorization"@) {
        Some(value) => after_prefix(trim(value), "Bearer "@),
        None => None,
    };
    let other = match header_text(headers, "x-api-key"@) {
        Some(value) => Some(trim(value)),
        None => None,
    };
    not_empty(either(token, other))
}

/// The key that a request presents.
pub fn client_api_key(headers: &Vec<HeaderField>) -> (key: Option<String>)
    ensures
        string_view(key) == key_of(header_views(headers@)),
{
    let token = match get_header(headers, "authorization") {
        Some(value) => {
            let value = trimmed(value);
            strip_prefix(value.as_str(), "Bearer ")
        },
        None => None,
    };
    let key = match token {
        Some(token) => Some(token),
        None => match get_header(headers, "x-api-key") {
            Some(value) => Some(trimmed(value)),
            None => None,
        },
    };
    match key {
        Some(key) => if key.as_str().is_empty() {
            None
        } else {
            Some(key)
        },
        None => None,
    }
}

/// What came of looking for the client of a key.
#[derive(Debug)]
pub enum ClientLookup {
    Known,
    Unknown,
    Failed(String),
}

/// Why a request may not pass.
pub open spec fn refusal(
    has_key: bool,
    lookup: ClientLookup,
    keys_needed: bool,
) -> Option<(u16, Seq<char>)> {
    match lookup {
        ClientLookup::Failed(reason) if has_key => Some(
            (500u16, "API client 数据库不可用: "@ + reason@),
        ),
        ClientLookup::Known if has_key => None,
        _ => if !keys_needed {
            None
        } else if has_key {
            Some((401u16, "API key 无效、已停用或已轮换"@))
        } else {
            Some((401u16, "此本地 API 服务需要 Authorization: Bearer <API_KEY>"@))
        },
    }
}

/// Whether a request may pass, and whether as a client that is known: a key
/// that is known passes; without one a request passes only where none is
/// needed, and never from a browser.
pub fn authenticate_client(
    has_key: bool,
    lookup: ClientLookup,
    enforce_api_key: bool,
    enforce_config_key: bool,
    require_api_key: bool,
    browser_origin: bool,
) -> (result: Result<bool, (u16, String)>)
    ensures
        match (refusal(
            has_key,
            lookup,
            enforce_api_key || (enforce_config_key && require_api_key) || browser_origin,
        ), result) {
            (Some((status, message)), Err(error)) => error.0 == status && error.1@ == message,
            (None, Ok(known)) => known == (has_key && lookup is Known),
            _ => false,
        },
        result == Ok::<bool, (u16, String)>(true) <==> has_key && lookup is Known,
        enforce_api_key || browser_origin ==> (result is Ok <==> has_key && lookup is Known),
        enforce_config_key && require_api_key ==> (result is Ok <==> has_key && lookup is Known),
        !enforce_api_key && !browser_origin && !require_api_key && !has_key ==> result is Ok,
{
    let known = match lookup {
        ClientLookup::Failed(reason) => {
            if has_key {
                return Err((500, concat2("API client 数据库不可用: ", reason.as_str())));
            }
            false
        },
        ClientLookup::Known => has_key,
        ClientLookup::Unknown => false,
    };
    if !known && (enforce_api_key || (enforce_config_key && require_api_key) || browser_origin) {
        let message = if has_key {
            "API key 无效、已停用或已轮换".to_string()
        } else {
            "此本地 API 服务需要 Authorization: Bearer <API_KEY>".to_string()
        };
        return Err((401, message));
    }
    Ok(known)
}

/// A request from a browser passes only with a key that is known.
pub proof fn law_browsers_need_a_known_key(
    has_key: bool,
    lookup: ClientLookup,
    enforce_api_key: bool,
    enforce_config_key: bool,
    require_api_key: bool,
)
    ensures
        refusal(
            has_key,
            lookup,
            enforce_api_key || (enforce_config_key && require_api_key) || true,
        ) is None <==> has_key && lookup is Known,
{
}

/// A relay that enforces keys lets no request pass without a known one, whatever
/// its configuration says.
pub proof fn law_enforced_keys_cannot_be_switched_off(
    has_key: bool,
    lookup: ClientLookup,
    enforce_config_key: bool,
    require_api_key: bool,
    browser_origin: bool,
)
    ensures
        refusal(
            has_key,
            lookup,
            true || (enforce_config_key && require_api_key) || browser_origin,
        ) is None <==> has_key && lookup is Known,
{
}

/// Whether a client may use a model: any, where it names none.
pub fn client_allows_model(allowed_models: &Vec<String>, model: &str) -> (allowed: bool)
    ensures
        allowed == (allowed_models@.len() == 0 || texts(allowed_models@).contains(model@)),
{
    allowed_models.len() == 0 || holds_name(allowed_models, model)
}

/// What a request says that is worth keeping of it.
#[derive(Debug, Default, PartialEq, Eq)]
pub struct RequestMetadata {
    pub model: Option<String>,
    pub reasoning_effort: Option<String>,
    pub service_tier: Option<String>,
}

/// What a `RequestMetadata` holds.
#[verifier::ext_equal]
pub struct RequestMetadataView {
    pub model: Option<Seq<char>>,
    pub reasoning_effort: Option<Seq<char>>,
    pub service_tier: Option<Seq<char>>,
}

impl View for RequestMetadata {
    type V = RequestMetadataView;

    open spec fn view(&self) -> RequestMetadataView {
        RequestMetadataView {
            model: string_view(self.model),
            reasoning_effort: string_view(self.reasoning_effort),
            service_tier: string_view(self.service_tier),
        }
    }
}

/// A text of a request, trimmed and cut, where anything is left of it.
pub open spec fn bounded_word(value: Option<JsonView>, limit: int) -> Option<Seq<char>> {
    match text_in(value) {
        Some(word) if trim(word).len() > 0 => Some(cut(trim(word), limit)),
        _ => None,
    }
}

/// A text of a request, trimmed and cut, where anything is left of it.
pub fn bounded_request_string(value: Option<&Json>, max_chars: usize) -> (word: Option<String>)
    ensures
        string_view(word) == bounded_word(seen(value), max_chars as int),
{
    match text_at(value) {
        Some(word) => {
            let word = trimmed(word);
            if word.as_str().is_empty() {
                None
            } else {
                Some(cut_to(word.as_str(), max_chars))
            }
        },
        None => None,
    }
}

/// What a request says that is worth keeping of it, given its body as JSON.
pub open spec fn metadata_of(value: JsonView) -> RequestMetadataView {
    RequestMetadataView {
        model: bounded_word(value.get("model"@), MAX_METADATA_CHARS as int),
        reasoning_effort: bounded_word(
            either(at(value.get("reasoning"@), "effort"@), value.get("reasoning_effort"@)),
            MAX_METADATA_CHARS as int,
        ),
        service_tier: bounded_word(value.get("service_tier"@), MAX_METADATA_CHARS as int),
    }
}

/// What a request says that is worth keeping of it, given its body as JSON.
pub fn json_metadata(value: &Json) -> (metadata: RequestMetadata)
    ensures
        metadata@ == metadata_of(value@),
{
    let effort = match get_at(value.get("reasoning"), "effort") {
        Some(effort) => Some(effort),
        None => value.get("reasoning_effort"),
    };
    RequestMetadata {
        model: bounded_request_string(value.get("model"), MAX_METADATA_CHARS),
        reasoning_effort: bounded_request_string(effort, MAX_METADATA_CHARS),
        service_tier: bounded_request_string(value.get("service_tier"), MAX_METADATA_CHARS),
    }
}

/// What a request says that is worth keeping of it.
pub fn request_metadata(body: &[u8]) -> (metadata: RequestMetadata)
    ensures
        metadata@ == (match parsed_json(body@) {
            Ok(value) => metadata_of(value),
            Err(_) => (RequestMetadataView {
                model: None,
                reasoning_effort: None,
                service_tier: None,
            }),
        }),
{
    match parse_json(body) {
        Ok(value) => json_metadata(&value),
        Err(_) => RequestMetadata { model: None, reasoning_effort: None, service_tier: None },
    }
}

/// What `hash_text` computes.
pub uninterp spec fn text_hash(chars: Seq<char>) -> u64;

/// `BuildHasher::hash_one` hashes a text with a new `DefaultHasher`, all of which
/// give the same hash for the same text.
#[verifier::external_body]
fn hash_text(chars: &str) -> (hash: u64)
    ensures
        hash == text_hash(chars@),
{
    BuildHasherDefault::<DefaultHasher>::default().hash_one(chars)
}

/// A hash in hexadecimal, sixteen digits long.
pub open spec fn hash_digits(hash: u64) -> Seq<char> {
    zero_padded(numeral(hash as nat, 16), 16)
}

/// A hash in hexadecimal, sixteen digits long.
pub fn hash_in_hexadecimal(hash: u64) -> (digits: String)
    ensures
        digits@ == hash_digits(hash),
{
    let digits = hexadecimal(hash as u128);
    pad_zeros(digits.as_str(), 16)
}

/// The key that stands for a text.
pub open spec fn affinity_hash(value: Seq<char>) -> Seq<char> {
    hash_digits(text_hash(value))
}

/// The key that stands for a text.
pub fn hash_affinity_key(value: &str) -> (key: String)
    ensures
        key@ == affinity_hash(value@),
{
    hash_in_hexadecimal(hash_text(value))
}

/// The text that tells apart the same key of different clients.
pub open spec fn scoped_text(key: Seq<char>, client: Option<Seq<char>>) -> Seq<char> {
    "client:"@ + (match client {
        Some(id) => id,
        None => "local"@,
    }) + (":"@ + key)
}

/// The text that tells apart the same key of different clients.
pub fn scoped_key_text(key: &str, client_id: Option<&str>) -> (result: String)
    ensures
        result@ == scoped_text(key@, str_view(client_id)),
{
    let client = match client_id {
        Some(id) => id,
        None => "local",
    };
    let end = concat2(":", key);
    concat3("client:", client, end.as_str())
}

/// A key of a session that belongs to a client.
pub fn scoped_affinity_key(key: &str, client_id: Option<&str>) -> (result: String)
    ensures
        result@ == affinity_hash(scoped_text(key@, str_view(client_id))),
{
    let scoped = scoped_key_text(key, client_id);
    hash_affinity_key(scoped.as_str())
}

/// The same key of two clients stands for two texts.
pub proof fn law_scoped_keys_tell_clients_apart(
    key: Seq<char>,
    left: Seq<char>,
    right: Seq<char>,
)
    ensures
        scoped_text(key, Some(left)) == scoped_text(key, Some(right)) ==> left == right,
{
    let a = scoped_text(key, Some(left));
    let b = scoped_text(key, Some(right));
    if a == b {
        let start = "client:"@.len() as int;
        let end = ":"@ + key;
        assert(a.len() == start + left.len() + end.len());
        assert(b.len() == start + right.len() + end.len());
        assert(left.len() == right.len());
        assert forall|i: int| 0 <= i < left.len() implies left[i] == right[i] by {
            assert(a[start + i] == left[i]);
            assert(b[start + i] == right[i]);
        }
        assert(left =~= right);
    }
}

/// The headers that name a session, in the order in which they count.
pub open spec fn header_session(
    headers: Seq<(Seq<char>, Option<Seq<char>>)>,
) -> Option<(Seq<char>, Seq<char>)> {
    if header_word(headers, "session_id"@) is Some {
        Some(("session_id"@, header_word(headers, "session_id"@)->Some_0))
    } else if header_word(headers, "x-session-id"@) is Some {
        Some(("x-session-id"@, header_word(headers, "x-session-id"@)->Some_0))
    } else if header_word(headers, "x-client-request-id"@) is Some {
        Some(("x-client-request-id"@, header_word(headers, "x-client-request-id"@)->Some_0))
    } else if header_word(headers, "x-amp-thread-id"@) is Some {
        Some(("x-amp-thread-id"@, header_word(headers, "x-amp-thread-id"@)->Some_0))
    } else {
        None
    }
}

/// A text of a request, trimmed, where anything is left of it.
pub open spec fn session_word(value: Option<JsonView>) -> Option<Seq<char>> {
    match text_in(value) {
        Some(word) if trim(word).len() > 0 => Some(trim(word)),
        _ => None,
    }
}

fn session_word_of(value: Option<&Json>) -> (word: Option<String>)
    ensures
        string_view(word) == session_word(seen(value)),
{
    match text_at(value) {
        Some(word) => {
            let word = trimmed(word);
            if word.as_str().is_empty() {
                None
            } else {
                Some(word)
            }
        },
        None => None,
    }
}

/// What in a body names a session, in the order in which it counts.
pub open spec fn body_key(value: JsonView) -> Option<(Seq<char>, Seq<char>)> {
    let metadata = value.get("metadata"@);
    if session_word(at(metadata, "session_id"@)) is Some {
        Some(("metadata.session_id"@, session_word(at(metadata, "session_id"@))->Some_0))
    } else if session_word(at(metadata, "user_id"@)) is Some {
        Some(("metadata.user_id"@, session_word(at(metadata, "user_id"@))->Some_0))
    } else if session_word(value.get("conversation_id"@)) is Some {
        Some(("conversation_id"@, session_word(value.get("conversation_id"@))->Some_0))
    } else if session_word(value.get("thread_id"@)) is Some {
        Some(("thread_id"@, session_word(value.get("thread_id"@))->Some_0))
    } else if session_word(value.get("prompt_cache_key"@)) is Some {
        Some(("prompt_cache_key"@, session_word(value.get("prompt_cache_key"@))->Some_0))
    } else {
        None
    }
}

/// The text that stands for the session of a request: what names it, and how it
/// is named.
pub open spec fn session_text(
    headers: Seq<(Seq<char>, Option<Seq<char>>)>,
    body: Option<JsonView>,
) -> Option<Seq<char>> {
    match (header_session(headers), body) {
        (Some((name, value)), _) => Some("header:"@ + name + ("="@ + value)),
        (None, Some(json)) => match body_key(json) {
            Some((name, value)) => Some("body:"@ + name + ("="@ + value)),
            None => None,
        },
        (None, None) => None,
    }
}

fn named(kind: &str, name: &str, value: String) -> (result: String)
    ensures
        result@ == kind@ + name@ + ("="@ + value@),
{
    let end = concat2("=", value.as_str());
    concat3(kind, name, end.as_str())
}

fn header_session_text(headers: &Vec<HeaderField>) -> (result: Option<String>)
    ensures
        string_view(result) == session_text(header_views(headers@), None),
{
    if let Some(value) = get_header_word(headers, "session_id") {
        return Some(named("header:", "session_id", value));
    }
    if let Some(value) = get_header_word(headers, "x-session-id") {
        return Some(named("header:", "x-session-id", value));
    }
    if let Some(value) = get_header_word(headers, "x-client-request-id") {
        return Some(named("header:", "x-client-request-id", value));
    }
    if let Some(value) = get_header_word(headers, "x-amp-thread-id") {
        return Some(named("header:", "x-amp-thread-id", value));
    }
    None
}

fn body_session_text(value: &Json) -> (result: Option<String>)
    ensures
        string_view(result) == session_text(seq![], Some(value@)),
{
    let metadata = value.get("metadata");
    if let Some(word) = session_word_of(get_at(metadata, "session_id")) {
        return Some(named("body:", "metadata.session_id", word));
    }
    if let Some(word) = session_word_of(get_at(metadata, "user_id")) {
        return Some(named("body:", "metadata.user_id", word));
    }
    if let Some(word) = session_word_of(value.get("conversation_id")) {
        return Some(named("body:", "conversation_id", word));
    }
    if let Some(word) = session_word_of(value.get("thread_id")) {
        return Some(named("body:", "thread_id", word));
    }
    if let Some(word) = session_word_of(value.get("prompt_cache_key")) {
        return Some(named("body:", "prompt_cache_key", word));
    }
    None
}

/// The body of a request as JSON, where it is.
pub open spec fn body_json(bytes: Seq<u8>) -> Option<JsonView> {
    match parsed_json(bytes) {
        Ok(value) => Some(value),
        Err(_) => None,
    }
}

/// The text that stands for the session of a request, given its body as JSON.
pub fn request_session_text(headers: &Vec<HeaderField>, body: Option<&Json>) -> (result: Option<
    String,
>)
    ensures
        string_view(result) == session_text(header_views(headers@), seen(body)),
{
    let from_headers = header_session_text(headers);
    match (from_headers, body) {
        (Some(session), _) => Some(session),
        (None, Some(value)) => body_session_text(value),
        (None, None) => None,
    }
}

/// The key of the session of a request.
pub fn request_affinity_key(headers: &Vec<HeaderField>, body: &[u8]) -> (key: Option<String>)
    ensures
        string_view(key) == (match session_text(header_views(headers@), body_json(body@)) {
            Some(session) => Some(affinity_hash(session)),
            None => None,
        }),
{
    let value = match parse_json(body) {
        Ok(value) => Some(value),
        Err(_) => None,
    };
    let session = request_session_text(
        headers,
        match &value {
            Some(value) => Some(value),
            None => None,
        },
    );
    match session {
        Some(session) => Some(hash_affinity_key(session.as_str())),
        None => None,
    }
}

/// The id of the session of a request, given its body as JSON: a header that
/// names a session or thread, what in the body does, or the id that the client
/// gave the request.
pub open spec fn session_id_of(
    headers: Seq<(Seq<char>, Option<Seq<char>>)>,
    body: Option<JsonView>,
) -> Option<Seq<char>> {
    let in_headers = either(
        header_word(headers, "session_id"@),
        either(header_word(headers, "x-session-id"@), header_word(headers, "x-amp-thread-id"@)),
    );
    let in_body = match body {
        Some(value) => either(
            session_word(at(value.get("metadata"@), "session_id"@)),
            either(
                session_word(value.get("conversation_id"@)),
                either(
                    session_word(value.get("thread_id"@)),
                    session_word(value.get("prompt_cache_key"@)),
                ),
            ),
        ),
        None => None,
    };
    either(in_headers, either(in_body, header_word(headers, "x-client-request-id"@)))
}

fn body_session_id(value: &Json) -> (id: Option<String>)
    ensures
        string_view(id) == either(
            session_word(at(value@.get("metadata"@), "session_id"@)),
            either(
                session_word(value@.get("conversation_id"@)),
                either(
                    session_word(value@.get("thread_id"@)),
                    session_word(value@.get("prompt_cache_key"@)),
                ),
            ),
        ),
{
    if let Some(word) = session_word_of(get_at(value.get("metadata"), "session_id")) {
        return Some(word);
    }
    if let Some(word) = session_word_of(value.get("conversation_id")) {
        return Some(word);
    }
    if let Some(word) = session_word_of(value.get("thread_id")) {
        return Some(word);
    }
    session_word_of(value.get("prompt_cache_key"))
}

/// The id of the session of a request, given its body as JSON.
pub fn session_id_in(headers: &Vec<HeaderField>, body: Option<&Json>) -> (id: Option<String>)
    ensures
        string_view(id) == session_id_of(header_views(headers@), seen(body)),
{
    if let Some(word) = get_header_word(headers, "session_id") {
        return Some(word);
    }
    if let Some(word) = get_header_word(headers, "x-session-id") {
        return Some(word);
    }
    if let Some(word) = get_header_word(headers, "x-amp-thread-id") {
        return Some(word);
    }
    if let Some(value) = body {
        if let Some(word) = body_session_id(value) {
            return Some(word);
        }
    }
    get_header_word(headers, "x-client-request-id")
}

/// The id of the session of a request.
pub fn request_session_id(headers: &Vec<HeaderField>, body: &[u8]) -> (id: Option<String>)
    ensures
        string_view(id) == session_id_of(header_views(headers@), body_json(body@)),
{
    let value = match parse_json(body) {
        Ok(value) => Some(value),
        Err(_) => None,
    };
    session_id_in(
        headers,
        match &value {
            Some(value) => Some(value),
            None => None,
        },
    )
}

/// The id of a request: the time in milliseconds and the number of the request.
pub open spec fn request_id(millis: u128, sequence: u64) -> Seq<char> {
    "cc-"@ + numeral(millis as nat, 16) + ("-"@ + numeral(sequence as nat, 16))
}

/// The id of a request at a time.
pub fn request_id_at(millis: u128, sequence: u64) -> (id: String)
    ensures
        id@ == request_id(millis, sequence),
{
    let time = hexadecimal(millis);
    let number = hexadecimal(sequence as u128);
    let end = concat2("-", number.as_str());
    concat3("cc-", time.as_str(), end.as_str())
}

/// The number of a request some calls after another: numbers go up by one and
/// begin again at 0 behind the greatest.
pub open spec fn sequence_after(sequence: u64, calls: nat) -> u64 {
    ((sequence + calls) % 0x1_0000_0000_0000_0000) as u64
}

/// The id of the next request, at the time that the clock has; 0 where it is set
/// before the Unix epoch.
pub fn next_request_id(sequence: &mut u64) -> (id: String)
    ensures
        exists|millis: u128| id@ == #[trigger] request_id(millis, *old(sequence)),
        *final(sequence) == sequence_after(*old(sequence), 1),
{
    let millis: u128 = match millis_since_epoch() {
        Some(millis) => millis,
        None => 0,
    };
    let number: u64 = *sequence;
    *sequence = number.wrapping_add(1);
    request_id_at(millis, number)
}

/// Requests of different numbers have different ids, whenever they come.
pub proof fn law_request_ids_are_distinct(first: u128, left: u64, second: u128, right: u64)
    requires
        left != right,
    ensures
        request_id(first, left) != request_id(second, right),
{
    reveal_strlit("cc-");
    reveal_strlit("-");
    let a = request_id(first, left);
    let b = request_id(second, right);
    let time_a = numeral(first as nat, 16);
    let time_b = numeral(second as nat, 16);
    let number_a = numeral(left as nat, 16);
    let number_b = numeral(right as nat, 16);
    lemma_numeral_digits(first as nat, 16);
    lemma_numeral_digits(second as nat, 16);
    if a == b {
        let dash_a = 3 + time_a.len() as int;
        let dash_b = 3 + time_b.len() as int;
        assert(a[dash_a] == '-');
        assert(b[dash_b] == '-');
        if dash_a < dash_b {
            assert(b[dash_a] == time_b[dash_a - 3]);
        } else if dash_b < dash_a {
            assert(a[dash_b] == time_a[dash_b - 3]);
        }
        assert(a.skip(dash_a + 1) =~= number_a);
        assert(b.skip(dash_b + 1) =~= number_b);
        lemma_numeral_is_unique(left as nat, right as nat, 16);
    }
}

/// One call after some others has the number behind theirs.
pub proof fn law_calls_follow_each_other(sequence: u64, calls: nat)
    ensures
        sequence_after(sequence, 0) == sequence,
        sequence_after(sequence_after(sequence, calls), 1) == sequence_after(sequence, calls + 1),
{
}

/// Any two calls give different ids, whenever they are made and however many are
/// made between them, as long as fewer are made than there are numbers.
pub proof fn law_calls_give_different_ids(
    sequence: u64,
    earlier: nat,
    later: nat,
    first_millis: u128,
    second_millis: u128,
)
    requires
        earlier < later,
        later - earlier < 0x1_0000_0000_0000_0000,
    ensures
        request_id(first_millis, sequence_after(sequence, earlier)) != request_id(
            second_millis,
            sequence_after(sequence, later),
        ),
{
    let size: int = 0x1_0000_0000_0000_0000;
    let a = sequence + earlier;
    let b = sequence + later;
    vstd::arithmetic::div_mod::lemma_fundamental_div_mod(a, size);
    vstd::arithmetic::div_mod::lemma_fundamental_div_mod(b, size);
    if a % size == b % size {
        let low = a / size;
        let high = b / size;
        assert(size * high - size * low == b - a);
        assert(false) by (nonlinear_arith)
            requires
                size * high - size * low == b - a,
                0 < b - a < size,
        ;
    }
    law_request_ids_are_distinct(
        first_millis,
        sequence_after(sequence, earlier),
        second_millis,
        sequence_after(sequence, later),
    );
}

/// The key of a request is its bearer token, or its API key where it names no
/// token; white space around either does not count.
pub proof fn law_keys_are_read_from_their_headers(
    headers: Seq<(Seq<char>, Option<Seq<char>>)>,
    key: Seq<char>,
)
    requires
        key.len() > 0,
        trim(key) == key,
    ensures
        header_text(headers, "authorization"@) == Some("Bearer "@ + key) && trim("Bearer "@ + key)
            == "Bearer "@ + key ==> key_of(headers) == Some(key),
        header_text(headers, "authorization"@) is None && header_text(headers, "x-api-key"@) == Some(
            key,
        ) ==> key_of(headers) == Some(key),
        header_text(headers, "authorization"@) is None && header_text(headers, "x-api-key"@) is None
            ==> key_of(headers) is None,
{
    let bearer = "Bearer "@ + key;
    assert(bearer.take("Bearer "@.len() as int) =~= "Bearer "@);
    assert(bearer.skip("Bearer "@.len() as int) =~= key);
}

/// A request with a key that is known passes. Without one it passes only where no
/// keys are needed, and is else refused as unauthorized; where it could not be
/// found out whether a key is known, it does not pass.
pub proof fn law_requests_pass_with_a_known_key(
    has_key: bool,
    lookup: ClientLookup,
    keys_needed: bool,
)
    ensures
        has_key && lookup is Known ==> refusal(has_key, lookup, keys_needed) is None,
        has_key && lookup is Failed ==> (refusal(has_key, lookup, keys_needed) matches Some(
            (status, _),
        ) && status == 500),
        !has_key || lookup is Unknown ==> (if keys_needed {
            refusal(has_key, lookup, keys_needed) matches Some((status, _)) && status == 401
        } else {
            refusal(has_key, lookup, keys_needed) is None
        }),
{
}

/// What is kept of the body of an error is its text on one line, from its front,
/// and no more than a line; something is always said.
pub proof fn law_error_bodies_are_kept_short(body: Seq<char>)
    ensures
        compacted(body).len() > 0,
        compacted(body).len() <= 283,
        0 < spaced(body).len() <= 280 ==> compacted(body) == spaced(body),
        spaced(body).len() > 280 ==> compacted(body).take(280) == spaced(body).take(280),
{
    reveal_strlit("...");
    reveal_strlit("无响应正文");
    if spaced(body).len() > 280 {
        assert(compacted(body).take(280) =~= spaced(body).take(280));
    }
}

/// An error is told to the client with its code and its message.
pub proof fn law_errors_are_told_in_full(error: ApiErrorView)
    ensures
        error.json().get("error"@) matches Some(inner) && inner.get_text("message"@) == Some(
            error.message,
        ) && inner.get_text("code"@) == Some(error.code),
{
    broadcast use lemma_entry_field;

    reveal_strlit("message");
    reveal_strlit("type");
    reveal_strlit("code");
    assert("message"@.len() == 7);
    assert("type"@.len() == 4);
    assert("code"@.len() == 4);
    assert("type"@[0] != "code"@[0]);
    let inner = obj().entry("message"@, JsonView::Text(error.message)).entry(
        "type"@,
        JsonView::Text("codex_companion_error"@),
    ).entry("code"@, JsonView::Text(error.code));
    assert(inner.get("message"@) == Some(JsonView::Text(error.message)));
    assert(inner.get("code"@) == Some(JsonView::Text(error.code)));
    assert(error.json().get("error"@) == Some(inner));
}

/// Every model of a list is told of, in the order of the list.
pub proof fn law_models_are_listed_in_order(models: Seq<Seq<char>>, count: int)
    requires
        0 <= count <= models.len(),
    ensures
        model_entries(models, count).len() == count,
        forall|i: int|
            0 <= i < count ==> (#[trigger] model_entries(models, count)[i]).get_text("id"@) == Some(
                models[i],
            ),
    decreases count,
{
    broadcast use lemma_entry_field;

    reveal_strlit("id");
    reveal_strlit("object");
    reveal_strlit("owned_by");
    assert("id"@.len() == 2);
    assert("object"@.len() == 6);
    assert("owned_by"@.len() == 8);
    if count > 0 {
        law_models_are_listed_in_order(models, count - 1);
        let before = model_entries(models, count - 1);
        let all = model_entries(models, count);
        assert forall|i: int| 0 <= i < count implies (#[trigger] all[i]).get_text("id"@) == Some(
            models[i],
        ) by {
            if i < count - 1 {
                assert(all[i] == before[i]);
            } else {
                assert(all[i].get("id"@) == Some(JsonView::Text(models[i])));
            }
        }
    }
}

/// What is kept of a request names its model, its effort and its tier as the body
/// does, without white space at their ends.
pub proof fn law_requests_are_logged_as_they_ask(value: JsonView, model: Seq<char>)
    requires
        value.get("model"@) == Some(JsonView::Text(model)),
        trim(model) == model,
        0 < model.len() <= 160,
    ensures
        metadata_of(value).model == Some(model),
        value.get("service_tier"@) is None ==> metadata_of(value).service_tier is None,
        value.get("reasoning"@) is None && value.get("reasoning_effort"@) is None ==> metadata_of(
            value,
        ).reasoning_effort is None,
{
}

/// A session is told by the header that names it, whatever the body says; without
/// one by the body. Two values of the same header stand for two sessions.
pub proof fn law_sessions_are_told_apart(
    headers: Seq<(Seq<char>, Option<Seq<char>>)>,
    others: Seq<(Seq<char>, Option<Seq<char>>)>,
    body: Option<JsonView>,
    one: Seq<char>,
    other: Seq<char>,
)
    requires
        header_word(headers, "session_id"@) == Some(one),
        header_word(others, "session_id"@) == Some(other),
    ensures
        session_text(headers, body) == session_text(headers, None),
        session_text(headers, body) is Some,
        one == other ==> session_text(headers, body) == session_text(others, body),
        one != other ==> session_text(headers, body) != session_text(others, body),
        session_id_of(headers, body) == Some(one),
{
    let front = "header:"@ + "session_id"@;
    let a = front + ("="@ + one);
    let b = front + ("="@ + other);
    if a == b {
        reveal_strlit("=");
        assert(a.skip(front.len() as int + 1) =~= one);
        assert(b.skip(front.len() as int + 1) =~= other);
    }
}

} // verus!
