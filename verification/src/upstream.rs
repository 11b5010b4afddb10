//! A request to a provider, from its preparation to the delivery of the
//! response.
//!
//! The functions decide; sending, waiting and reading are left to their caller,
//! who reports what came back.
use crate::chat_input::{message, message_of};
use crate::chat_request::{
    converted_body, responses_body_to_chat_completions, ChatConversion, ConversionView,
};
use crate::chat_response::{
    chat_json_to_responses_json_at, completed_history, completion_response, history_view,
    non_stream_chat_history,
};
use crate::chat_stream::byte_lists;
use crate::headers::{header_views, HeaderField};
use crate::history::{ChatHistoryEntry, ChatHistoryStore, EntryView};
use crate::json::{
    either, obj, object, one_item, parse_json, parsed_json, render_json, rendered, str_view, views,
    Json, JsonFault, JsonView,
};
use crate::limits::{append_limited_error_response_chunk, with_error_chunk};
use crate::official::{
    asks_for_stream, body_session, changed_body, header_session, normalize_official_responses_input,
    normalize_ultra_reasoning_effort, official_body, official_codex_needs_non_stream_bridge,
    official_codex_session_identity, remodelled, rewrite_model, without_ultra, word, word_of,
};
use crate::preflight::{bytes_view, ResponseTransform};
use crate::sse::{begins_event, looks_like_sse, lossy_text, skip_blank, utf8_lossy};
use crate::text::{after_prefix, concat2, string_view, strip_prefix, trim, trimmed};
use crate::tools::ChatToolContext;
use crate::urls::{
    chat_completions_url, chat_url, generates, generation_url, pair_views, parsed_url,
    provider_supports_chat_prompt_cache_key, response_transform, responses_url, takes_cache_key,
    ProviderRoute,
};
use vstd::prelude::*;
use vstd::string::*;
use vstd::utf8::*;

verus! {

/// A request as it is sent to the provider, and what its response needs.
#[derive(Debug)]
pub struct PreparedRequest {
    pub transform: ResponseTransform,
    pub url: String,
    pub session_identity: Option<String>,
    pub conversion: ChatConversion,
}

/// What a `PreparedRequest` holds.
#[verifier::ext_equal]
pub struct PreparedView {
    pub transform: ResponseTransform,
    pub url: Seq<char>,
    pub session: Option<Seq<char>>,
    pub conversion: ConversionView,
}

impl View for PreparedRequest {
    type V = PreparedView;

    open spec fn view(&self) -> PreparedView {
        PreparedView {
            transform: self.transform,
            url: self.url@,
            session: string_view(self.session_identity),
            conversion: self.conversion@,
        }
    }
}

/// What a provider and a request to it are, as far as the preparation goes.
#[verifier::ext_equal]
pub struct RequestView {
    pub provider_id: Seq<char>,
    pub official: bool,
    pub base_url: Seq<char>,
    pub is_endpoint: bool,
    pub chat_endpoint: bool,
    pub model_map: Seq<(Seq<char>, Seq<char>)>,
    pub method: Seq<char>,
    pub target: Option<Seq<char>>,
    pub headers: Seq<(Seq<char>, Option<Seq<char>>)>,
    pub body: Seq<u8>,
    pub upstream: Seq<char>,
}

impl RequestView {
    /// Whether the request asks for a response to be generated.
    pub open spec fn generates(self) -> bool {
        generates(self.method, self.target)
    }

    /// What has to be done with the response.
    pub open spec fn transform(self) -> ResponseTransform {
        if self.generates() && self.chat_endpoint {
            ResponseTransform::ChatCompletionsToResponses
        } else if self.official && self.generates() && !asks_for_stream(parsed_json(self.body)) {
            ResponseTransform::OfficialCodexStreamToResponse
        } else {
            ResponseTransform::Passthrough
        }
    }

    /// The session of the request at the official service.
    pub open spec fn session(self) -> Option<Seq<char>> {
        if self.official && self.generates() {
            either(
                header_session(self.headers),
                match parsed_json(self.body) {
                    Ok(value) => body_session(value),
                    Err(_) => None,
                },
            )
        } else {
            None
        }
    }

    /// The body as the official service takes it.
    pub open spec fn official_body(self) -> Option<Seq<u8>> {
        if self.official && self.method == "POST"@ && (self.target matches Some(target)
            && responses_url(target)) {
            official_body(
                self.body,
                parsed_json(self.body),
                generation_url(self.target->0),
                self.session(),
            )
        } else {
            Some(self.body)
        }
    }

    /// The request as it is sent. Where the body is not one that the official
    /// service can be given, there is none.
    pub open spec fn prepared(self, history: Seq<(Seq<char>, EntryView)>) -> Option<PreparedView> {
        match self.official_body() {
            Some(official) => {
                let modelled = changed_body(
                    official,
                    match parsed_json(official) {
                        Ok(value) => remodelled(value, self.model_map),
                        Err(_) => None,
                    },
                );
                let body = changed_body(
                    modelled,
                    match parsed_json(modelled) {
                        Ok(value) => without_ultra(value),
                        Err(_) => None,
                    },
                );
                let chat = self.transform() is ChatCompletionsToResponses;
                Some(
                    PreparedView {
                        transform: self.transform(),
                        url: if chat {
                            chat_url(self.base_url, self.is_endpoint, self.upstream)
                        } else {
                            self.upstream
                        },
                        session: self.session(),
                        conversion: if chat {
                            converted_body(
                                body,
                                parsed_json(body),
                                self.provider_id,
                                takes_cache_key(parsed_url(trim(self.base_url))),
                                history,
                            )
                        } else {
                            ConversionView { body, tools: seq![], messages: seq![] }
                        },
                    },
                )
            },
            None => None,
        }
    }
}

/// What a provider and a request to it are.
pub open spec fn request_view(
    provider: ProviderRoute,
    method: &str,
    path_and_query: Option<&str>,
    headers: Seq<HeaderField>,
    body: Seq<u8>,
    upstream: &str,
) -> RequestView {
    RequestView {
        provider_id: provider.id@,
        official: provider.official_codex,
        base_url: provider.base_url@,
        is_endpoint: provider.base_url_is_endpoint,
        chat_endpoint: provider.endpoint_is_chat_completions,
        model_map: pair_views(provider.model_map@),
        method: method@,
        target: str_view(path_and_query),
        headers: header_views(headers),
        body,
        upstream: upstream@,
    }
}

/// Prepares a request for a provider.
pub fn prepare_upstream_request(
    provider: &ProviderRoute,
    method: &str,
    path_and_query: Option<&str>,
    headers: &Vec<HeaderField>,
    body: Vec<u8>,
    upstream: &str,
    history: &ChatHistoryStore,
) -> (prepared: Option<PreparedRequest>)
    ensures
        match prepared {
            Some(prepared) => request_view(
                *provider,
                method,
                path_and_query,
                headers@,
                body@,
                upstream,
            ).prepared(history@) == Some(prepared@),
            None => request_view(
                *provider,
                method,
                path_and_query,
                headers@,
                body@,
                upstream,
            ).prepared(history@) is None,
        },
{
    let official = provider.official_codex;
    let plain = response_transform(
        provider.endpoint_is_chat_completions,
        method,
        path_and_query,
    );
    let transform = match plain {
        ResponseTransform::Passthrough => if official_codex_needs_non_stream_bridge(
            official,
            method,
            path_and_query,
            body.as_slice(),
        ) {
            ResponseTransform::OfficialCodexStreamToResponse
        } else {
            ResponseTransform::Passthrough
        },
        other => other,
    };
    let chat = match transform {
        ResponseTransform::ChatCompletionsToResponses => true,
        _ => false,
    };
    let url = if chat {
        chat_completions_url(provider, upstream)
    } else {
        upstream.to_owned()
    };
    let session_identity = official_codex_session_identity(
        official,
        method,
        path_and_query,
        headers,
        body.as_slice(),
    );
    let session = match &session_identity {
        Some(session) => Some(session.as_str()),
        None => None,
    };
    let body = match normalize_official_responses_input(
        official,
        method,
        path_and_query,
        body,
        session,
    ) {
        Some(body) => body,
        None => {
            return None;
        },
    };
    let body = normalize_ultra_reasoning_effort(rewrite_model(&provider.model_map, body));
    let conversion = if chat {
        responses_body_to_chat_completions(
            body,
            &provider.id,
            provider_supports_chat_prompt_cache_key(provider),
            history,
        )
    } else {
        let none: Vec<Json> = Vec::new();
        assert(views(none@) =~= seq![]);
        ChatConversion { body, tool_context: ChatToolContext::new(), messages: none }
    };
    Some(PreparedRequest { transform, url, session_identity, conversion })
}

/// By what a request to a provider is authorized.
#[derive(Debug, Clone, Copy, PartialEq, Eq, Structural)]
pub enum AuthPlan {
    AgentIdentity,
    OAuth,
    Token,
}

/// By what a request to a provider is authorized. Only the official service
/// takes anything but a token.
pub fn auth_plan(official_codex: bool, uses_agent_identity: bool, uses_oauth: bool) -> (plan:
    AuthPlan)
    ensures
        plan == if official_codex && uses_agent_identity {
            AuthPlan::AgentIdentity
        } else if official_codex && uses_oauth {
            AuthPlan::OAuth
        } else {
            AuthPlan::Token
        },
{
    if official_codex && uses_agent_identity {
        AuthPlan::AgentIdentity
    } else if official_codex && uses_oauth {
        AuthPlan::OAuth
    } else {
        AuthPlan::Token
    }
}

/// The account that a request to a provider is made for: that of a credential,
/// else the one that is configured, if it is not blank. Only the official
/// service has accounts.
pub open spec fn account(
    official: bool,
    configured: Option<Seq<char>>,
    credential: Option<Seq<char>>,
) -> Option<Seq<char>> {
    let own = match configured {
        Some(id) => if official && trim(id).len() > 0 {
            Some(id)
        } else {
            None
        },
        None => None,
    };
    either(credential, own)
}

/// The account that a request to a provider is made for.
pub fn chatgpt_account(
    official_codex: bool,
    configured: Option<&str>,
    credential: Option<&str>,
) -> (id: Option<String>)
    ensures
        string_view(id) == account(official_codex, str_view(configured), str_view(credential)),
{
    if let Some(id) = credential {
        return Some(id.to_owned());
    }
    match configured {
        Some(id) => if official_codex && !trimmed(id).as_str().is_empty() {
            Some(id.to_owned())
        } else {
            None
        },
        None => None,
    }
}

/// The authorization by a token.
pub fn bearer(token: &str) -> (authorization: String)
    ensures
        authorization@ == "Bearer "@ + token@,
{
    concat2("Bearer ", token)
}

/// The token of an authorization, if it is not blank.
pub open spec fn bearer_token(authorization: Option<Seq<char>>) -> Option<Seq<char>> {
    match authorization {
        Some(value) => word(after_prefix(value, "Bearer "@)),
        None => None,
    }
}

/// What to do after a response has come.
#[derive(Debug)]
pub enum SendStep {
    /// Hand the response on.
    Deliver,
    /// Read the body in full and check it.
    Buffer,
    /// Read the body, to see whether the agent identity has to be renewed.
    ReadAgentError,
    /// Renew the credential of which this token was refused, and send again.
    RefreshOAuth(String),
    /// Read the body and hand it on.
    ReadOAuthError,
}

/// What a `SendStep` says.
#[verifier::ext_equal]
pub enum SendStepView {
    Deliver,
    Buffer,
    ReadAgentError,
    RefreshOAuth(Seq<char>),
    ReadOAuthError,
}

impl View for SendStep {
    type V = SendStepView;

    open spec fn view(&self) -> SendStepView {
        match *self {
            SendStep::Deliver => SendStepView::Deliver,
            SendStep::Buffer => SendStepView::Buffer,
            SendStep::ReadAgentError => SendStepView::ReadAgentError,
            SendStep::RefreshOAuth(token) => SendStepView::RefreshOAuth(token@),
            SendStep::ReadOAuthError => SendStepView::ReadOAuthError,
        }
    }
}

/// Whether a status is one of success.
pub open spec fn success(status: u16) -> bool {
    200 <= status < 300
}

/// Whether a status is one of success.
pub fn is_success(status: u16) -> (result: bool)
    ensures
        result == success(status),
{
    200 <= status && status < 300
}

/// What to do with a response that is not about the authorization.
pub open spec fn settled_step(status: u16, generates: bool, event_stream: bool) -> SendStepView {
    if success(status) && generates && !event_stream {
        SendStepView::Buffer
    } else {
        SendStepView::Deliver
    }
}

/// What to do with the first response to a request.
pub open spec fn first_step(
    plan: AuthPlan,
    authorization: Option<Seq<char>>,
    status: u16,
    generates: bool,
    event_stream: bool,
) -> SendStepView {
    if status == 401 && plan is AgentIdentity {
        SendStepView::ReadAgentError
    } else if status == 401 && plan is OAuth {
        match bearer_token(authorization) {
            Some(token) => SendStepView::RefreshOAuth(token),
            None => SendStepView::ReadOAuthError,
        }
    } else {
        settled_step(status, generates, event_stream)
    }
}

/// What to do with a response to a request that was sent again.
pub fn after_resend(status: u16, generates: bool, event_stream: bool) -> (step: SendStep)
    ensures
        step@ == settled_step(status, generates, event_stream),
{
    if is_success(status) && generates && !event_stream {
        SendStep::Buffer
    } else {
        SendStep::Deliver
    }
}

/// What to do with the first response to a request.
pub fn after_first_response(
    plan: AuthPlan,
    authorization: Option<&str>,
    status: u16,
    generates: bool,
    event_stream: bool,
) -> (step: SendStep)
    ensures
        step@ == first_step(plan, str_view(authorization), status, generates, event_stream),
{
    if status == 401 {
        match plan {
            AuthPlan::AgentIdentity => {
                return SendStep::ReadAgentError;
            },
            AuthPlan::OAuth => {
                let token = match authorization {
                    Some(value) => match strip_prefix(value, "Bearer ") {
                        Some(token) => word_of(Some(token.as_str())),
                        None => None,
                    },
                    None => None,
                };
                return match token {
                    Some(token) => SendStep::RefreshOAuth(token),
                    None => SendStep::ReadOAuthError,
                };
            },
            AuthPlan::Token => {},
        }
    }
    after_resend(status, generates, event_stream)
}

/// A request is sent at most twice: what follows a response to one that was
/// sent again never asks for the authorization to be renewed, and neither does
/// a response that does not refuse it.
pub proof fn law_requests_are_resent_at_most_once(
    plan: AuthPlan,
    authorization: Option<Seq<char>>,
    status: u16,
    generates: bool,
    event_stream: bool,
)
    ensures
        settled_step(status, generates, event_stream) is Deliver || settled_step(
            status,
            generates,
            event_stream,
        ) is Buffer,
        status != 401 ==> first_step(plan, authorization, status, generates, event_stream)
            == settled_step(status, generates, event_stream),
{
}

/// How a response is delivered to the client.
#[derive(Debug, Clone, Copy, PartialEq, Eq, Structural)]
pub enum Delivery {
    /// Byte for byte.
    Passthrough,
    /// Byte for byte, with a watch on its events.
    Watched,
    /// As the one response that its events end with.
    Collected,
    /// As a stream that is converted.
    ConvertedStream,
    /// As a body that is converted.
    ConvertedBody,
}

/// How a response is delivered to the client.
pub open spec fn delivered(
    opaque: bool,
    transform: ResponseTransform,
    status: u16,
    events: bool,
) -> Delivery {
    if opaque {
        Delivery::Passthrough
    } else if transform is OfficialCodexStreamToResponse && success(status) {
        Delivery::Collected
    } else if transform is ChatCompletionsToResponses {
        if events {
            Delivery::ConvertedStream
        } else {
            Delivery::ConvertedBody
        }
    } else if events {
        Delivery::Watched
    } else {
        Delivery::Passthrough
    }
}

/// How a response is delivered to the client.
pub fn delivery(
    opaque: bool,
    transform: ResponseTransform,
    status: u16,
    event_stream: bool,
    buffered_body: Option<&[u8]>,
) -> (result: Delivery)
    ensures
        result == delivered(
            opaque,
            transform,
            status,
            event_stream || (bytes_view(buffered_body) matches Some(body) && begins_event(
                skip_blank(body),
            )),
        ),
{
    let events = event_stream || match buffered_body {
        Some(body) => looks_like_sse(body),
        None => false,
    };
    if opaque {
        return Delivery::Passthrough;
    }
    match transform {
        ResponseTransform::OfficialCodexStreamToResponse => if is_success(status) {
            return Delivery::Collected;
        },
        ResponseTransform::ChatCompletionsToResponses => {
            return if events {
                Delivery::ConvertedStream
            } else {
                Delivery::ConvertedBody
            };
        },
        ResponseTransform::Passthrough => {},
    }
    if events {
        Delivery::Watched
    } else {
        Delivery::Passthrough
    }
}

/// A chat completion that says a text.
pub open spec fn plain_completion(content: Seq<char>) -> JsonView {
    obj().entry(
        "choices"@,
        JsonView::Array(
            seq![obj().entry("message"@, message("assistant"@, JsonView::Text(content)))],
        ),
    )
}

/// The chat completion in a body; one that says the body where it is not JSON.
pub open spec fn completion_in(content: Seq<char>, parsed: Result<JsonView, JsonFault>) -> JsonView {
    match parsed {
        Ok(value) => value,
        Err(_) => plain_completion(content),
    }
}

/// The chat completion in a body.
pub fn read_completion(body: &[u8]) -> (value: Json)
    ensures
        value@ == completion_in(
            utf8_lossy(body@),
            parsed_json(encode_utf8(utf8_lossy(body@))),
        ),
{
    let content = lossy_text(body);
    match parse_json(content.as_str().as_bytes()) {
        Ok(value) => value,
        Err(_) => object().entry(
            "choices",
            one_item(object().entry("message", message_of("assistant", Json::Text(content)))),
        ),
    }
}

/// A chat completion as the body of a response, with the conversation that it
/// ends; `now` is its time where it has none.
pub fn convert_chat_body(
    completion: &Json,
    tool_context: &ChatToolContext,
    request_messages: &Vec<Json>,
    now: i64,
) -> (result: (String, Option<(String, ChatHistoryEntry)>))
    ensures
        ({
            let response = completion_response(completion@, tool_context@, now);
            &&& result.0@ == rendered(response)
            &&& history_view(result.1) == completed_history(
                response,
                completion@,
                tool_context@,
                views(request_messages@),
            )
        }),
{
    let converted = chat_json_to_responses_json_at(completion, tool_context, now);
    let entry = non_stream_chat_history(&converted, completion, tool_context, request_messages);
    (render_json(&converted), entry)
}

/// An error response put together from the first of some chunks, up to one that
/// is cut.
pub open spec fn error_from(chunks: Seq<Seq<u8>>, count: int) -> (Seq<u8>, bool)
    decreases count,
{
    if !(0 < count <= chunks.len()) {
        (seq![], false)
    } else {
        let (before, cut) = error_from(chunks, count - 1);
        if cut {
            (before, true)
        } else {
            with_error_chunk(before, chunks[count - 1])
        }
    }
}

/// Once an error response was cut, no more is added to it.
proof fn lemma_error_stays_cut(chunks: Seq<Seq<u8>>, count: int, more: int)
    requires
        0 <= count <= more <= chunks.len(),
        error_from(chunks, count).1,
    ensures
        error_from(chunks, more) == error_from(chunks, count),
    decreases more,
{
    if count < more {
        lemma_error_stays_cut(chunks, count, more - 1);
    }
}

/// Puts an error response together from chunks that have been read. Says whether
/// it was cut, so that no more of it is needed.
pub fn collect_error_chunks(chunks: &Vec<Vec<u8>>) -> (result: (Vec<u8>, bool))
    ensures
        (result.0@, result.1) == error_from(byte_lists(chunks@), chunks@.len() as int),
{
    let ghost all = byte_lists(chunks@);
    let mut body: Vec<u8> = Vec::new();
    assert(body@ =~= seq![]);
    let mut index: usize = 0;
    while index < chunks.len()
        invariant
            index <= chunks@.len(),
            all == byte_lists(chunks@),
            (body@, false) == error_from(all, index as int),
        decreases chunks@.len() - index,
    {
        assert(all[index as int] == chunks@[index as int]@);
        if append_limited_error_response_chunk(&mut body, chunks[index].as_slice()) {
            proof {
                lemma_error_stays_cut(all, index + 1, all.len() as int);
            }
            return (body, true);
        }
        index += 1;
    }
    (body, false)
}

/// A response is translated exactly where the provider takes chat completions and
/// the request asks for a response to be generated; it is put together from its
/// events exactly where the official service was asked for one without a stream.
pub proof fn law_responses_are_translated_where_needed(request: RequestView)
    ensures
        request.transform() is ChatCompletionsToResponses <==> request.chat_endpoint
            && request.generates(),
        request.transform() is OfficialCodexStreamToResponse <==> request.official
            && request.generates() && !request.chat_endpoint && !(parsed_json(
            request.body,
        ) matches Ok(value) && value.get("stream"@) == Some(JsonView::Bool(true))),
{
    if let Ok(value) = parsed_json(request.body) {
        if let Some(stream) = value.get("stream"@) {
            assert(stream.flag() == Some(true) <==> stream == JsonView::Bool(true));
        }
    }
}

/// A request to a provider that is not the official one, and needs neither another
/// name for its model nor a translation, is sent as it came.
pub proof fn law_plain_requests_are_sent_as_they_came(
    request: RequestView,
    history: Seq<(Seq<char>, EntryView)>,
    value: JsonView,
)
    requires
        !request.official,
        !request.chat_endpoint,
        request.model_map.len() == 0,
        parsed_json(request.body) matches Ok(read) && read == value,
        value.get("reasoning"@) is None,
        value.get("reasoning_effort"@) is None,
    ensures
        request.prepared(history) matches Some(prepared) && {
            &&& prepared.conversion.body == request.body
            &&& prepared.url == request.upstream
            &&& prepared.transform is Passthrough
            &&& prepared.session is None
        },
{
}

/// A request that is refused for want of authorization is sent again with a new
/// token where there is one to renew, and only then; any other response goes to
/// the client, a successful one that was generated and is no stream after it was
/// read in full.
pub proof fn law_refused_requests_are_authorized_anew(
    token: Seq<char>,
    status: u16,
    generates: bool,
    event_stream: bool,
)
    requires
        trim(token) == token,
        token.len() > 0,
    ensures
        first_step(AuthPlan::OAuth, Some("Bearer "@ + token), 401, generates, event_stream)
            == SendStepView::RefreshOAuth(token),
        first_step(AuthPlan::OAuth, None, 401, generates, event_stream) is ReadOAuthError,
        first_step(AuthPlan::AgentIdentity, None, 401, generates, event_stream) is ReadAgentError,
        first_step(AuthPlan::Token, Some("Bearer "@ + token), 401, generates, event_stream)
            is Deliver,
        settled_step(status, generates, event_stream) is Buffer <==> 200 <= status <= 299
            && generates && !event_stream,
{
    let bearer = "Bearer "@ + token;
    assert(bearer.take("Bearer "@.len() as int) =~= "Bearer "@);
    assert(bearer.skip("Bearer "@.len() as int) =~= token);
}

/// The account of a credential counts before the one that is configured, which
/// counts at the official service only, and not where it is blank.
pub proof fn law_accounts_of_credentials_count_first(
    official: bool,
    configured: Option<Seq<char>>,
    credential: Option<Seq<char>>,
)
    ensures
        credential is Some ==> account(official, configured, credential) == credential,
        credential is None && official && (configured matches Some(id) && trim(id).len() > 0)
            ==> account(official, configured, credential) == configured,
        credential is None && !official ==> account(official, configured, credential) is None,
{
}

/// A body that is not JSON is taken for what the assistant says.
pub proof fn law_plain_bodies_are_answers(
    content: Seq<char>,
    fault: JsonFault,
    tools: Seq<crate::tools::ToolView>,
)
    requires
        content.len() > 0,
    ensures
        ({
            let value = completion_in(content, Err(fault));
            let output = crate::chat_response::completion_output(value, tools);
            output.len() == 1 && crate::chat_response::says_only(output[0], content)
        }),
{
    broadcast use crate::json::lemma_entry_field;

    reveal_strlit("choices");
    reveal_strlit("message");
    reveal_strlit("role");
    reveal_strlit("content");
    reveal_strlit("tool_calls");
    assert("choices"@.len() == 7);
    assert("message"@.len() == 7);
    assert("role"@.len() == 4);
    assert("content"@.len() == 7);
    assert("tool_calls"@.len() == 10);
    assert("choices"@[0] != "message"@[0]);
    assert("choices"@[1] != "content"@[1]);
    assert("message"@[0] != "content"@[0]);
    let said = message("assistant"@, JsonView::Text(content));
    assert(said.get("content"@) == Some(JsonView::Text(content)));
    assert(said.get("tool_calls"@) is None);
    let choice = obj().entry("message"@, said);
    assert(choice.get("message"@) == Some(said));
    let value = plain_completion(content);
    assert(value.get("choices"@) == Some(JsonView::Array(seq![choice])));
    crate::chat_response::law_answers_keep_their_text(
        value,
        seq![choice],
        said,
        content,
        tools,
    );
}

/// At the official service a request belongs to the session that its headers name,
/// and to the one that its body names where they name none. Elsewhere it belongs
/// to none.
pub proof fn law_sessions_are_told_by_headers_first(request: RequestView, value: JsonView)
    requires
        parsed_json(request.body) matches Ok(read) && read == value,
    ensures
        request.official && request.generates() && header_session(request.headers) is Some
            ==> request.session() == header_session(request.headers),
        request.official && request.generates() && header_session(request.headers) is None
            ==> request.session() == body_session(value),
        !request.official || !request.generates() ==> request.session() is None,
{
}

/// A request whose model has another name at its provider is sent with that name,
/// and is otherwise as it came.
pub proof fn law_requests_are_sent_under_the_name_at_the_provider(
    request: RequestView,
    history: Seq<(Seq<char>, EntryView)>,
    value: JsonView,
    model: Seq<char>,
    named: Seq<char>,
)
    requires
        !request.official,
        !request.chat_endpoint,
        request.model_map == seq![(model, named)],
        parsed_json(request.body) matches Ok(read) && read == value,
        value is Object,
        value.get_text("model"@) == Some(model),
        trim(model) == model,
        model.len() > 0,
        named != model,
        parsed_json(encode_utf8(rendered(value.with("model"@, JsonView::Text(named))))) matches Ok(
            sent,
        ) && sent == value.with("model"@, JsonView::Text(named)),
        value.get("reasoning"@) is None,
        value.get("reasoning_effort"@) is None,
    ensures
        request.prepared(history) matches Some(prepared) && prepared.conversion.body
            == encode_utf8(rendered(value.with("model"@, JsonView::Text(named)))),
{
    broadcast use crate::json::lemma_with_field;

    reveal_strlit("model");
    reveal_strlit("reasoning");
    reveal_strlit("reasoning_effort");
    assert("model"@.len() == 5);
    assert("reasoning"@.len() == 9);
    assert("reasoning_effort"@.len() == 16);
    let sent = value.with("model"@, JsonView::Text(named));
    assert(request.model_map[0] == (model, named));
    assert(sent.get("reasoning"@) is None);
    assert(sent.get("reasoning_effort"@) is None);
}

/// An error response that is small enough is read in full, whatever the parts
/// that it arrives in.
pub proof fn law_error_responses_are_read_in_full(chunks: Seq<Seq<u8>>, count: int)
    requires
        0 <= count <= chunks.len(),
        chunks.take(count).flatten().len() <= crate::limits::error_content_limit(),
    ensures
        error_from(chunks, count) == (chunks.take(count).flatten(), false),
    decreases count,
{
    if count > 0 {
        let before = chunks.take(count - 1);
        let last = chunks[count - 1];
        assert(chunks.take(count) =~= before + seq![last]);
        vstd::seq_lib::lemma_flatten_concat(before, seq![last]);
        seq![last].lemma_flatten_one_element();
        law_error_responses_are_read_in_full(chunks, count - 1);
        crate::limits::law_small_error_responses_are_kept(before.flatten(), last);
    } else {
        assert(chunks.take(0) =~= seq![]);
        assert(chunks.take(0).flatten() =~= seq![]);
    }
}

/// A response that is a chat completion is translated, whatever its status, as a
/// stream where it is one; a stream that the client wants as one response is
/// collected where it succeeded; another stream is watched on its way; and what is
/// opaque, or neither, goes to the client as it came.
pub proof fn law_responses_are_delivered_as_the_client_reads_them(
    status: u16,
    transform: ResponseTransform,
    events: bool,
)
    ensures
        delivered(true, transform, status, events) is Passthrough,
        delivered(false, ResponseTransform::Passthrough, status, true) is Watched,
        delivered(false, ResponseTransform::Passthrough, status, false) is Passthrough,
        delivered(false, ResponseTransform::ChatCompletionsToResponses, status, true)
            is ConvertedStream,
        delivered(false, ResponseTransform::ChatCompletionsToResponses, status, false)
            is ConvertedBody,
        200 <= status <= 299 <==> delivered(
            false,
            ResponseTransform::OfficialCodexStreamToResponse,
            status,
            events,
        ) is Collected,
        !(200 <= status <= 299) ==> delivered(
            false,
            ResponseTransform::OfficialCodexStreamToResponse,
            status,
            events,
        ) == delivered(false, ResponseTransform::Passthrough, status, events),
{
}

} // verus!
