//! What becomes of a request: an answer of the relay's own, or attempts at one
//! provider after the other until one answers.
use crate::names::names_in_order;
use crate::policy::HealthFailureKind;
use crate::request::{
    client_allows_model, compact_error_body, compacted, is_relay_root_probe, ApiError, ApiErrorView,
};
use crate::routing::{models_named, name_lists, offered_models};
use crate::text::{begins, concat2, concat3, ends, ends_with, same, string_view, texts};
use vstd::prelude::*;
use vstd::string::*;

verus! {

/// A failure as it was understood.
#[derive(Debug, Clone, Copy, PartialEq, Eq, Structural)]
pub struct FailureClassification {
    pub kind: HealthFailureKind,
    pub retryable: bool,
}

/// Whether a failure is about one model rather than the provider.
pub fn is_model_scoped_failure(kind: HealthFailureKind) -> (scoped: bool)
    ensures
        scoped == (kind is ModelMissing || kind is RateLimited),
{
    matches!(kind, HealthFailureKind::ModelMissing | HealthFailureKind::RateLimited)
}

/// Whether another provider may do better after a failure.
pub fn fallback_eligible(failure: FailureClassification) -> (eligible: bool)
    ensures
        eligible == (failure.retryable || failure.kind is AuthFailed),
{
    failure.retryable || failure.kind == HealthFailureKind::AuthFailed
}

/// The code that an answer gives for a kind of failure.
pub open spec fn code_of(kind: HealthFailureKind) -> Seq<char> {
    match kind {
        HealthFailureKind::AuthFailed => "upstream_auth_failed"@,
        HealthFailureKind::RateLimited => "upstream_rate_limited"@,
        HealthFailureKind::QuotaExhausted => "upstream_quota_exhausted"@,
        HealthFailureKind::ModelMissing => "upstream_model_not_found"@,
        HealthFailureKind::RequestRejected => "upstream_request_rejected"@,
        HealthFailureKind::NetworkFailed => "upstream_network_error"@,
        HealthFailureKind::UpstreamFailed => "upstream_error"@,
        HealthFailureKind::Unknown => "upstream_unknown_error"@,
    }
}

/// The code that an answer gives for a kind of failure.
pub fn failure_error_code(kind: HealthFailureKind) -> (code: &'static str)
    ensures
        code@ == code_of(kind),
{
    match kind {
        HealthFailureKind::AuthFailed => "upstream_auth_failed",
        HealthFailureKind::RateLimited => "upstream_rate_limited",
        HealthFailureKind::QuotaExhausted => "upstream_quota_exhausted",
        HealthFailureKind::ModelMissing => "upstream_model_not_found",
        HealthFailureKind::RequestRejected => "upstream_request_rejected",
        HealthFailureKind::NetworkFailed => "upstream_network_error",
        HealthFailureKind::UpstreamFailed => "upstream_error",
        HealthFailureKind::Unknown => "upstream_unknown_error",
    }
}

/// What an attempt says of the health of its provider.
#[derive(Debug, Clone, Copy, PartialEq, Eq, Structural)]
pub enum HealthNote {
    /// Nothing.
    Untouched,
    /// The provider is well.
    Healthy,
    /// The model that was asked for is to be left alone for a while.
    ModelFailed,
    /// The provider failed.
    ProviderFailed,
}

/// What a failure says of the health of a provider: a request that was rejected
/// says nothing.
pub open spec fn note_of(kind: HealthFailureKind, model_known: bool) -> HealthNote {
    if kind is RequestRejected {
        HealthNote::Untouched
    } else if model_known && (kind is ModelMissing || kind is RateLimited) {
        HealthNote::ModelFailed
    } else {
        HealthNote::ProviderFailed
    }
}

/// What a failure says of the health of a provider.
pub fn provider_failure_note(kind: HealthFailureKind, model_known: bool) -> (note: HealthNote)
    ensures
        note == note_of(kind, model_known),
{
    if kind == HealthFailureKind::RequestRejected {
        HealthNote::Untouched
    } else if model_known && is_model_scoped_failure(kind) {
        HealthNote::ModelFailed
    } else {
        HealthNote::ProviderFailed
    }
}

/// A client of the relay.
#[derive(Debug)]
pub struct ClientAccess {
    pub name: String,
    pub allowed_models: Vec<String>,
}

/// An answer that needs no provider.
#[derive(Debug)]
pub enum LocalAnswer {
    /// The relay is there.
    Root,
    /// The request may not pass.
    Refused(ApiError),
    /// A list of models.
    Models(Vec<String>),
    /// Only a provider can answer.
    NotLocal,
}

/// What a `LocalAnswer` holds.
pub ghost enum LocalAnswerView {
    Root,
    Refused(ApiErrorView),
    Models(Seq<Seq<char>>),
    NotLocal,
}

impl View for LocalAnswer {
    type V = LocalAnswerView;

    open spec fn view(&self) -> LocalAnswerView {
        match self {
            LocalAnswer::Root => LocalAnswerView::Root,
            LocalAnswer::Refused(error) => LocalAnswerView::Refused(error@),
            LocalAnswer::Models(models) => LocalAnswerView::Models(texts(models@)),
            LocalAnswer::NotLocal => LocalAnswerView::NotLocal,
        }
    }
}

/// What is answered to a client that may not use a model.
pub open spec fn model_refusal(name: Seq<char>, model: Seq<char>) -> ApiErrorView {
    ApiErrorView {
        status: 403,
        code: "model_not_allowed"@,
        message: "API client "@ + name + (" 无权使用模型 "@ + model),
    }
}

/// Whether a request asks for the list of models.
pub open spec fn asks_models(method: Seq<char>, path: Seq<char>) -> bool {
    method == "GET"@ && path == "/v1/models"@
}

/// The answer of the relay's own to a request, where it has one before any
/// provider is looked at: a probe is answered, a model that the client may not
/// use is refused, and a client with models of its own is shown those.
pub open spec fn local_answer_of(
    method: Seq<char>,
    path: Seq<char>,
    client: Option<(Seq<char>, Seq<Seq<char>>)>,
    model: Option<Seq<char>>,
) -> LocalAnswerView {
    if method == "GET"@ && (path == "/"@ || path == "/v1"@) {
        LocalAnswerView::Root
    } else {
        match client {
            Some((name, allowed)) => if allowed.len() > 0 && model is Some && !allowed.contains(
                model->Some_0,
            ) {
                LocalAnswerView::Refused(model_refusal(name, model->Some_0))
            } else if asks_models(method, path) && allowed.len() > 0 {
                LocalAnswerView::Models(allowed)
            } else {
                LocalAnswerView::NotLocal
            },
            None => LocalAnswerView::NotLocal,
        }
    }
}

/// What a client may do, where there is one.
pub open spec fn access_view(client: Option<&ClientAccess>) -> Option<
    (Seq<char>, Seq<Seq<char>>),
> {
    match client {
        Some(access) => Some((access.name@, texts(access.allowed_models@))),
        None => None,
    }
}

fn copy_names(names: &Vec<String>) -> (copies: Vec<String>)
    ensures
        texts(copies@) == texts(names@),
{
    let mut copies: Vec<String> = Vec::new();
    let mut index: usize = 0;
    while index < names.len()
        invariant
            index <= names@.len(),
            copies@.len() == index,
            forall|i: int| 0 <= i < index ==> (#[trigger] copies@[i])@ == names@[i]@,
        decreases names@.len() - index,
    {
        copies.push(names[index].clone());
        index += 1;
    }
    assert(texts(copies@) =~= texts(names@));
    copies
}

/// The answer of the relay's own to a request, where it has one before any
/// provider is looked at.
pub fn local_answer(
    method: &str,
    path: &str,
    client: Option<&ClientAccess>,
    model: Option<&str>,
) -> (answer: LocalAnswer)
    ensures
        answer@ == local_answer_of(
            method@,
            path@,
            access_view(client),
            crate::json::str_view(model),
        ),
{
    if is_relay_root_probe(method, path) {
        return LocalAnswer::Root;
    }
    match client {
        Some(access) => {
            if let Some(model) = model {
                if !client_allows_model(&access.allowed_models, model) {
                    let end = concat2(" 无权使用模型 ", model);
                    return LocalAnswer::Refused(
                        ApiError {
                            status: 403,
                            code: "model_not_allowed",
                            message: concat3("API client ", access.name.as_str(), end.as_str()),
                        },
                    );
                }
            }
            if same(method, "GET") && same(path, "/v1/models") && access.allowed_models.len() > 0 {
                return LocalAnswer::Models(copy_names(&access.allowed_models));
            }
            LocalAnswer::NotLocal
        },
        None => LocalAnswer::NotLocal,
    }
}

/// The models that the providers of a group offer by name, where they are asked
/// for and there are any.
pub open spec fn catalog_of(
    method: Seq<char>,
    path: Seq<char>,
    model_maps: Seq<Seq<Seq<char>>>,
) -> Option<Seq<Seq<char>>> {
    let models = names_in_order(models_named(model_maps, model_maps.len() as int));
    if asks_models(method, path) && models.len() > 0 {
        Some(models)
    } else {
        None
    }
}

/// The models that the providers of a group offer by name, where they are asked
/// for and there are any.
pub fn catalog_answer(method: &str, path: &str, model_maps: &Vec<Vec<String>>) -> (answer: Option<
    Vec<String>,
>)
    ensures
        match answer {
            Some(models) => catalog_of(method@, path@, name_lists(model_maps@)) == Some(
                texts(models@),
            ),
            None => catalog_of(method@, path@, name_lists(model_maps@)) is None,
        },
{
    if !(same(method, "GET") && same(path, "/v1/models")) {
        return None;
    }
    let models = offered_models(model_maps);
    assert(texts(models@).len() == models@.len());
    if models.len() > 0 {
        Some(models)
    } else {
        None
    }
}

/// What is answered when a request may not pass.
pub fn authentication_error(refusal: (u16, String)) -> (error: ApiError)
    ensures
        error@ == (ApiErrorView {
            status: refusal.0,
            code: "invalid_api_key"@,
            message: refusal.1@,
        }),
{
    ApiError { status: refusal.0, code: "invalid_api_key", message: refusal.1 }
}

/// What is answered when a group has no provider to try.
pub fn no_provider_error() -> (error: ApiError)
    ensures
        error@ == (ApiErrorView {
            status: 503,
            code: "no_available_provider"@,
            message: "当前本地代理分组没有可用账号"@,
        }),
{
    ApiError {
        status: 503,
        code: "no_available_provider",
        message: "当前本地代理分组没有可用账号".to_string(),
    }
}

/// What is said when the group of the relay is missing.
pub fn missing_group_message(group_id: &str) -> (message: String)
    ensures
        message@ == "active group not found: "@ + group_id@,
{
    concat2("active group not found: ", group_id)
}

/// The line of an event that belongs to a request.
pub fn event_line(request_id: &str, message: &str) -> (line: String)
    ensures
        line@ == "["@ + request_id@ + ("] "@ + message@),
{
    let end = concat2("] ", message);
    concat3("[", request_id, end.as_str())
}

/// Whether a request asks to compact a response.
pub fn is_compact_request(method: &str, path: &str) -> (compact: bool)
    ensures
        compact == (method@ == "POST"@ && ends(path@, "/responses/compact"@)),
{
    same(method, "POST") && ends_with(path, "/responses/compact")
}

/// What is said when a response could not be turned into what was asked for.
pub open spec fn not_converted(status_text: Seq<char>) -> Seq<char> {
    "上游成功响应无法转换为本地协议（HTTP "@ + status_text + "）"@
}

/// What is said when a response could not be turned into what was asked for.
pub fn not_converted_message(status_text: &str) -> (message: String)
    ensures
        message@ == not_converted(status_text@),
{
    concat3("上游成功响应无法转换为本地协议（HTTP ", status_text, "）")
}

/// What an attempt depends on besides what comes of it.
#[derive(Debug)]
pub struct Attempt {
    /// The name of the provider.
    pub provider_name: String,
    /// Whether the provider takes chat completions only.
    pub chat_only: bool,
    /// How many were tried before it.
    pub index: usize,
    /// How many there are to try.
    pub count: usize,
    pub fallback_enabled: bool,
    /// Whether the request asks to compact a response.
    pub compact: bool,
    /// Whether the request names a model.
    pub model_known: bool,
    /// Whether the session was set to a provider.
    pub explicit_preference: bool,
    /// Whether the session of the request is known.
    pub session_known: bool,
}

/// What came of an attempt.
#[derive(Debug)]
pub enum AttemptOutcome {
    /// The provider's stream failed before anything of it was passed on.
    PreflightFailed { failure: FailureClassification, message: String },
    /// The response of the provider was passed on.
    Delivered { status: u16 },
    /// The response of the provider could not be turned into what was asked for.
    NotConverted { status: u16, status_text: String, failure: FailureClassification },
    /// The provider answered with an error.
    ErrorStatus {
        status: u16,
        status_text: String,
        body: String,
        refresh_error: Option<String>,
        failure: FailureClassification,
    },
    /// The request did not reach the provider, or no answer came.
    SendFailed { failure: FailureClassification, message: String },
}

/// What an event is about.
#[derive(Debug, Clone, Copy, PartialEq, Eq, Structural)]
pub enum EventKind {
    Fallback,
    Error,
    Stream,
}

/// What follows an attempt.
#[derive(Debug)]
pub enum NextStep {
    /// The next provider is tried; where there is none, the request has failed.
    TryNext,
    /// The request is answered with an error.
    Answer(ApiError),
    /// The response goes to the client.
    Deliver,
}

/// What an attempt comes to.
#[derive(Debug)]
pub struct AttemptVerdict {
    /// The number of the attempt.
    pub attempt: u16,
    /// The status that is noted for the attempt.
    pub status: Option<u16>,
    /// What went wrong.
    pub error: Option<String>,
    pub health: HealthNote,
    pub event: Option<EventKind>,
    /// Whether the session is bound to the provider.
    pub bind_session: bool,
    /// Whether the model is no longer left alone.
    pub clear_model_cooldown: bool,
    pub next: NextStep,
}

/// What a `NextStep` holds.
pub ghost enum NextStepView {
    TryNext,
    Answer(ApiErrorView),
    Deliver,
}

/// What an `AttemptVerdict` holds.
#[verifier::ext_equal]
pub ghost struct AttemptVerdictView {
    pub attempt: u16,
    pub status: Option<u16>,
    pub error: Option<Seq<char>>,
    pub health: HealthNote,
    pub event: Option<EventKind>,
    pub bind_session: bool,
    pub clear_model_cooldown: bool,
    pub next: NextStepView,
}

impl View for AttemptVerdict {
    type V = AttemptVerdictView;

    open spec fn view(&self) -> AttemptVerdictView {
        AttemptVerdictView {
            attempt: self.attempt,
            status: self.status,
            error: string_view(self.error),
            health: self.health,
            event: self.event,
            bind_session: self.bind_session,
            clear_model_cooldown: self.clear_model_cooldown,
            next: match self.next {
                NextStep::TryNext => NextStepView::TryNext,
                NextStep::Answer(error) => NextStepView::Answer(error@),
                NextStep::Deliver => NextStepView::Deliver,
            },
        }
    }
}

impl Attempt {
    /// Whether another provider may be tried.
    pub open spec fn has_next(self) -> bool {
        self.fallback_enabled && self.index + 1 < self.count
    }

    /// The number of the attempt.
    pub open spec fn number(self) -> u16 {
        (self.index + 1) as u16
    }

    /// What an attempt that failed comes to: the next provider is tried, or the
    /// request is answered with an error.
    pub open spec fn failed(
        self,
        status: u16,
        message: Seq<char>,
        health: HealthNote,
        go_on: bool,
        code: Seq<char>,
        tells_end: bool,
    ) -> AttemptVerdictView {
        AttemptVerdictView {
            attempt: self.number(),
            status: Some(status),
            error: Some(message),
            health,
            event: if go_on {
                Some(EventKind::Fallback)
            } else if tells_end {
                Some(EventKind::Error)
            } else {
                None
            },
            bind_session: false,
            clear_model_cooldown: false,
            next: if go_on {
                NextStepView::TryNext
            } else {
                NextStepView::Answer(ApiErrorView { status, code, message })
            },
        }
    }

    /// Whether the attempt is one to compact a response at a provider that takes
    /// chat completions only.
    pub open spec fn cannot_compact(self) -> bool {
        self.compact && self.chat_only
    }

    /// What an attempt that cannot be made comes to.
    pub open spec fn uncompactable(self) -> AttemptVerdictView {
        self.failed(
            501,
            "Provider "@ + self.provider_name@
                + " 仅支持 Chat Completions，无法处理 Responses Compact API"@,
            HealthNote::Untouched,
            self.has_next(),
            "responses_compact_unsupported"@,
            false,
        )
    }

    /// Whether a status says that the provider cannot compact responses.
    pub open spec fn lacks_compact(self, status: u16) -> bool {
        self.compact && (status == 404 || status == 405 || status == 501)
    }

    /// What is said when a provider answers with an error.
    pub open spec fn status_message(
        self,
        status: u16,
        status_text: Seq<char>,
        body: Seq<char>,
        refresh_error: Option<Seq<char>>,
    ) -> Seq<char> {
        if status == 413 {
            "上游 Provider "@ + self.provider_name@
                + " 返回 413 Payload Too Large：请求体超过其服务端限制，并非 Codex Companion 本地限制；请运行 /compact、移除大段日志或内联图片，或联系 Provider 调高限制"@
        } else if self.lacks_compact(status) {
            "上游 Provider "@ + self.provider_name@ + (" 不支持 Responses Compact API（HTTP "@
                + status_text + "）"@)
        } else {
            match refresh_error {
                Some(reason) => "上游返回 "@ + status_text + ("；"@ + reason + ("："@
                    + compacted(body))),
                None => "上游返回 "@ + status_text + (": "@ + compacted(body)),
            }
        }
    }

    /// The code that is given when a provider answers with an error.
    pub open spec fn status_code(self, status: u16, kind: HealthFailureKind) -> Seq<char> {
        if status == 413 {
            "upstream_request_too_large"@
        } else if status == 400 {
            "upstream_request_incompatible"@
        } else if self.lacks_compact(status) {
            "responses_compact_unsupported"@
        } else {
            code_of(kind)
        }
    }

    /// What an attempt comes to.
    pub open spec fn judged(self, outcome: AttemptOutcome) -> AttemptVerdictView {
        match outcome {
            AttemptOutcome::PreflightFailed { failure, message } => self.failed(
                502,
                message@,
                note_of(failure.kind, self.model_known),
                (failure.retryable || failure.kind is AuthFailed) && self.has_next(),
                code_of(failure.kind),
                false,
            ),
            AttemptOutcome::Delivered { status } => AttemptVerdictView {
                attempt: self.number(),
                status: Some(status),
                error: None,
                health: HealthNote::Healthy,
                event: Some(EventKind::Stream),
                bind_session: !self.explicit_preference && self.session_known,
                clear_model_cooldown: self.model_known,
                next: NextStepView::Deliver,
            },
            AttemptOutcome::NotConverted { status, status_text, failure } => self.failed(
                status,
                not_converted(status_text@),
                note_of(failure.kind, self.model_known),
                self.has_next(),
                "response_transform_failed"@,
                true,
            ),
            AttemptOutcome::ErrorStatus { status, status_text, body, refresh_error, failure } =>
                self.failed(
                    status,
                    self.status_message(
                        status,
                        status_text@,
                        body@,
                        string_view(refresh_error),
                    ),
                    if status == 413 || status == 400 || self.lacks_compact(status) {
                        HealthNote::Untouched
                    } else {
                        note_of(failure.kind, self.model_known)
                    },
                    self.has_next(),
                    self.status_code(status, failure.kind),
                    true,
                ),
            AttemptOutcome::SendFailed { failure, message } => AttemptVerdictView {
                attempt: self.number(),
                status: None,
                error: Some(compacted(message@)),
                health: note_of(failure.kind, self.model_known),
                event: if (failure.retryable || failure.kind is AuthFailed) && self.has_next() {
                    Some(EventKind::Fallback)
                } else {
                    Some(EventKind::Error)
                },
                bind_session: false,
                clear_model_cooldown: false,
                next: NextStepView::TryNext,
            },
        }
    }

    fn may_go_on(&self) -> (may: bool)
        requires
            self.index < self.count,
        ensures
            may == self.has_next(),
    {
        self.fallback_enabled && self.index + 1 < self.count
    }

    fn fail(
        &self,
        status: u16,
        message: String,
        health: HealthNote,
        go_on: bool,
        code: &'static str,
        tells_end: bool,
    ) -> (verdict: AttemptVerdict)
        requires
            self.index < self.count,
        ensures
            verdict@ == self.failed(status, message@, health, go_on, code@, tells_end),
    {
        let event = if go_on {
            Some(EventKind::Fallback)
        } else if tells_end {
            Some(EventKind::Error)
        } else {
            None
        };
        let error = Some(message.clone());
        let next = if go_on {
            NextStep::TryNext
        } else {
            NextStep::Answer(ApiError { status, code, message })
        };
        AttemptVerdict {
            attempt: (self.index + 1) as u16,
            status: Some(status),
            error,
            health,
            event,
            bind_session: false,
            clear_model_cooldown: false,
            next,
        }
    }

    /// What an attempt that cannot be made comes to, where it is one.
    pub fn before_sending(&self) -> (verdict: Option<AttemptVerdict>)
        requires
            self.index < self.count,
        ensures
            match verdict {
                Some(verdict) => self.cannot_compact() && verdict@ == self.uncompactable(),
                None => !self.cannot_compact(),
            },
    {
        if !(self.compact && self.chat_only) {
            return None;
        }
        let message = concat3(
            "Provider ",
            self.provider_name.as_str(),
            " 仅支持 Chat Completions，无法处理 Responses Compact API",
        );
        let go_on = self.may_go_on();
        Some(
            self.fail(
                501,
                message,
                HealthNote::Untouched,
                go_on,
                "responses_compact_unsupported",
                false,
            ),
        )
    }

    fn cannot_compact_at(&self, status: u16) -> (lacks: bool)
        ensures
            lacks == self.lacks_compact(status),
    {
        self.compact && (status == 404 || status == 405 || status == 501)
    }

    fn status_message_text(
        &self,
        status: u16,
        status_text: &str,
        body: &str,
        refresh_error: &Option<String>,
    ) -> (message: String)
        ensures
            message@ == self.status_message(
                status,
                status_text@,
                body@,
                string_view(*refresh_error),
            ),
    {
        if status == 413 {
            concat3(
                "上游 Provider ",
                self.provider_name.as_str(),
                " 返回 413 Payload Too Large：请求体超过其服务端限制，并非 Codex Companion 本地限制；请运行 /compact、移除大段日志或内联图片，或联系 Provider 调高限制",
            )
        } else if self.cannot_compact_at(status) {
            let end = concat3(" 不支持 Responses Compact API（HTTP ", status_text, "）");
            concat3("上游 Provider ", self.provider_name.as_str(), end.as_str())
        } else {
            let line = compact_error_body(body);
            match refresh_error {
                Some(reason) => {
                    let detail = concat2("：", line.as_str());
                    let end = concat3("；", reason.as_str(), detail.as_str());
                    concat3("上游返回 ", status_text, end.as_str())
                },
                None => {
                    let end = concat2(": ", line.as_str());
                    concat3("上游返回 ", status_text, end.as_str())
                },
            }
        }
    }

    /// What an attempt comes to, given what came of it.
    pub fn judge(&self, outcome: AttemptOutcome) -> (verdict: AttemptVerdict)
        requires
            self.index < self.count,
        ensures
            verdict@ == self.judged(outcome),
    {
        match outcome {
            AttemptOutcome::PreflightFailed { failure, message } => {
                let go_on = fallback_eligible(failure) && self.may_go_on();
                let health = provider_failure_note(failure.kind, self.model_known);
                self.fail(502, message, health, go_on, failure_error_code(failure.kind), false)
            },
            AttemptOutcome::Delivered { status } => AttemptVerdict {
                attempt: (self.index + 1) as u16,
                status: Some(status),
                error: None,
                health: HealthNote::Healthy,
                event: Some(EventKind::Stream),
                bind_session: !self.explicit_preference && self.session_known,
                clear_model_cooldown: self.model_known,
                next: NextStep::Deliver,
            },
            AttemptOutcome::NotConverted { status, status_text, failure } => {
                let message = not_converted_message(status_text.as_str());
                let health = provider_failure_note(failure.kind, self.model_known);
                let go_on = self.may_go_on();
                self.fail(status, message, health, go_on, "response_transform_failed", true)
            },
            AttemptOutcome::ErrorStatus { status, status_text, body, refresh_error, failure } => {
                let message = self.status_message_text(
                    status,
                    status_text.as_str(),
                    body.as_str(),
                    &refresh_error,
                );
                let lacks = self.cannot_compact_at(status);
                let health = if status == 413 || status == 400 || lacks {
                    HealthNote::Untouched
                } else {
                    provider_failure_note(failure.kind, self.model_known)
                };
                let code = if status == 413 {
                    "upstream_request_too_large"
                } else if status == 400 {
                    "upstream_request_incompatible"
                } else if lacks {
                    "responses_compact_unsupported"
                } else {
                    failure_error_code(failure.kind)
                };
                let go_on = self.may_go_on();
                self.fail(status, message, health, go_on, code, true)
            },
            AttemptOutcome::SendFailed { failure, message } => {
                let go_on = fallback_eligible(failure) && self.may_go_on();
                AttemptVerdict {
                    attempt: (self.index + 1) as u16,
                    status: None,
                    error: Some(compact_error_body(message.as_str())),
                    health: provider_failure_note(failure.kind, self.model_known),
                    event: if go_on {
                        Some(EventKind::Fallback)
                    } else {
                        Some(EventKind::Error)
                    },
                    bind_session: false,
                    clear_model_cooldown: false,
                    next: NextStep::TryNext,
                }
            },
        }
    }
}

/// The answer when every provider was tried.
pub open spec fn exhausted(last_error: Option<Seq<char>>) -> ApiErrorView {
    ApiErrorView {
        status: 502,
        code: "all_providers_failed"@,
        message: match last_error {
            Some(error) => error,
            None => "all providers failed"@,
        },
    }
}

/// The answer when every provider was tried.
pub fn exhausted_error(last_error: Option<String>) -> (error: ApiError)
    ensures
        error@ == exhausted(string_view(last_error)),
{
    ApiError {
        status: 502,
        code: "all_providers_failed",
        message: match last_error {
            Some(error) => error,
            None => "all providers failed".to_string(),
        },
    }
}

/// Where a request stands among its attempts.
#[derive(Debug)]
pub enum Progress {
    /// A provider is to be tried next, given by its place in the route.
    Pending { index: usize, last_error: Option<String> },
    /// The response of a provider went to the client.
    Delivered { index: usize },
    /// The request was answered with an error, after some attempts.
    Answered { error: ApiError, attempts: u16 },
}

/// What a `Progress` holds.
pub ghost enum ProgressView {
    Pending(int, Option<Seq<char>>),
    Delivered(int),
    Answered(ApiErrorView, u16),
}

impl View for Progress {
    type V = ProgressView;

    open spec fn view(&self) -> ProgressView {
        match self {
            Progress::Pending { index, last_error } => ProgressView::Pending(
                *index as int,
                string_view(*last_error),
            ),
            Progress::Delivered { index } => ProgressView::Delivered(*index as int),
            Progress::Answered { error, attempts } => ProgressView::Answered(error@, *attempts),
        }
    }
}

/// Where a request with providers to try begins.
pub open spec fn begun(count: int) -> ProgressView {
    if count > 0 {
        ProgressView::Pending(0, None)
    } else {
        ProgressView::Answered(
            ApiErrorView {
                status: 503,
                code: "no_available_provider"@,
                message: "当前本地代理分组没有可用账号"@,
            },
            0,
        )
    }
}

/// Where a request stands after an attempt.
pub open spec fn advanced(
    index: int,
    count: int,
    verdict: AttemptVerdictView,
) -> ProgressView {
    match verdict.next {
        NextStepView::TryNext => if index + 1 < count {
            ProgressView::Pending(index + 1, verdict.error)
        } else {
            ProgressView::Answered(exhausted(verdict.error), count as u16)
        },
        NextStepView::Answer(error) => ProgressView::Answered(error, verdict.attempt),
        NextStepView::Deliver => ProgressView::Delivered(index),
    }
}

/// Where a request with providers to try begins.
pub fn begin_attempts(count: usize) -> (progress: Progress)
    ensures
        progress@ == begun(count as int),
{
    if count > 0 {
        Progress::Pending { index: 0, last_error: None }
    } else {
        Progress::Answered { error: no_provider_error(), attempts: 0 }
    }
}

/// Where a request stands after an attempt.
pub fn after_attempt(attempt: &Attempt, verdict: AttemptVerdict) -> (progress: Progress)
    requires
        attempt.index < attempt.count,
    ensures
        progress@ == advanced(attempt.index as int, attempt.count as int, verdict@),
{
    match verdict.next {
        NextStep::TryNext => if attempt.index + 1 < attempt.count {
            Progress::Pending { index: attempt.index + 1, last_error: verdict.error }
        } else {
            Progress::Answered {
                error: exhausted_error(verdict.error),
                attempts: attempt.count as u16,
            }
        },
        NextStep::Answer(error) => Progress::Answered { error, attempts: verdict.attempt },
        NextStep::Deliver => Progress::Delivered { index: attempt.index },
    }
}

/// Where a request stands after an attempt that had an outcome; one that cannot
/// be made needs none.
pub open spec fn attempted(attempt: Attempt, outcome: AttemptOutcome) -> ProgressView {
    advanced(
        attempt.index as int,
        attempt.count as int,
        if attempt.cannot_compact() {
            attempt.uncompactable()
        } else {
            attempt.judged(outcome)
        },
    )
}

/// The attempts at a request come to an end: each either ends the request or
/// leads to the next provider, and the last one ends it.
pub proof fn law_every_request_is_answered(attempt: Attempt, outcome: AttemptOutcome)
    requires
        attempt.index < attempt.count,
    ensures
        attempted(attempt, outcome) matches ProgressView::Pending(index, error) ==> index
            == attempt.index + 1 && index < attempt.count && error is Some,
        attempt.index + 1 == attempt.count ==> !(attempted(attempt, outcome) is Pending),
{
}

/// A response that goes to the client is the only end that is not an error, and
/// it ends the request: no other provider is tried.
pub proof fn law_success_ends_a_request(attempt: Attempt, outcome: AttemptOutcome)
    requires
        attempt.index < attempt.count,
    ensures
        attempted(attempt, outcome) is Delivered <==> outcome is Delivered
            && !attempt.cannot_compact(),
        attempted(attempt, outcome) matches ProgressView::Delivered(index) ==> index
            == attempt.index,
{
}

/// An answer with an error status leads to the next provider wherever there is
/// one and fallback is on, whatever the status.
pub proof fn law_error_statuses_fall_back(attempt: Attempt, outcome: AttemptOutcome)
    requires
        attempt.index < attempt.count,
        attempt.has_next(),
        !attempt.cannot_compact(),
        outcome is ErrorStatus || outcome is NotConverted || outcome is SendFailed,
    ensures
        attempted(attempt, outcome) matches ProgressView::Pending(index, _) && index
            == attempt.index + 1,
{
}

/// A request that the provider calls too large, or does not take, or cannot
/// compact says nothing of the provider's health.
pub proof fn law_request_faults_leave_health_alone(attempt: Attempt, outcome: AttemptOutcome)
    requires
        attempt.index < attempt.count,
        outcome is ErrorStatus,
        outcome->ErrorStatus_status == 413 || outcome->ErrorStatus_status == 400
            || attempt.lacks_compact(outcome->ErrorStatus_status)
            || outcome->ErrorStatus_failure.kind is RequestRejected,
    ensures
        attempt.judged(outcome).health is Untouched,
{
}

/// Whether attempts are those at the providers of one route, in its order.
pub open spec fn of_one_route(attempts: Seq<Attempt>) -> bool {
    forall|i: int|
        0 <= i < attempts.len() ==> (#[trigger] attempts[i]).index == i && attempts[i].count
            == attempts.len()
}

/// How a request ends that is at one of its attempts, given what comes of each.
pub open spec fn ending(
    attempts: Seq<Attempt>,
    outcomes: Seq<AttemptOutcome>,
    from: int,
) -> ProgressView
    decreases attempts.len() - from,
{
    if !(0 <= from < attempts.len()) {
        begun(0)
    } else {
        let after = attempted(attempts[from], outcomes[from]);
        if after is Pending {
            ending(attempts, outcomes, from + 1)
        } else {
            after
        }
    }
}

proof fn lemma_ending(attempts: Seq<Attempt>, outcomes: Seq<AttemptOutcome>, from: int)
    requires
        of_one_route(attempts),
        0 <= from < attempts.len(),
    ensures
        match ending(attempts, outcomes, from) {
            ProgressView::Pending(_, _) => false,
            ProgressView::Answered(_, _) => true,
            ProgressView::Delivered(index) => {
                &&& from <= index < attempts.len()
                &&& outcomes[index] is Delivered
                &&& forall|i: int|
                    from <= i < index ==> attempted(
                        #[trigger] attempts[i],
                        outcomes[i],
                    ) is Pending
            },
        },
    decreases attempts.len() - from,
{
    let attempt = attempts[from];
    law_every_request_is_answered(attempt, outcomes[from]);
    law_success_ends_a_request(attempt, outcomes[from]);
    if attempted(attempt, outcomes[from]) is Pending {
        lemma_ending(attempts, outcomes, from + 1);
    }
}

/// A request with providers to try ends: with an error, or with the response of
/// the first provider that answers it, each provider before having led to the
/// next. No provider is tried after that.
pub proof fn law_requests_end_with_one_answer(
    attempts: Seq<Attempt>,
    outcomes: Seq<AttemptOutcome>,
)
    requires
        of_one_route(attempts),
        attempts.len() > 0,
    ensures
        match ending(attempts, outcomes, 0) {
            ProgressView::Pending(_, _) => false,
            ProgressView::Answered(_, _) => true,
            ProgressView::Delivered(index) => {
                &&& 0 <= index < attempts.len()
                &&& outcomes[index] is Delivered
                &&& forall|i: int|
                    0 <= i < index ==> attempted(#[trigger] attempts[i], outcomes[i]) is Pending
            },
        },
{
    lemma_ending(attempts, outcomes, 0);
}

/// A stream that fails before any output leads to the next provider exactly where
/// fallback is on, there is another provider, and the failure is one that may be
/// retried or one of authentication. Elsewhere the request is answered as a bad
/// gateway, with what the failure says.
pub proof fn law_failures_before_output_fall_back(
    attempt: Attempt,
    failure: FailureClassification,
    message: String,
)
    requires
        attempt.index < attempt.count,
        !(attempt.compact && attempt.chat_only),
    ensures
        ({
            let outcome = AttemptOutcome::PreflightFailed { failure, message };
            let verdict = attempt.judged(outcome);
            if attempt.fallback_enabled && attempt.index + 1 < attempt.count && (failure.retryable
                || failure.kind is AuthFailed) {
                &&& verdict.next is TryNext
                &&& verdict.event == Some(EventKind::Fallback)
                &&& attempted(attempt, outcome) == ProgressView::Pending(
                    attempt.index + 1,
                    Some(message@),
                )
            } else {
                &&& verdict.event is None
                &&& verdict.next matches NextStepView::Answer(error) && {
                    &&& error.status == 502
                    &&& error.message == message@
                    &&& attempt.index < u16::MAX ==> attempted(attempt, outcome)
                        == ProgressView::Answered(error, (attempt.index + 1) as u16)
                }
            }
        }),
{
}

/// An error status and a response that cannot be converted lead to the next
/// provider exactly where fallback is on and there is one; elsewhere the client
/// is given that status and what is said of it.
pub proof fn law_error_answers_keep_their_status(attempt: Attempt, outcome: AttemptOutcome)
    requires
        attempt.index < attempt.count,
        outcome is ErrorStatus || outcome is NotConverted,
    ensures
        ({
            let verdict = attempt.judged(outcome);
            let status = match outcome {
                AttemptOutcome::ErrorStatus { status, .. } => status,
                AttemptOutcome::NotConverted { status, .. } => status,
                _ => 0,
            };
            &&& verdict.status == Some(status)
            &&& verdict.error is Some
            &&& if attempt.fallback_enabled && attempt.index + 1 < attempt.count {
                verdict.next is TryNext && verdict.event == Some(EventKind::Fallback)
            } else {
                &&& verdict.event == Some(EventKind::Error)
                &&& verdict.next matches NextStepView::Answer(error) && error.status == status
                    && Some(error.message) == verdict.error
            }
        }),
{
}

/// A request that does not reach its provider goes on to the next one, and fails
/// as a bad gateway with the last error where there is none. The event says
/// whether another provider is expected to do better.
pub proof fn law_unsent_requests_go_on(
    attempt: Attempt,
    failure: FailureClassification,
    message: String,
)
    requires
        attempt.index < attempt.count,
        !(attempt.compact && attempt.chat_only),
    ensures
        ({
            let outcome = AttemptOutcome::SendFailed { failure, message };
            let verdict = attempt.judged(outcome);
            &&& verdict.status is None
            &&& verdict.event == Some(
                if attempt.fallback_enabled && attempt.index + 1 < attempt.count && (
                failure.retryable || failure.kind is AuthFailed) {
                    EventKind::Fallback
                } else {
                    EventKind::Error
                },
            )
            &&& match attempted(attempt, outcome) {
                ProgressView::Pending(index, error) => attempt.index + 1 < attempt.count && index
                    == attempt.index + 1 && error == verdict.error,
                ProgressView::Answered(error, _) => attempt.index + 1 >= attempt.count
                    && error.status == 502 && Some(error.message) == verdict.error,
                ProgressView::Delivered(_) => false,
            }
        }),
{
}

/// A response that goes to the client says that the provider is well, ends the
/// cooldown of the model that was asked for, and binds the session to the provider
/// unless the session was set to one. Nothing else binds a session or ends a
/// cooldown.
pub proof fn law_only_success_binds_sessions(attempt: Attempt, outcome: AttemptOutcome)
    requires
        attempt.index < attempt.count,
    ensures
        ({
            let verdict = attempt.judged(outcome);
            &&& verdict.bind_session <==> outcome is Delivered && attempt.session_known
                && !attempt.explicit_preference
            &&& verdict.clear_model_cooldown <==> outcome is Delivered && attempt.model_known
            &&& verdict.health is Healthy <==> outcome is Delivered
            &&& verdict.error is None <==> outcome is Delivered
            &&& verdict.next is Deliver <==> outcome is Delivered
            &&& attempt.index < u16::MAX ==> verdict.attempt == attempt.index + 1
            &&& outcome matches AttemptOutcome::Delivered { status } ==> verdict.status == Some(
                status,
            )
        }),
{
}

/// A failure is held against the model where it is about one that the request
/// names, against nobody where the request was rejected, and else against the
/// provider.
pub proof fn law_failures_are_held_against_their_cause(attempt: Attempt, outcome: AttemptOutcome)
    requires
        attempt.index < attempt.count,
        !(outcome is Delivered),
        outcome matches AttemptOutcome::ErrorStatus { status, .. } ==> status != 413 && status
            != 400 && !attempt.compact,
    ensures
        ({
            let kind = match outcome {
                AttemptOutcome::PreflightFailed { failure, .. } => failure.kind,
                AttemptOutcome::NotConverted { failure, .. } => failure.kind,
                AttemptOutcome::ErrorStatus { failure, .. } => failure.kind,
                AttemptOutcome::SendFailed { failure, .. } => failure.kind,
                AttemptOutcome::Delivered { .. } => HealthFailureKind::Unknown,
            };
            let health = attempt.judged(outcome).health;
            &&& health is Untouched <==> kind is RequestRejected
            &&& health is ModelFailed <==> attempt.model_known && (kind is RateLimited
                || kind is ModelMissing)
        }),
{
}

/// Every kind of failure has a code of its own.
pub proof fn law_codes_tell_failures_apart(one: HealthFailureKind, other: HealthFailureKind)
    ensures
        one != other ==> code_of(one) != code_of(other),
{
    reveal_strlit("upstream_auth_failed");
    reveal_strlit("upstream_rate_limited");
    reveal_strlit("upstream_quota_exhausted");
    reveal_strlit("upstream_model_not_found");
    reveal_strlit("upstream_request_rejected");
    reveal_strlit("upstream_network_error");
    reveal_strlit("upstream_error");
    reveal_strlit("upstream_unknown_error");
    assert("upstream_auth_failed"@.len() == 20);
    assert("upstream_rate_limited"@.len() == 21);
    assert("upstream_quota_exhausted"@.len() == 24);
    assert("upstream_model_not_found"@.len() == 24);
    assert("upstream_request_rejected"@.len() == 25);
    assert("upstream_network_error"@.len() == 22);
    assert("upstream_error"@.len() == 14);
    assert("upstream_unknown_error"@.len() == 22);
    assert("upstream_quota_exhausted"@[9] == 'q' && "upstream_model_not_found"@[9] == 'm');
    assert("upstream_network_error"@[9] == 'n' && "upstream_unknown_error"@[9] == 'u');
}

/// What is said of an ordinary error status names the status and ends with the
/// body of the answer on one line, and the reason why a token could not be
/// refreshed stands between them where there is one. What is said of a request
/// that is too large names the provider.
pub proof fn law_error_messages_hold_the_answer(
    attempt: Attempt,
    status: u16,
    status_text: Seq<char>,
    body: Seq<char>,
    refresh_error: Option<Seq<char>>,
)
    requires
        !attempt.compact,
    ensures
        ({
            let message = attempt.status_message(status, status_text, body, refresh_error);
            &&& status != 413 ==> ends(message, compacted(body))
            &&& status != 413 ==> begins(message, "上游返回 "@ + status_text)
            &&& status != 413 && refresh_error is Some ==> begins(
                message,
                "上游返回 "@ + status_text + ("；"@ + refresh_error->0),
            )
            &&& status == 413 ==> begins(message, "上游 Provider "@ + attempt.provider_name@)
        }),
{
    let message = attempt.status_message(status, status_text, body, refresh_error);
    let name = "上游 Provider "@ + attempt.provider_name@;
    let opening = "上游返回 "@ + status_text;
    if status == 413 {
        assert(message.take(name.len() as int) =~= name);
    } else {
        assert(message.take(opening.len() as int) =~= opening);
        assert(message.skip(message.len() - compacted(body).len()) =~= compacted(body));
        if refresh_error is Some {
            let longer = opening + ("；"@ + refresh_error->0);
            assert(message.take(longer.len() as int) =~= longer);
        }
    }
}

/// A client that is limited to some models is refused any other, before any
/// provider is looked at, and is shown its own where it asks for a list; a client
/// without a limit, and one that is not known, is refused none.
pub proof fn law_clients_are_held_to_their_models(
    method: Seq<char>,
    path: Seq<char>,
    name: Seq<char>,
    allowed: Seq<Seq<char>>,
    model: Option<Seq<char>>,
)
    requires
        path != "/"@,
        path != "/v1"@,
    ensures
        ({
            let answer = local_answer_of(method, path, Some((name, allowed)), model);
            &&& answer is Refused <==> allowed.len() > 0 && model is Some && !allowed.contains(
                model->0,
            )
            &&& answer matches LocalAnswerView::Refused(error) ==> error.status == 403
            &&& answer matches LocalAnswerView::Models(models) ==> models == allowed
                && models.len() > 0
            &&& model is None && allowed.len() > 0 && method == "GET"@ && path == "/v1/models"@
                ==> answer is Models
            &&& allowed.len() == 0 ==> answer is NotLocal
            &&& local_answer_of(method, path, None, model) is NotLocal
        }),
{
}

/// What is wrong with the request itself is told apart from what is wrong with
/// the provider: a request that is too large, one that the provider does not take
/// and one that it cannot compact have codes of their own.
pub proof fn law_faults_of_requests_have_their_codes(
    attempt: Attempt,
    status: u16,
    kind: HealthFailureKind,
)
    ensures
        ({
            let code = attempt.status_code(status, kind);
            &&& status == 413 ==> code != attempt.status_code(400, kind) && code != code_of(kind)
            &&& status == 400 ==> code != code_of(kind)
            &&& attempt.compact && (status == 404 || status == 405 || status == 501) ==> code
                != code_of(kind) && code != attempt.status_code(413, kind) && code
                != attempt.status_code(400, kind)
            &&& !attempt.compact && status != 413 && status != 400 ==> code == code_of(kind)
        }),
{
    reveal_strlit("upstream_auth_failed");
    reveal_strlit("upstream_rate_limited");
    reveal_strlit("upstream_quota_exhausted");
    reveal_strlit("upstream_model_not_found");
    reveal_strlit("upstream_request_rejected");
    reveal_strlit("upstream_network_error");
    reveal_strlit("upstream_error");
    reveal_strlit("upstream_unknown_error");
    reveal_strlit("upstream_request_too_large");
    reveal_strlit("upstream_request_incompatible");
    reveal_strlit("responses_compact_unsupported");
    assert("upstream_auth_failed"@.len() == 20);
    assert("upstream_rate_limited"@.len() == 21);
    assert("upstream_quota_exhausted"@.len() == 24);
    assert("upstream_model_not_found"@.len() == 24);
    assert("upstream_request_rejected"@.len() == 25);
    assert("upstream_network_error"@.len() == 22);
    assert("upstream_error"@.len() == 14);
    assert("upstream_unknown_error"@.len() == 22);
    assert("upstream_request_too_large"@.len() == 26);
    assert("upstream_request_incompatible"@.len() == 29);
    assert("responses_compact_unsupported"@.len() == 29);
    assert("upstream_quota_exhausted"@[9] != "upstream_model_not_found"@[9]);
    assert("upstream_network_error"@[9] != "upstream_unknown_error"@[9]);
    assert("upstream_request_incompatible"@[0] != "responses_compact_unsupported"@[0]);
}

/// A request with providers begins with the first of them; without any it is
/// answered as unavailable.
pub proof fn law_requests_begin_with_the_first_provider(count: int)
    ensures
        count > 0 ==> begun(count) == ProgressView::Pending(0, None),
        count <= 0 ==> (begun(count) matches ProgressView::Answered(error, attempts) && error.status
            == 503 && attempts == 0),
{
}

/// A probe of the relay is answered whoever asks, and only at its root.
pub proof fn law_probes_are_answered(
    method: Seq<char>,
    path: Seq<char>,
    client: Option<(Seq<char>, Seq<Seq<char>>)>,
    model: Option<Seq<char>>,
)
    ensures
        local_answer_of(method, path, client, model) is Root <==> method == "GET"@ && (path == "/"@
            || path == "/v1"@),
{
}

/// A list of models is answered from what the providers name, where they name any:
/// each model once, and none that no provider names.
pub proof fn law_catalogs_hold_what_providers_name(
    method: Seq<char>,
    path: Seq<char>,
    model_maps: Seq<Seq<Seq<char>>>,
    model: Seq<char>,
)
    ensures
        catalog_of(method, path, model_maps) matches Some(models) ==> {
            &&& method == "GET"@ && path == "/v1/models"@
            &&& models.contains(model) <==> models_named(
                model_maps,
                model_maps.len() as int,
            ).contains(model)
            &&& crate::names::ascending(models)
        },
{
    let named = models_named(model_maps, model_maps.len() as int);
    crate::names::law_names_in_order_are_kept(named, model);
    crate::names::law_names_in_order_ascend(named);
}

} // verus!
