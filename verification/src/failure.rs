//! Failures that upstream servers report inside a successful response.
use crate::json::{
    at, either, get_at, render_json, rendered, str_view, text_at, text_in, Json, JsonView,
};
use crate::text::{cut, cut_to, same, string_view};
use vstd::prelude::*;
use vstd::string::*;

verus! {

/// How many scalar values of an upstream error message are kept.
pub const MAX_UPSTREAM_ERROR_MESSAGE_CHARS: usize = 512;

/// The message of an error value: `message`, `error.message` or
/// `response.error.message`, and the JSON text of the value where none is there.
pub open spec fn error_message(value: JsonView) -> Seq<char> {
    match either(
        value.get_text("message"@),
        either(
            text_in(at(value.get("error"@), "message"@)),
            text_in(at(at(value.get("response"@), "error"@), "message"@)),
        ),
    ) {
        Some(message) => message,
        None => rendered(value),
    }
}

/// The message of an error value, as the upstream server wrote it.
pub fn json_error_message(value: &Json) -> (message: String)
    ensures
        message@ == error_message(value@),
{
    if let Some(message) = value.get_text("message") {
        return message.to_owned();
    }
    if let Some(message) = text_at(get_at(value.get("error"), "message")) {
        return message.to_owned();
    }
    if let Some(message) = text_at(get_at(get_at(value.get("response"), "error"), "message")) {
        return message.to_owned();
    }
    render_json(value)
}

/// What is kept of an error message from which secrets have been removed.
pub open spec fn kept_message(redacted: Seq<char>) -> Seq<char> {
    cut(redacted, MAX_UPSTREAM_ERROR_MESSAGE_CHARS as int)
}

/// What is kept of an error message, given it without the secrets in it.
pub fn compact_json_error(redacted: &str) -> (message: String)
    ensures
        message@ == kept_message(redacted@),
{
    cut_to(redacted, MAX_UPSTREAM_ERROR_MESSAGE_CHARS)
}

/// The message of the failure that a value reports: an `error` that is not
/// null, the status `failed`, or the type of a failure event.
pub open spec fn failure_message(value: JsonView) -> Option<Seq<char>> {
    if value.get("error"@) matches Some(error) && error !is Null {
        Some(error_message(value.get("error"@)->0))
    } else if value.get_text("status"@) == Some("failed"@) || value.get_text("type"@) == Some(
        "error"@,
    ) || value.get_text("type"@) == Some("response.failed"@) {
        Some(error_message(value))
    } else {
        None
    }
}

/// Whether a text that may be missing is the given one.
pub fn is_text(value: Option<&str>, expected: &str) -> (equal: bool)
    ensures
        equal == (str_view(value) == Some(expected@)),
{
    match value {
        Some(text) => same(text, expected),
        None => false,
    }
}

/// The message of the failure that a value reports, as the upstream server
/// wrote it.
pub fn reported_failure(value: &Json) -> (message: Option<String>)
    ensures
        string_view(message) == failure_message(value@),
{
    if let Some(error) = value.get("error") {
        if !error.is_null() {
            return Some(json_error_message(error));
        }
    }
    if is_text(value.get_text("status"), "failed") || is_text(value.get_text("type"), "error")
        || is_text(value.get_text("type"), "response.failed") {
        return Some(json_error_message(value));
    }
    None
}

/// The message that is kept of the failure that a value reports, given the
/// message of `reported_failure` without the secrets in it.
pub fn semantic_failure_message(value: &Json, redacted: &str) -> (message: Option<String>)
    ensures
        string_view(message) == (match failure_message(value@) {
            Some(_) => Some(kept_message(redacted@)),
            None => None,
        }),
{
    match reported_failure(value) {
        Some(_) => Some(compact_json_error(redacted)),
        None => None,
    }
}

/// Why a response is no good.
#[derive(Debug)]
pub enum ResponseFault {
    /// The upstream server said so; this is its message.
    Reported(String),
    /// The relay found out.
    Found(String),
}

/// What a `ResponseFault` says.
#[verifier::ext_equal]
pub enum FaultView {
    Reported(Seq<char>),
    Found(Seq<char>),
}

impl View for ResponseFault {
    type V = FaultView;

    open spec fn view(&self) -> FaultView {
        match *self {
            ResponseFault::Reported(message) => FaultView::Reported(message@),
            ResponseFault::Found(message) => FaultView::Found(message@),
        }
    }
}

impl FaultView {
    /// What is said of the fault, given what the server said without the secrets
    /// in it.
    pub open spec fn told(self, redacted: Seq<char>) -> Seq<char> {
        match self {
            FaultView::Reported(_) => kept_message(redacted),
            FaultView::Found(message) => message,
        }
    }
}

impl ResponseFault {
    /// What the server said, where it did.
    pub fn reported(&self) -> (message: Option<&str>)
        ensures
            str_view(message) == (match self@ {
                FaultView::Reported(message) => Some(message),
                FaultView::Found(_) => None,
            }),
    {
        match self {
            ResponseFault::Reported(message) => Some(message.as_str()),
            ResponseFault::Found(_) => None,
        }
    }

    /// What is said of the fault, given what the server said without the secrets
    /// in it.
    pub fn told_as(&self, redacted: &str) -> (message: String)
        ensures
            message@ == self@.told(redacted@),
    {
        match self {
            ResponseFault::Reported(_) => compact_json_error(redacted),
            ResponseFault::Found(message) => message.clone(),
        }
    }
}

/// A value reports a failure exactly where it holds an error that is not null,
/// says that it has failed, or is the event of a failure. The message is the one
/// that the error names.
pub proof fn law_failures_are_told_by_what_values_say(value: JsonView, message: Seq<char>)
    ensures
        failure_message(value) is Some <==> (value.get("error"@) is Some && value.get("error"@)
            != Some(JsonView::Null)) || value.get_text("status"@) == Some("failed"@)
            || value.get_text("type"@) == Some("error"@) || value.get_text("type"@) == Some(
            "response.failed"@,
        ),
        (value.get("error"@) matches Some(error) && error.get_text("message"@) == Some(message))
            ==> failure_message(value) == Some(message),
        value.get("error"@) is None && value.get_text("type"@) == Some("error"@) && value.get_text(
            "message"@,
        ) == Some(message) ==> failure_message(value) == Some(message),
        value.get("error"@) is None && value.get("message"@) is None && value.get_text("type"@)
            == Some("response.failed"@) && text_in(
            at(at(value.get("response"@), "error"@), "message"@),
        ) == Some(message) ==> failure_message(value) == Some(message),
{
}

} // verus!
