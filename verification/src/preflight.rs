//! What may be passed on of a stream before it is committed to.
//!
//! Until an upstream stream shows visible output or its end, another provider
//! can still take the request over. These functions decide from the bytes that
//! have arrived whether to read on, to commit, or to give the stream up.
use crate::failure::{
    compact_json_error, failure_message, is_text, kept_message, reported_failure,
};
use crate::json::{
    at, get_at, items_in, parse_json, parsed_json, seen, str_view, text_at, text_in, views, Json,
    JsonFault, JsonView,
};
use crate::sse::{
    begins_event, begins_field_name, blank_prefix, could_start_sse_frame, event_data, event_data_of,
    first_boundary, frames, law_boundary_is_stable, law_data_of_events_is_read,
    lemma_boundary_bounds, looks_like_sse, lossy_text, next_sse_block_boundary, one_line,
    skip_blank, sse_frame_limit_reached, utf8_lossy, MAX_SSE_FRAME_BYTES,
};
use crate::text::{begins, concat2, concat3, contains, decimal, holds, numeral, same, white_space};
use vstd::prelude::*;
use vstd::string::*;
use vstd::utf8::*;

verus! {

/// How many bytes of a stream are looked at before it is committed to.
pub const MAX_STREAM_PREFLIGHT_BYTES: usize = 8388608;

/// What has to be done with an upstream response before it reaches the client.
#[derive(Debug, Clone, Copy, PartialEq, Eq, Structural)]
pub enum ResponseTransform {
    Passthrough,
    ChatCompletionsToResponses,
    OfficialCodexStreamToResponse,
}

/// Why a stream is given up before any of it was passed on.
#[derive(Debug)]
pub enum StreamPreflightError {
    Network(String),
    Protocol(String),
    Semantic(String),
}

/// What a `StreamPreflightError` says.
#[verifier::ext_equal]
pub enum PreflightErrorView {
    Network(Seq<char>),
    Protocol(Seq<char>),
    Semantic(Seq<char>),
}

impl View for StreamPreflightError {
    type V = PreflightErrorView;

    open spec fn view(&self) -> PreflightErrorView {
        match *self {
            StreamPreflightError::Network(message) => PreflightErrorView::Network(message@),
            StreamPreflightError::Protocol(message) => PreflightErrorView::Protocol(message@),
            StreamPreflightError::Semantic(message) => PreflightErrorView::Semantic(message@),
        }
    }
}

impl StreamPreflightError {
    /// What the server said, where it did.
    pub fn reported(&self) -> (message: Option<&str>)
        ensures
            str_view(message) == (match self@ {
                PreflightErrorView::Semantic(message) => Some(message),
                _ => None,
            }),
    {
        match self {
            StreamPreflightError::Semantic(message) => Some(message.as_str()),
            _ => None,
        }
    }

    /// The failure as it is kept, given what the server said without the secrets
    /// in it.
    pub fn redacted_as(self, redacted: &str) -> (error: StreamPreflightError)
        ensures
            error@ == (match self@ {
                PreflightErrorView::Semantic(_) => PreflightErrorView::Semantic(
                    kept_message(redacted@),
                ),
                other => other,
            }),
    {
        match self {
            StreamPreflightError::Semantic(_) => StreamPreflightError::Semantic(
                compact_json_error(redacted),
            ),
            other => other,
        }
    }

    /// The text by which the failure is classified.
    pub fn classification_text(&self) -> (text: String)
        ensures
            text@ == (match self@ {
                PreflightErrorView::Network(message) => "upstream network failure: "@ + message,
                PreflightErrorView::Protocol(message) => "upstream semantic failure: "@ + message,
                PreflightErrorView::Semantic(message) => "upstream semantic failure: "@ + message,
            }),
    {
        match self {
            StreamPreflightError::Network(message) => concat2("upstream network failure: ", message),
            StreamPreflightError::Protocol(message) => concat2(
                "upstream semantic failure: ",
                message,
            ),
            StreamPreflightError::Semantic(message) => concat2(
                "upstream semantic failure: ",
                message,
            ),
        }
    }

    /// The failure as it is reported.
    pub fn message_text(&self) -> (text: String)
        ensures
            text@ == (match self@ {
                PreflightErrorView::Network(message) => "stream 输出前上游网络失败："@ + message,
                PreflightErrorView::Protocol(message) => "stream 输出前上游响应无效："@ + message,
                PreflightErrorView::Semantic(message) => "stream 输出前上游语义失败："@ + message,
            }),
    {
        match self {
            StreamPreflightError::Network(message) => concat2(
                "stream 输出前上游网络失败：",
                message,
            ),
            StreamPreflightError::Protocol(message) => concat2(
                "stream 输出前上游响应无效：",
                message,
            ),
            StreamPreflightError::Semantic(message) => concat2(
                "stream 输出前上游语义失败：",
                message,
            ),
        }
    }
}

/// Whether a value has content: no null, and no empty text, array or object.
pub open spec fn nonempty(value: JsonView) -> bool {
    match value {
        JsonView::Null => false,
        JsonView::Text(text) => text.len() > 0,
        JsonView::Array(items) => items.len() > 0,
        JsonView::Object(fields) => fields.len() > 0,
        JsonView::Bool(_) => true,
        JsonView::Number(_) => true,
    }
}

/// Whether a value that may be missing is there and has content.
pub open spec fn has_content(value: Option<JsonView>) -> bool {
    value matches Some(value) && nonempty(value)
}

/// Whether a part of a message shows anything to the user.
pub open spec fn visible_part(value: JsonView) -> bool
    decreases value, 0int,
{
    match value {
        JsonView::Text(text) => text.len() > 0,
        JsonView::Array(parts) => any_visible(parts, parts.len() as int),
        JsonView::Object(fields) => {
            &&& value.get_text("type"@) != Some("reasoning"@)
            &&& has_content(value.get("text"@)) || has_content(value.get("output_text"@))
                || has_content(value.get("content"@)) || has_content(value.get("arguments"@))
        },
        _ => false,
    }
}

/// Whether one of the first parts of a list shows anything to the user.
pub open spec fn any_visible(parts: Seq<JsonView>, count: int) -> bool
    decreases parts, count,
{
    0 < count <= parts.len() && (any_visible(parts, count - 1) || visible_part(parts[count - 1]))
}

/// Whether a part that may be missing shows anything to the user.
pub open spec fn shows(value: Option<JsonView>) -> bool {
    value matches Some(value) && visible_part(value)
}

/// Whether an array that may be missing is there and has items.
pub open spec fn has_items(value: Option<JsonView>) -> bool {
    items_in(value) matches Some(items) && items.len() > 0
}

/// Whether an output item shows anything to the user.
pub open spec fn visible_item(item: JsonView) -> bool {
    let kind = item.get_text("type"@);
    if kind == Some("reasoning"@) {
        false
    } else if kind == Some("function_call"@) || kind == Some("custom_tool_call"@) || kind == Some(
        "tool_search_call"@,
    ) {
        true
    } else if kind == Some("message"@) {
        shows(item.get("content"@))
    } else {
        shows(item.get("content"@)) || has_content(item.get("arguments"@))
    }
}

/// The member `0` of a value: the first item of an array, or the field `0` of
/// an object.
pub open spec fn first_member(value: Option<JsonView>) -> Option<JsonView> {
    match value {
        Some(JsonView::Array(items)) => if items.len() > 0 {
            Some(items[0])
        } else {
            None
        },
        Some(value) => value.get("0"@),
        None => None,
    }
}

/// The first choice of a chat completion.
pub open spec fn first_choice(value: JsonView) -> Option<JsonView> {
    first_member(value.get("choices"@))
}

/// Whether an event of this type shows anything to the user.
pub open spec fn visible_event(value: JsonView, kind: Seq<char>) -> bool {
    let choice = first_choice(value);
    let delta = at(choice, "delta"@);
    let message = at(choice, "message"@);
    let item_shows = value.get("item"@) matches Some(item) && visible_item(item);
    if (text_in(at(delta, "content"@)) matches Some(content) && content.len() > 0) || has_items(
        at(delta, "tool_calls"@),
    ) || shows(at(message, "content"@)) || has_items(at(message, "tool_calls"@)) {
        true
    } else if kind == "response.output_item.added"@ || kind == "response.output_item.done"@ {
        item_shows
    } else if kind == "response.content_part.added"@ {
        shows(value.get("part"@))
    } else if holds(kind, "function_call"@) || holds(kind, "custom_tool"@) {
        has_content(value.get("delta"@)) || item_shows
    } else {
        kind == "response.output_text.delta"@ && (value.get_text("delta"@) matches Some(delta)
            && delta.len() > 0)
    }
}

/// The type of an event, empty where it has none.
pub open spec fn event_kind(value: JsonView) -> Seq<char> {
    match value.get_text("type"@) {
        Some(kind) => kind,
        None => seq![],
    }
}

/// What an event says about its stream.
#[derive(Debug)]
pub enum StreamPreflight {
    Continue,
    Reasoning,
    OutputStarted,
    Terminal,
    Failure(String),
}

/// What a `StreamPreflight` says.
#[verifier::ext_equal]
pub enum PreflightView {
    Continue,
    Reasoning,
    OutputStarted,
    Terminal,
    Failure(Seq<char>),
}

impl View for StreamPreflight {
    type V = PreflightView;

    open spec fn view(&self) -> PreflightView {
        match *self {
            StreamPreflight::Continue => PreflightView::Continue,
            StreamPreflight::Reasoning => PreflightView::Reasoning,
            StreamPreflight::OutputStarted => PreflightView::OutputStarted,
            StreamPreflight::Terminal => PreflightView::Terminal,
            StreamPreflight::Failure(message) => PreflightView::Failure(message@),
        }
    }
}

/// What an event says about its stream.
pub open spec fn event_verdict(value: JsonView) -> PreflightView {
    let kind = event_kind(value);
    if failure_message(value) matches Some(message) {
        PreflightView::Failure(failure_message(value)->0)
    } else if kind == "response.completed"@ || kind == "response.incomplete"@ {
        PreflightView::Terminal
    } else if at(first_choice(value), "finish_reason"@) matches Some(reason) && reason !is Null {
        PreflightView::Terminal
    } else if holds(kind, "reasoning"@) || text_in(at(value.get("item"@), "type"@)) == Some(
        "reasoning"@,
    ) {
        PreflightView::Reasoning
    } else if visible_event(value, kind) {
        PreflightView::OutputStarted
    } else {
        PreflightView::Continue
    }
}

/// Whether a value has content.
fn nonempty_json_value(value: &Json) -> (found: bool)
    ensures
        found == nonempty(value@),
{
    match value {
        Json::Null => false,
        Json::Text(text) => !text.as_str().is_empty(),
        Json::Array(items) => items.len() > 0,
        Json::Object(fields) => fields.len() > 0,
        Json::Bool(_) => true,
        Json::Number(_) => true,
    }
}

fn has_nonempty(value: Option<&Json>) -> (found: bool)
    ensures
        found == has_content(seen(value)),
{
    match value {
        Some(value) => nonempty_json_value(value),
        None => false,
    }
}

/// What some of the first parts show, more of them show too.
proof fn lemma_any_visible(parts: Seq<JsonView>, count: int, more: int)
    requires
        any_visible(parts, count),
        count <= more <= parts.len(),
    ensures
        any_visible(parts, more),
    decreases more,
{
    if count < more {
        lemma_any_visible(parts, count, more - 1);
    }
}

/// Whether a part of a message shows anything to the user.
pub fn content_part_has_visible_output(value: &Json) -> (visible: bool)
    ensures
        visible == visible_part(value@),
    decreases *value,
{
    if let Some(parts) = value.as_array() {
        let ghost all = views(parts@);
        let mut index: usize = 0;
        while index < parts.len()
            invariant
                index <= parts@.len(),
                *value == Json::Array(*parts),
                all == views(parts@),
                value@ == JsonView::Array(all),
                !any_visible(all, index as int),
            decreases parts@.len() - index,
        {
            assert(decreases_to!(*value => value->Array_0));
            assert(decreases_to!(*parts => parts@));
            assert(decreases_to!(parts@ => parts@[index as int]));
            assert(all[index as int] == parts@[index as int]@);
            if content_part_has_visible_output(&parts[index]) {
                assert(0 <= index < all.len() && visible_part(all[index as int]));
                proof {
                    lemma_any_visible(all, index + 1, all.len() as int);
                }
                return true;
            }
            index += 1;
        }
        return false;
    }
    match value {
        Json::Text(text) => !text.as_str().is_empty(),
        Json::Object(_) => {
            if is_text(value.get_text("type"), "reasoning") {
                return false;
            }
            has_nonempty(value.get("text")) || has_nonempty(value.get("output_text"))
                || has_nonempty(value.get("content")) || has_nonempty(value.get("arguments"))
        },
        _ => false,
    }
}

fn part_shows(value: Option<&Json>) -> (visible: bool)
    ensures
        visible == shows(seen(value)),
{
    match value {
        Some(value) => content_part_has_visible_output(value),
        None => false,
    }
}

fn array_has_items(value: Option<&Json>) -> (found: bool)
    ensures
        found == has_items(seen(value)),
{
    match value {
        Some(value) => match value.as_array() {
            Some(items) => items.len() > 0,
            None => false,
        },
        None => false,
    }
}

/// Whether a text that may be missing is there and is not empty.
pub fn has_text(value: Option<&str>) -> (found: bool)
    ensures
        found == (str_view(value) matches Some(text) && text.len() > 0),
{
    match value {
        Some(text) => !text.is_empty(),
        None => false,
    }
}

/// Whether an output item shows anything to the user.
pub fn response_item_has_visible_output(item: &Json) -> (visible: bool)
    ensures
        visible == visible_item(item@),
{
    let kind = item.get_text("type");
    if is_text(kind, "reasoning") {
        false
    } else if is_text(kind, "function_call") || is_text(kind, "custom_tool_call") || is_text(
        kind,
        "tool_search_call",
    ) {
        true
    } else if is_text(kind, "message") {
        part_shows(item.get("content"))
    } else {
        part_shows(item.get("content")) || has_nonempty(item.get("arguments"))
    }
}

/// Whether a complete chat message shows anything to the user.
pub fn message_has_visible_output(message: &Json) -> (visible: bool)
    ensures
        visible == (shows(message@.get("content"@)) || has_items(message@.get("tool_calls"@))),
{
    part_shows(message.get("content")) || array_has_items(message.get("tool_calls"))
}

/// The member `0` of a value.
pub fn first_member_of<'a>(value: Option<&'a Json>) -> (member: Option<&'a Json>)
    ensures
        seen(member) == first_member(seen(value)),
{
    match value {
        None => None,
        Some(value) => match value.as_array() {
            Some(items) => {
                if items.len() > 0 {
                    assert(views(items@)[0] == items@[0]@);
                    Some(&items[0])
                } else {
                    None
                }
            },
            None => value.get("0"),
        },
    }
}

/// Whether an event of this type shows anything to the user.
pub fn has_visible_stream_output(value: &Json, event_type: &str) -> (visible: bool)
    ensures
        visible == visible_event(value@, event_type@),
{
    let choice = first_member_of(value.get("choices"));
    let delta = get_at(choice, "delta");
    if has_text(text_at(get_at(delta, "content"))) || array_has_items(get_at(delta, "tool_calls")) {
        return true;
    }
    if let Some(message) = get_at(choice, "message") {
        if message_has_visible_output(message) {
            return true;
        }
    }
    let item_shows = match value.get("item") {
        Some(item) => response_item_has_visible_output(item),
        None => false,
    };
    if same(event_type, "response.output_item.added") || same(
        event_type,
        "response.output_item.done",
    ) {
        return item_shows;
    }
    if same(event_type, "response.content_part.added") {
        return part_shows(value.get("part"));
    }
    if contains(event_type, "function_call") || contains(event_type, "custom_tool") {
        return has_nonempty(value.get("delta")) || item_shows;
    }
    same(event_type, "response.output_text.delta") && has_text(value.get_text("delta"))
}

/// The type of an event.
pub fn event_type_of(value: &Json) -> (kind: &str)
    ensures
        kind@ == event_kind(value@),
{
    match value.get_text("type") {
        Some(kind) => kind,
        None => {
            proof {
                reveal_strlit("");
                assert(""@ =~= seq![]);
            }
            ""
        },
    }
}

/// Whether an event shows anything to the user.
pub fn response_event_has_visible_output(value: &Json) -> (visible: bool)
    ensures
        visible == visible_event(value@, event_kind(value@)),
{
    has_visible_stream_output(value, event_type_of(value))
}

/// What an event says about its stream.
pub fn preflight_event(value: &Json) -> (verdict: StreamPreflight)
    ensures
        verdict@ == event_verdict(value@),
{
    if let Some(message) = reported_failure(value) {
        return StreamPreflight::Failure(message);
    }
    let event_type = event_type_of(value);
    if same(event_type, "response.completed") || same(event_type, "response.incomplete") {
        return StreamPreflight::Terminal;
    }
    if let Some(reason) = get_at(first_member_of(value.get("choices")), "finish_reason") {
        if !reason.is_null() {
            return StreamPreflight::Terminal;
        }
    }
    if contains(event_type, "reasoning") || is_text(
        text_at(get_at(value.get("item"), "type")),
        "reasoning",
    ) {
        return StreamPreflight::Reasoning;
    }
    if has_visible_stream_output(value, event_type) {
        return StreamPreflight::OutputStarted;
    }
    StreamPreflight::Continue
}

/// What an event block says about its stream. A block without data, the mark
/// `[DONE]` and data that is not JSON say nothing.
pub open spec fn block_verdict(block: Seq<char>) -> PreflightView {
    let data = event_data(block, true);
    if data.len() == 0 || data == "[DONE]"@ {
        PreflightView::Continue
    } else {
        match parsed_json(encode_utf8(data)) {
            Ok(value) => event_verdict(value),
            Err(_) => PreflightView::Continue,
        }
    }
}

/// What an event block says about its stream.
pub fn preflight_sse_block(block: &str) -> (verdict: StreamPreflight)
    ensures
        verdict@ == block_verdict(block@),
{
    let data = event_data_of(block, true);
    if data.as_str().is_empty() || same(&data, "[DONE]") {
        return StreamPreflight::Continue;
    }
    match parse_json(data.as_str().as_bytes()) {
        Ok(value) => preflight_event(&value),
        Err(_) => StreamPreflight::Continue,
    }
}

/// How far looking at a stream has come.
#[derive(Debug, Clone, Copy, PartialEq, Eq, Structural)]
pub enum StreamPreflightProgress {
    Continue,
    Ready,
    FrameTooLarge,
}

/// What looking at the event blocks of a buffer gives: what is left of the
/// buffer, and the progress or the message of a failure.
pub open spec fn scan_blocks(
    bytes: Seq<u8>,
    hold_reasoning: bool,
    hold_output: bool,
    end_of_stream: bool,
) -> (Seq<u8>, Result<StreamPreflightProgress, Seq<char>>)
    decreases bytes.len(),
{
    match first_boundary(bytes, end_of_stream) {
        None => (bytes, Ok(StreamPreflightProgress::Continue)),
        Some((end, drained)) => if end >= MAX_SSE_FRAME_BYTES {
            (bytes, Ok(StreamPreflightProgress::FrameTooLarge))
        } else if !(0 < drained <= bytes.len()) {
            (bytes, Ok(StreamPreflightProgress::Continue))
        } else {
            let rest = bytes.skip(drained);
            let verdict = block_verdict(utf8_lossy(bytes.take(end)));
            if verdict is Continue || (verdict is Reasoning && hold_reasoning) || (
            verdict is OutputStarted && hold_output) {
                scan_blocks(rest, hold_reasoning, hold_output, end_of_stream)
            } else if verdict is Failure {
                (rest, Err(verdict->Failure_0))
            } else {
                (rest, Ok(StreamPreflightProgress::Ready))
            }
        },
    }
}

/// Removes the first bytes of a buffer.
pub fn drain_front(buffer: &mut Vec<u8>, count: usize)
    requires
        count <= old(buffer)@.len(),
    ensures
        final(buffer)@ == old(buffer)@.skip(count as int),
{
    let mut rest = buffer.split_off(count);
    core::mem::swap(buffer, &mut rest);
    assert(buffer@ =~= old(buffer)@.skip(count as int));
}

/// The progress, or the message of a failure.
pub open spec fn progress_view(
    result: Result<StreamPreflightProgress, StreamPreflightError>,
) -> Result<StreamPreflightProgress, PreflightErrorView> {
    match result {
        Ok(progress) => Ok(progress),
        Err(error) => Err(error@),
    }
}

/// The outcome of looking at event blocks, a failure being one that the
/// upstream server reported.
pub open spec fn semantic_outcome(
    outcome: Result<StreamPreflightProgress, Seq<char>>,
) -> Result<StreamPreflightProgress, PreflightErrorView> {
    match outcome {
        Ok(progress) => Ok(progress),
        Err(message) => Err(PreflightErrorView::Semantic(message)),
    }
}

/// Looks at the event blocks of a buffer, and takes those it has looked at out
/// of it.
pub fn preflight_sse_blocks(
    inspection: &mut Vec<u8>,
    hold_reasoning_for_fallback: bool,
    hold_output_for_fallback: bool,
    end_of_stream: bool,
) -> (result: Result<StreamPreflightProgress, StreamPreflightError>)
    ensures
        ({
            let (rest, outcome) = scan_blocks(
                old(inspection)@,
                hold_reasoning_for_fallback,
                hold_output_for_fallback,
                end_of_stream,
            );
            &&& final(inspection)@ == rest
            &&& progress_view(result) == semantic_outcome(outcome)
        }),
{
    loop
        invariant
            scan_blocks(
                old(inspection)@,
                hold_reasoning_for_fallback,
                hold_output_for_fallback,
                end_of_stream,
            ) == scan_blocks(
                inspection@,
                hold_reasoning_for_fallback,
                hold_output_for_fallback,
                end_of_stream,
            ),
        decreases inspection@.len(),
    {
        match next_sse_block_boundary(inspection.as_slice(), end_of_stream) {
            None => {
                return Ok(StreamPreflightProgress::Continue);
            },
            Some(boundary) => {
                if sse_frame_limit_reached(boundary.block_end, MAX_SSE_FRAME_BYTES) {
                    return Ok(StreamPreflightProgress::FrameTooLarge);
                }
                let block = lossy_text(
                    vstd::slice::slice_subrange(inspection.as_slice(), 0, boundary.block_end),
                );
                assert(inspection@.subrange(0, boundary.block_end as int) =~= inspection@.take(
                    boundary.block_end as int,
                ));
                drain_front(inspection, boundary.drain_len);
                match preflight_sse_block(&block) {
                    StreamPreflight::Continue => {},
                    StreamPreflight::Reasoning => {
                        if !hold_reasoning_for_fallback {
                            return Ok(StreamPreflightProgress::Ready);
                        }
                    },
                    StreamPreflight::OutputStarted => {
                        if !hold_output_for_fallback {
                            return Ok(StreamPreflightProgress::Ready);
                        }
                    },
                    StreamPreflight::Terminal => {
                        return Ok(StreamPreflightProgress::Ready);
                    },
                    StreamPreflight::Failure(message) => {
                        return Err(StreamPreflightError::Semantic(message));
                    },
                }
            },
        }
    }
}

/// The message about an event block that has reached the limit.
pub open spec fn oversized_message() -> Seq<char> {
    "上游 SSE 单帧达到 "@ + numeral((MAX_SSE_FRAME_BYTES / 1048576) as nat, 10)
        + " MiB 本地检查上限"@
}

fn oversized_text() -> (message: String)
    ensures
        message@ == oversized_message(),
{
    concat3(
        "上游 SSE 单帧达到 ",
        &decimal((MAX_SSE_FRAME_BYTES / 1048576) as u64),
        " MiB 本地检查上限",
    )
}

/// Whether a body of server-sent events that has arrived in full can be passed
/// on, and why not.
pub open spec fn buffered_outcome(body: Seq<u8>, hold: bool) -> Result<(), PreflightErrorView> {
    match scan_blocks(body, hold, hold, true).1 {
        Ok(StreamPreflightProgress::Ready) => Ok(()),
        Ok(StreamPreflightProgress::Continue) => Err(
            PreflightErrorView::Protocol("上游 SSE 在输出内容前结束"@),
        ),
        Ok(StreamPreflightProgress::FrameTooLarge) => Err(
            PreflightErrorView::Protocol(oversized_message()),
        ),
        Err(message) => Err(PreflightErrorView::Semantic(message)),
    }
}

/// A success, or what the error says.
pub open spec fn check_view(result: Result<(), StreamPreflightError>) -> Result<
    (),
    PreflightErrorView,
> {
    match result {
        Ok(()) => Ok(()),
        Err(error) => Err(error@),
    }
}

/// Whether a body of server-sent events that has arrived in full can be passed
/// on. While a fallback is there, reasoning and output do not settle it, so that
/// a failure behind them is still found.
pub fn preflight_buffered_sse(body: &[u8], hold_reasoning_for_fallback: bool) -> (result: Result<
    (),
    StreamPreflightError,
>)
    ensures
        check_view(result) == buffered_outcome(body@, hold_reasoning_for_fallback),
{
    let mut inspection = vstd::slice::slice_to_vec(body);
    match preflight_sse_blocks(
        &mut inspection,
        hold_reasoning_for_fallback,
        hold_reasoning_for_fallback,
        true,
    ) {
        Ok(StreamPreflightProgress::Ready) => Ok(()),
        Ok(StreamPreflightProgress::Continue) => Err(
            StreamPreflightError::Protocol("上游 SSE 在输出内容前结束".to_owned()),
        ),
        Ok(StreamPreflightProgress::FrameTooLarge) => Err(
            StreamPreflightError::Protocol(oversized_text()),
        ),
        Err(error) => Err(error),
    }
}

/// What a body that is not server-sent events turns out to be.
#[derive(Debug)]
pub enum NonSsePreflight {
    PendingJson,
    Opaque,
    SemanticFailure(String),
}

/// What a `NonSsePreflight` says.
#[verifier::ext_equal]
pub enum NonSseView {
    PendingJson,
    Opaque,
    SemanticFailure(Seq<char>),
}

impl View for NonSsePreflight {
    type V = NonSseView;

    open spec fn view(&self) -> NonSseView {
        match *self {
            NonSsePreflight::PendingJson => NonSseView::PendingJson,
            NonSsePreflight::Opaque => NonSseView::Opaque,
            NonSsePreflight::SemanticFailure(message) => NonSseView::SemanticFailure(message@),
        }
    }
}

/// What a body turns out to be, given what reading it as JSON gave.
pub open spec fn non_sse_verdict(
    body: Seq<u8>,
    parsed: Result<JsonView, JsonFault>,
    end_of_stream: bool,
) -> NonSseView {
    let trimmed = skip_blank(body);
    match parsed {
        Ok(value) => match failure_message(value) {
            Some(message) => NonSseView::SemanticFailure(message),
            None => NonSseView::Opaque,
        },
        Err(fault) => if fault is Incomplete && !end_of_stream && trimmed.len() > 0 && (trimmed[0]
            == 123 || trimmed[0] == 91) {
            NonSseView::PendingJson
        } else {
            NonSseView::Opaque
        },
    }
}

/// What a body that is not server-sent events turns out to be: JSON that is
/// still arriving, a failure that the upstream server reports as JSON, or
/// something that cannot be read.
pub fn inspect_non_sse_body(body: &[u8], end_of_stream: bool) -> (verdict: NonSsePreflight)
    ensures
        verdict@ == non_sse_verdict(body@, parsed_json(skip_blank(body@)), end_of_stream),
{
    let start: usize = blank_prefix(body);
    let trimmed = vstd::slice::slice_subrange(body, start, body.len());
    assert(trimmed@ =~= skip_blank(body@));
    let starts_json = trimmed.len() > 0 && (trimmed[0] == 123 || trimmed[0] == 91);
    match parse_json(trimmed) {
        Ok(value) => match reported_failure(&value) {
            Some(message) => NonSsePreflight::SemanticFailure(message),
            None => NonSsePreflight::Opaque,
        },
        Err(JsonFault::Incomplete) => if starts_json && !end_of_stream {
            NonSsePreflight::PendingJson
        } else {
            NonSsePreflight::Opaque
        },
        Err(JsonFault::Malformed) => NonSsePreflight::Opaque,
    }
}

/// What to do with a stream that is being looked at.
#[derive(Debug)]
pub enum PreflightStep {
    /// Wait for the next chunk.
    Read,
    /// Pass the stream on; an opaque one byte for byte, without reading it.
    Accept { opaque: bool },
    /// Give the stream up.
    Reject(StreamPreflightError),
}

/// What a `PreflightStep` says.
#[verifier::ext_equal]
pub enum StepView {
    Read,
    Accept { opaque: bool },
    Reject(PreflightErrorView),
}

impl View for PreflightStep {
    type V = StepView;

    open spec fn view(&self) -> StepView {
        match *self {
            PreflightStep::Read => StepView::Read,
            PreflightStep::Accept { opaque } => StepView::Accept { opaque },
            PreflightStep::Reject(error) => StepView::Reject(error@),
        }
    }
}

/// What becomes of a stream that declares events but does not hold any.
pub open spec fn opaque_step(has_fallback: bool) -> StepView {
    if has_fallback {
        StepView::Reject(
            PreflightErrorView::Protocol("上游声明了 SSE，但响应不使用可识别的 SSE 帧格式"@),
        )
    } else {
        StepView::Accept { opaque: true }
    }
}

/// What becomes of a stream with an event block that has reached the limit.
pub open spec fn oversized_step(has_fallback: bool, transform: ResponseTransform) -> StepView {
    if has_fallback || transform is OfficialCodexStreamToResponse {
        StepView::Reject(PreflightErrorView::Protocol(oversized_message()))
    } else {
        StepView::Accept { opaque: transform is Passthrough }
    }
}

/// Whether what has arrived cannot be the beginning of an event block.
pub open spec fn no_frame_start(bytes: Seq<u8>) -> bool {
    let trimmed = skip_blank(bytes);
    bytes.len() > 0 && trimmed.len() > 0 && !begins_event(trimmed) && !begins_field_name(trimmed)
}

/// Looking at bytes that have arrived, behind what was held back before: what
/// is held back then, and what to do.
pub open spec fn feed(
    held: Seq<u8>,
    arrived: Seq<u8>,
    has_fallback: bool,
    transform: ResponseTransform,
) -> (Seq<u8>, StepView)
    decreases arrived.len(),
{
    let room = MAX_SSE_FRAME_BYTES - held.len();
    if arrived.len() == 0 {
        (held, StepView::Read)
    } else if room <= 0 {
        (seq![], oversized_step(has_fallback, transform))
    } else {
        let taken = if room <= arrived.len() {
            room
        } else {
            arrived.len() as int
        };
        let (left, outcome) = scan_blocks(held + arrived.take(taken), has_fallback, false, false);
        let verdict = non_sse_verdict(left, parsed_json(skip_blank(left)), false);
        match outcome {
            Err(message) => (left, StepView::Reject(PreflightErrorView::Semantic(message))),
            Ok(StreamPreflightProgress::Ready) => (left, StepView::Accept { opaque: false }),
            Ok(StreamPreflightProgress::FrameTooLarge) => (
                seq![],
                oversized_step(has_fallback, transform),
            ),
            Ok(StreamPreflightProgress::Continue) => if no_frame_start(left)
                && verdict is SemanticFailure {
                (
                    left,
                    StepView::Reject(
                        PreflightErrorView::Semantic(verdict->SemanticFailure_0),
                    ),
                )
            } else if no_frame_start(left) && verdict is Opaque {
                (seq![], opaque_step(has_fallback))
            } else if left.len() >= MAX_SSE_FRAME_BYTES {
                (seq![], oversized_step(has_fallback, transform))
            } else {
                feed(left, arrived.skip(taken), has_fallback, transform)
            },
        }
    }
}

/// What becomes of a stream that has ended, given what was held back.
pub open spec fn end_step(
    held: Seq<u8>,
    has_fallback: bool,
    transform: ResponseTransform,
) -> StepView {
    let (left, outcome) = scan_blocks(held, has_fallback, false, true);
    let verdict = non_sse_verdict(left, parsed_json(skip_blank(left)), true);
    match outcome {
        Err(message) => StepView::Reject(PreflightErrorView::Semantic(message)),
        Ok(StreamPreflightProgress::Ready) => StepView::Accept { opaque: false },
        Ok(StreamPreflightProgress::FrameTooLarge) => oversized_step(has_fallback, transform),
        Ok(StreamPreflightProgress::Continue) => if no_frame_start(left) {
            if verdict is SemanticFailure {
                StepView::Reject(PreflightErrorView::Semantic(verdict->SemanticFailure_0))
            } else {
                opaque_step(has_fallback)
            }
        } else {
            StepView::Reject(PreflightErrorView::Protocol("上游 SSE 在输出内容前结束"@))
        },
    }
}

/// Looks at a stream chunk by chunk until it is settled whether to pass it on.
#[derive(Debug)]
pub struct StreamInspection {
    inspection: Vec<u8>,
    prefetched_bytes: usize,
    has_fallback_candidate: bool,
    transform: ResponseTransform,
}

fn oversized_result(has_fallback: bool, transform: ResponseTransform) -> (step: PreflightStep)
    ensures
        step@ == oversized_step(has_fallback, transform),
{
    if has_fallback {
        return PreflightStep::Reject(StreamPreflightError::Protocol(oversized_text()));
    }
    match transform {
        ResponseTransform::Passthrough => PreflightStep::Accept { opaque: true },
        ResponseTransform::ChatCompletionsToResponses => PreflightStep::Accept { opaque: false },
        ResponseTransform::OfficialCodexStreamToResponse => PreflightStep::Reject(
            StreamPreflightError::Protocol(oversized_text()),
        ),
    }
}

fn opaque_result(has_fallback: bool) -> (step: PreflightStep)
    ensures
        step@ == opaque_step(has_fallback),
{
    if has_fallback {
        PreflightStep::Reject(
            StreamPreflightError::Protocol(
                "上游声明了 SSE，但响应不使用可识别的 SSE 帧格式".to_owned(),
            ),
        )
    } else {
        PreflightStep::Accept { opaque: true }
    }
}

/// Whether looking at a response can be settled at once, and how; `Read` where
/// its stream has to be looked at. Only a successful response is looked at; a
/// body that has arrived in full and reads as events is settled by its events.
pub open spec fn opening_step(
    success: bool,
    buffered: Option<Seq<u8>>,
    streams_events: bool,
    has_fallback: bool,
) -> StepView {
    if !success {
        StepView::Accept { opaque: false }
    } else if buffered matches Some(body) && begins_event(skip_blank(body)) {
        match buffered_outcome(buffered->0, has_fallback) {
            Ok(()) => StepView::Accept { opaque: false },
            Err(error) => StepView::Reject(error),
        }
    } else if streams_events {
        StepView::Read
    } else {
        StepView::Accept { opaque: false }
    }
}

/// What a byte string that may be missing holds.
pub open spec fn bytes_view(bytes: Option<&[u8]>) -> Option<Seq<u8>> {
    match bytes {
        Some(bytes) => Some(bytes@),
        None => None,
    }
}

/// Settles looking at a response where that needs no further reading.
pub fn preflight_opening(
    success: bool,
    buffered_body: Option<&[u8]>,
    streams_events: bool,
    has_fallback_candidate: bool,
) -> (step: PreflightStep)
    ensures
        step@ == opening_step(
            success,
            bytes_view(buffered_body),
            streams_events,
            has_fallback_candidate,
        ),
{
    if !success {
        return PreflightStep::Accept { opaque: false };
    }
    if let Some(body) = buffered_body {
        if looks_like_sse(body) {
            return match preflight_buffered_sse(body, has_fallback_candidate) {
                Ok(()) => PreflightStep::Accept { opaque: false },
                Err(error) => PreflightStep::Reject(error),
            };
        }
    }
    if streams_events {
        PreflightStep::Read
    } else {
        PreflightStep::Accept { opaque: false }
    }
}

impl StreamInspection {
    /// The bytes that are held back because their event block is not complete.
    pub closed spec fn held(self) -> Seq<u8> {
        self.inspection@
    }

    /// How many bytes of the stream have been read.
    pub closed spec fn read(self) -> nat {
        self.prefetched_bytes as nat
    }

    /// Whether another provider could take the request over.
    pub closed spec fn fallback(self) -> bool {
        self.has_fallback_candidate
    }

    /// What has to be done with the response.
    pub closed spec fn purpose(self) -> ResponseTransform {
        self.transform
    }

    /// Begins to look at a stream.
    pub fn new(has_fallback_candidate: bool, transform: ResponseTransform) -> (state: Self)
        ensures
            state.held() == Seq::<u8>::empty(),
            state.read() == 0,
            state.fallback() == has_fallback_candidate,
            state.purpose() == transform,
    {
        StreamInspection {
            inspection: Vec::new(),
            prefetched_bytes: 0,
            has_fallback_candidate,
            transform,
        }
    }

    /// Looks at the next chunk, as far as the bytes that are looked at at all
    /// reach. Once they are used up the stream is passed on.
    pub fn on_chunk(&mut self, chunk: &[u8]) -> (step: PreflightStep)
        ensures
            final(self).fallback() == old(self).fallback(),
            final(self).purpose() == old(self).purpose(),
            ({
                let total = old(self).read() + chunk@.len();
                let budget = if old(self).read() <= MAX_STREAM_PREFLIGHT_BYTES {
                    MAX_STREAM_PREFLIGHT_BYTES - old(self).read()
                } else {
                    0
                };
                let looked_at = if budget <= chunk@.len() {
                    chunk@.take(budget)
                } else {
                    chunk@
                };
                let (held, next) = feed(
                    old(self).held(),
                    looked_at,
                    old(self).fallback(),
                    old(self).purpose(),
                );
                &&& final(self).held() == held
                &&& final(self).read() == if total <= usize::MAX {
                    total
                } else {
                    usize::MAX as nat
                }
                &&& step@ == if next is Read && total >= MAX_STREAM_PREFLIGHT_BYTES {
                    (StepView::Accept { opaque: false })
                } else {
                    next
                }
            }),
    {
        let ghost held_before = self.inspection@;
        let has_fallback = self.has_fallback_candidate;
        let transform = self.transform;
        let budget: usize = MAX_STREAM_PREFLIGHT_BYTES.saturating_sub(self.prefetched_bytes);
        self.prefetched_bytes = self.prefetched_bytes.saturating_add(chunk.len());
        let limit: usize = if budget <= chunk.len() {
            budget
        } else {
            chunk.len()
        };
        let ghost looked_at = chunk@.take(limit as int);
        assert(budget > chunk@.len() ==> looked_at =~= chunk@);
        let mut position: usize = 0;
        assert(looked_at.skip(0) =~= looked_at);
        while position < limit
            invariant
                position <= limit <= chunk@.len(),
                looked_at == chunk@.take(limit as int),
                has_fallback == self.has_fallback_candidate,
                transform == self.transform,
                has_fallback == old(self).has_fallback_candidate,
                transform == old(self).transform,
                self.prefetched_bytes == (if old(self).prefetched_bytes + chunk@.len()
                    <= usize::MAX {
                    old(self).prefetched_bytes + chunk@.len()
                } else {
                    usize::MAX as int
                }),
                looked_at == (if old(self).read() <= MAX_STREAM_PREFLIGHT_BYTES {
                    if MAX_STREAM_PREFLIGHT_BYTES - old(self).read() <= chunk@.len() {
                        chunk@.take(MAX_STREAM_PREFLIGHT_BYTES - old(self).read())
                    } else {
                        chunk@
                    }
                } else {
                    chunk@.take(0)
                }),
                held_before == old(self).inspection@,
                feed(held_before, looked_at, has_fallback, transform) == feed(
                    self.inspection@,
                    looked_at.skip(position as int),
                    has_fallback,
                    transform,
                ),
            decreases limit - position,
        {
            let ghost arrived = looked_at.skip(position as int);
            let room: usize = MAX_SSE_FRAME_BYTES.saturating_sub(self.inspection.len());
            if room == 0 {
                self.inspection.clear();
                return oversized_result(has_fallback, transform);
            }
            let take: usize = if room <= limit - position {
                room
            } else {
                limit - position
            };
            let part = vstd::slice::slice_subrange(chunk, position, position + take);
            assert(part@ =~= arrived.take(take as int));
            assert(arrived.skip(take as int) =~= looked_at.skip(position + take));
            let ghost filled = self.inspection@ + part@;
            append_bytes(&mut self.inspection, part);
            position += take;
            match preflight_sse_blocks(&mut self.inspection, has_fallback, false, false) {
                Err(error) => {
                    return PreflightStep::Reject(error);
                },
                Ok(StreamPreflightProgress::Ready) => {
                    return PreflightStep::Accept { opaque: false };
                },
                Ok(StreamPreflightProgress::FrameTooLarge) => {
                    self.inspection.clear();
                    return oversized_result(has_fallback, transform);
                },
                Ok(StreamPreflightProgress::Continue) => {},
            }
            if self.inspection.len() > 0 && !could_start_sse_frame(self.inspection.as_slice()) {
                match inspect_non_sse_body(self.inspection.as_slice(), false) {
                    NonSsePreflight::PendingJson => {},
                    NonSsePreflight::SemanticFailure(message) => {
                        return PreflightStep::Reject(StreamPreflightError::Semantic(message));
                    },
                    NonSsePreflight::Opaque => {
                        self.inspection.clear();
                        return opaque_result(has_fallback);
                    },
                }
            }
            if sse_frame_limit_reached(self.inspection.len(), MAX_SSE_FRAME_BYTES) {
                self.inspection.clear();
                return oversized_result(has_fallback, transform);
            }
        }
        assert(looked_at.skip(position as int) =~= seq![]);
        if self.prefetched_bytes >= MAX_STREAM_PREFLIGHT_BYTES {
            return PreflightStep::Accept { opaque: false };
        }
        PreflightStep::Read
    }

    /// Settles a stream that has ended.
    pub fn on_end(self) -> (step: PreflightStep)
        ensures
            step@ == end_step(self.held(), self.fallback(), self.purpose()),
    {
        let has_fallback = self.has_fallback_candidate;
        let mut inspection = self.inspection;
        match preflight_sse_blocks(&mut inspection, has_fallback, false, true) {
            Err(error) => {
                return PreflightStep::Reject(error);
            },
            Ok(StreamPreflightProgress::Ready) => {
                return PreflightStep::Accept { opaque: false };
            },
            Ok(StreamPreflightProgress::FrameTooLarge) => {
                return oversized_result(has_fallback, self.transform);
            },
            Ok(StreamPreflightProgress::Continue) => {},
        }
        if inspection.len() > 0 && !could_start_sse_frame(inspection.as_slice()) {
            return match inspect_non_sse_body(inspection.as_slice(), true) {
                NonSsePreflight::SemanticFailure(message) => PreflightStep::Reject(
                    StreamPreflightError::Semantic(message),
                ),
                NonSsePreflight::PendingJson => opaque_result(has_fallback),
                NonSsePreflight::Opaque => opaque_result(has_fallback),
            };
        }
        PreflightStep::Reject(
            StreamPreflightError::Protocol("上游 SSE 在输出内容前结束".to_owned()),
        )
    }

    /// Gives up a stream that did not settle within the time allowed for it.
    pub fn on_deadline() -> (step: PreflightStep)
        ensures
            step@ == StepView::Reject(
                PreflightErrorView::Network("等待上游在可见输出前开始生成超时"@),
            ),
    {
        PreflightStep::Reject(
            StreamPreflightError::Network("等待上游在可见输出前开始生成超时".to_owned()),
        )
    }

    /// Gives up a stream whose next chunk did not come in time.
    pub fn on_idle() -> (step: PreflightStep)
        ensures
            step@ == StepView::Reject(PreflightErrorView::Network("等待上游 SSE 后续事件超时"@)),
    {
        PreflightStep::Reject(
            StreamPreflightError::Network("等待上游 SSE 后续事件超时".to_owned()),
        )
    }

    /// Gives up a stream that could not be read.
    pub fn on_read_error(error: &str) -> (step: PreflightStep)
        ensures
            step@ == StepView::Reject(
                PreflightErrorView::Network("读取上游 SSE 首帧失败: "@ + error@),
            ),
    {
        PreflightStep::Reject(
            StreamPreflightError::Network(concat2("读取上游 SSE 首帧失败: ", error)),
        )
    }
}

/// Adds bytes at the end of a buffer.
pub fn append_bytes(buffer: &mut Vec<u8>, bytes: &[u8])
    ensures
        final(buffer)@ == old(buffer)@ + bytes@,
{
    buffer.extend_from_slice(bytes);
    assert(buffer@ =~= old(buffer)@ + bytes@);
}

/// Whether an event settles that a stream is passed on.
pub open spec fn settles(verdict: PreflightView, hold_reasoning: bool, hold_output: bool) -> bool {
    ||| verdict is Terminal
    ||| verdict is OutputStarted && !hold_output
    ||| verdict is Reasoning && !hold_reasoning
}

/// Looking at event blocks settles that a stream is passed on only because of
/// an event in it that does so. In particular reasoning that is held back for a
/// fallback never does.
pub proof fn law_ready_has_a_cause(
    bytes: Seq<u8>,
    hold_reasoning: bool,
    hold_output: bool,
    end_of_stream: bool,
)
    requires
        scan_blocks(bytes, hold_reasoning, hold_output, end_of_stream).1 == Ok::<
            StreamPreflightProgress,
            Seq<char>,
        >(StreamPreflightProgress::Ready),
    ensures
        exists|i: int|
            0 <= i < frames(bytes, end_of_stream).len() && settles(
                block_verdict(utf8_lossy(#[trigger] frames(bytes, end_of_stream)[i])),
                hold_reasoning,
                hold_output,
            ),
    decreases bytes.len(),
{
    let (end, drained) = first_boundary(bytes, end_of_stream)->0;
    lemma_boundary_bounds(bytes, 0, end_of_stream);
    let rest = bytes.skip(drained);
    let block = bytes.take(end);
    let verdict = block_verdict(utf8_lossy(block));
    let all = frames(bytes, end_of_stream);
    assert(all[0] == block);
    if !settles(verdict, hold_reasoning, hold_output) {
        law_ready_has_a_cause(rest, hold_reasoning, hold_output, end_of_stream);
        let later = frames(rest, end_of_stream);
        let i = choose|i: int|
            0 <= i < later.len() && settles(
                block_verdict(utf8_lossy(#[trigger] later[i])),
                hold_reasoning,
                hold_output,
            );
        assert(all[i + 1] == later[i]);
    }
}

/// A stream is given up for a failure that an event reports only if no event
/// before it settled that the stream is passed on: once output has been shown, a
/// failure behind it is not the reason to try another provider.
pub proof fn law_failures_come_before_output(
    bytes: Seq<u8>,
    hold_reasoning: bool,
    hold_output: bool,
    end_of_stream: bool,
)
    requires
        scan_blocks(bytes, hold_reasoning, hold_output, end_of_stream).1 is Err,
    ensures
        exists|i: int|
            {
                &&& 0 <= i < frames(bytes, end_of_stream).len()
                &&& block_verdict(utf8_lossy(#[trigger] frames(bytes, end_of_stream)[i]))
                    == PreflightView::Failure(
                    scan_blocks(bytes, hold_reasoning, hold_output, end_of_stream).1->Err_0,
                )
                &&& forall|j: int|
                    0 <= j < i ==> !settles(
                        block_verdict(utf8_lossy(#[trigger] frames(bytes, end_of_stream)[j])),
                        hold_reasoning,
                        hold_output,
                    )
            },
    decreases bytes.len(),
{
    let (end, drained) = first_boundary(bytes, end_of_stream)->0;
    lemma_boundary_bounds(bytes, 0, end_of_stream);
    let rest = bytes.skip(drained);
    let block = bytes.take(end);
    let verdict = block_verdict(utf8_lossy(block));
    let all = frames(bytes, end_of_stream);
    let message = scan_blocks(bytes, hold_reasoning, hold_output, end_of_stream).1->Err_0;
    assert(all[0] == block);
    if verdict is Failure {
        assert(block_verdict(utf8_lossy(all[0])) == PreflightView::Failure(message));
    } else {
        law_failures_come_before_output(rest, hold_reasoning, hold_output, end_of_stream);
        let later = frames(rest, end_of_stream);
        let i = choose|i: int|
            {
                &&& 0 <= i < later.len()
                &&& block_verdict(utf8_lossy(#[trigger] later[i])) == PreflightView::Failure(
                    message,
                )
                &&& forall|j: int|
                    0 <= j < i ==> !settles(
                        block_verdict(utf8_lossy(#[trigger] later[j])),
                        hold_reasoning,
                        hold_output,
                    )
            };
        assert(all[i + 1] == later[i]);
        assert forall|j: int| 0 <= j < i + 1 implies !settles(
            block_verdict(utf8_lossy(#[trigger] all[j])),
            hold_reasoning,
            hold_output,
        ) by {
            if j > 0 {
                assert(all[j] == later[j - 1]);
            }
        }
    }
}

/// What is held back of a stream stays below the limit of an event block.
pub proof fn law_held_bytes_are_bounded(
    held: Seq<u8>,
    arrived: Seq<u8>,
    has_fallback: bool,
    transform: ResponseTransform,
)
    requires
        held.len() < MAX_SSE_FRAME_BYTES,
        feed(held, arrived, has_fallback, transform).1 is Read,
    ensures
        feed(held, arrived, has_fallback, transform).0.len() < MAX_SSE_FRAME_BYTES,
    decreases arrived.len(),
{
    if arrived.len() > 0 {
        let room = MAX_SSE_FRAME_BYTES - held.len();
        let taken = if room <= arrived.len() {
            room
        } else {
            arrived.len() as int
        };
        let left = scan_blocks(held + arrived.take(taken), has_fallback, false, false).0;
        law_held_bytes_are_bounded(left, arrived.skip(taken), has_fallback, transform);
    }
}

/// Looking at event blocks, and then at what is left with more behind it, is
/// looking at all of it.
proof fn lemma_scan_in_steps(bytes: Seq<u8>, more: Seq<u8>, hold_reasoning: bool, hold_output: bool)
    requires
        more.len() > 0,
        scan_blocks(bytes, hold_reasoning, hold_output, false).1 == Ok::<
            StreamPreflightProgress,
            Seq<char>,
        >(StreamPreflightProgress::Continue),
    ensures
        scan_blocks(bytes + more, hold_reasoning, hold_output, false) == scan_blocks(
            scan_blocks(bytes, hold_reasoning, hold_output, false).0 + more,
            hold_reasoning,
            hold_output,
            false,
        ),
        scan_blocks(bytes, hold_reasoning, hold_output, false).0.len() <= bytes.len(),
    decreases bytes.len(),
{
    if first_boundary(bytes, false) is Some {
        let (end, drained) = first_boundary(bytes, false)->0;
        lemma_boundary_bounds(bytes, 0, false);
        law_boundary_is_stable(bytes, more, 0);
        let rest = bytes.skip(drained);
        assert((bytes + more).take(end) =~= bytes.take(end));
        assert((bytes + more).skip(drained) =~= rest + more);
        lemma_scan_in_steps(rest, more, hold_reasoning, hold_output);
    }
}

/// As long as it is not settled what becomes of a stream, and no more of it has
/// come than is looked at at a time, it makes no difference how the stream is cut
/// into chunks.
pub proof fn law_inspection_ignores_chunking(
    held: Seq<u8>,
    first: Seq<u8>,
    second: Seq<u8>,
    has_fallback: bool,
    transform: ResponseTransform,
)
    requires
        held.len() + first.len() + second.len() <= MAX_SSE_FRAME_BYTES,
        feed(held, first, has_fallback, transform).1 is Read,
    ensures
        feed(held, first + second, has_fallback, transform) == feed(
            feed(held, first, has_fallback, transform).0,
            second,
            has_fallback,
            transform,
        ),
{
    if first.len() == 0 {
        assert(first + second =~= second);
    } else if second.len() == 0 {
        assert(first + second =~= first);
    } else {
        let all = first + second;
        assert(all.take(all.len() as int) =~= all);
        assert(all.skip(all.len() as int) =~= seq![]);
        assert(first.take(first.len() as int) =~= first);
        assert(first.skip(first.len() as int) =~= seq![]);
        assert(second.take(second.len() as int) =~= second);
        assert(second.skip(second.len() as int) =~= seq![]);
        let left = scan_blocks(held + first, has_fallback, false, false).0;
        assert(feed(left, seq![], has_fallback, transform) == (left, StepView::Read));
        assert(feed(held, first, has_fallback, transform).0 == left);
        lemma_scan_in_steps(held + first, second, has_fallback, false);
        assert(held + all =~= (held + first) + second);
        let next = scan_blocks(left + second, has_fallback, false, false).0;
        assert(feed(next, all.skip(all.len() as int), has_fallback, transform) == feed(
            next,
            second.skip(second.len() as int),
            has_fallback,
            transform,
        ));
    }
}

proof fn lemma_holds_letter(s: Seq<char>, part: Seq<char>, place: int)
    requires
        holds(s, part),
        0 <= place < part.len(),
    ensures
        s.contains(part[place]),
{
    let start = choose|start: int|
        #![trigger s.skip(start)]
        0 <= start <= s.len() && begins(s.skip(start), part);
    assert(s.skip(start).take(part.len() as int)[place] == part[place]);
    assert(s[start + place] == part[place]);
}

/// A text that begins to arrive is output: neither a failure nor reasoning, and
/// not the end. An empty piece is not.
pub proof fn law_arriving_text_is_output(value: JsonView, delta: Seq<char>)
    requires
        value.get_text("type"@) == Some("response.output_text.delta"@),
        value.get_text("delta"@) == Some(delta),
        value.get("error"@) is None,
        value.get("status"@) is None,
        value.get("choices"@) is None,
        value.get("item"@) is None,
    ensures
        delta.len() > 0 ==> event_verdict(value) is OutputStarted,
        delta.len() == 0 ==> event_verdict(value) is Continue,
{
    let kind = "response.output_text.delta"@;
    reveal_strlit("response.output_text.delta");
    reveal_strlit("response.completed");
    reveal_strlit("response.incomplete");
    reveal_strlit("response.failed");
    reveal_strlit("error");
    reveal_strlit("response.output_item.added");
    reveal_strlit("response.output_item.done");
    reveal_strlit("response.content_part.added");
    reveal_strlit("reasoning");
    reveal_strlit("function_call");
    reveal_strlit("custom_tool");
    assert("response.output_text.delta"@.len() == 26);
    assert("response.completed"@.len() == 18);
    assert("response.incomplete"@.len() == 19);
    assert("response.failed"@.len() == 15);
    assert("error"@.len() == 5);
    assert("response.output_item.added"@.len() == 26);
    assert("response.output_item.done"@.len() == 25);
    assert("response.content_part.added"@.len() == 27);
    assert("reasoning"@.len() == 9);
    assert("function_call"@.len() == 13);
    assert("custom_tool"@.len() == 11);
    assert("response.output_text.delta"@[16] != "response.output_item.added"@[16]);
    assert(!kind.contains('g')) by {
        assert forall|i: int| 0 <= i < kind.len() implies kind[i] != 'g' by {}
    }
    assert(!kind.contains('f')) by {
        assert forall|i: int| 0 <= i < kind.len() implies kind[i] != 'f' by {}
    }
    assert(!kind.contains('c')) by {
        assert forall|i: int| 0 <= i < kind.len() implies kind[i] != 'c' by {}
    }
    if holds(kind, "reasoning"@) {
        lemma_holds_letter(kind, "reasoning"@, 8);
    }
    if holds(kind, "function_call"@) {
        lemma_holds_letter(kind, "function_call"@, 0);
    }
    if holds(kind, "custom_tool"@) {
        lemma_holds_letter(kind, "custom_tool"@, 0);
    }
}

/// A chat completion that begins to say something has begun its output.
pub proof fn law_arriving_content_is_output(
    value: JsonView,
    choices: Seq<JsonView>,
    delta: JsonView,
    content: Seq<char>,
)
    requires
        value.get("type"@) is None,
        value.get("error"@) is None,
        value.get("status"@) is None,
        value.get("item"@) is None,
        value.get("choices"@) == Some(JsonView::Array(choices)),
        choices.len() > 0,
        choices[0].get("finish_reason"@) is None || choices[0].get("finish_reason"@) == Some(
            JsonView::Null,
        ),
        choices[0].get("delta"@) == Some(delta),
        delta.get("content"@) == Some(JsonView::Text(content)),
        content.len() > 0,
    ensures
        event_verdict(value) is OutputStarted,
{
    let kind = Seq::<char>::empty();
    reveal_strlit("response.completed");
    reveal_strlit("response.incomplete");
    reveal_strlit("reasoning");
    assert("response.completed"@.len() > 0 && "response.incomplete"@.len() > 0);
    assert("reasoning"@.len() == 9);
    if holds(kind, "reasoning"@) {
        lemma_holds_letter(kind, "reasoning"@, 0);
    }
}

/// A failure that an event reports is seen whatever else the event says, and so
/// is the end of a response that reports none.
pub proof fn law_failures_and_ends_are_seen(value: JsonView)
    ensures
        failure_message(value) is Some ==> event_verdict(value) == PreflightView::Failure(
            failure_message(value)->0,
        ),
        failure_message(value) is None ==> !(event_verdict(value) is Failure),
        failure_message(value) is None && (value.get_text("type"@) == Some("response.completed"@)
            || value.get_text("type"@) == Some("response.incomplete"@)) ==> event_verdict(value)
            is Terminal,
{
}

/// A stream that ends before it brought anything is not passed on, and neither is
/// one whose last event reports a failure.
pub proof fn law_empty_streams_are_rejected(has_fallback: bool, transform: ResponseTransform)
    ensures
        end_step(seq![], has_fallback, transform) is Reject,
{
    let none = Seq::<u8>::empty();
    assert(first_boundary(none, true) is None);
    assert(skip_blank(none) == none);
}

/// A response that is no success, and one that is no stream of events, is passed
/// on without being looked at.
pub proof fn law_other_responses_are_passed_on(
    success: bool,
    buffered: Option<Seq<u8>>,
    streams_events: bool,
    has_fallback: bool,
)
    ensures
        !success ==> opening_step(success, buffered, streams_events, has_fallback)
            == (StepView::Accept { opaque: false }),
        success && !streams_events && buffered is None ==> opening_step(
            success,
            buffered,
            streams_events,
            has_fallback,
        ) == (StepView::Accept { opaque: false }),
        success && streams_events && buffered is None ==> opening_step(
            success,
            buffered,
            streams_events,
            has_fallback,
        ) is Read,
{
}

/// The first event of a stream settles it where it says enough: a failure is
/// answered by another provider or told, with its message, and output is passed
/// on. Reasoning is held back while another provider could take over.
pub proof fn law_first_events_settle_a_stream(
    chunk: Seq<u8>,
    end: int,
    drained: int,
    has_fallback: bool,
    transform: ResponseTransform,
)
    requires
        first_boundary(chunk, false) == Some((end, drained)),
        chunk.len() < MAX_SSE_FRAME_BYTES,
    ensures
        ({
            let verdict = block_verdict(utf8_lossy(chunk.take(end)));
            let step = feed(seq![], chunk, has_fallback, transform).1;
            &&& verdict matches PreflightView::Failure(message) ==> step == StepView::Reject(
                PreflightErrorView::Semantic(message),
            )
            &&& verdict is OutputStarted || verdict is Terminal ==> step == (StepView::Accept {
                opaque: false,
            })
            &&& verdict is Reasoning && !has_fallback ==> step == (StepView::Accept {
                opaque: false,
            })
        }),
{
    lemma_boundary_bounds(chunk, 0, false);
    let none = Seq::<u8>::empty();
    assert(chunk.take(chunk.len() as int) =~= chunk);
    assert(none + chunk.take(chunk.len() as int) =~= chunk);
}

/// A block with one line of data says what that line reads as.
pub proof fn law_blocks_say_what_their_data_says(data: Seq<char>, value: JsonView)
    requires
        one_line(data),
        data.len() > 0,
        !white_space(data[0]),
        data != "[DONE]"@,
        parsed_json(encode_utf8(data)) matches Ok(read) && read == value,
    ensures
        block_verdict("data: "@ + data) == event_verdict(value),
{
    law_data_of_events_is_read(data, data, true);
}

/// A stream that is no events, or has an event that is too large, is left to
/// another provider where there is one, and is else passed on; only one that has
/// to be read in full is not.
pub proof fn law_odd_streams_are_passed_on_without_an_alternative(transform: ResponseTransform)
    ensures
        opaque_step(true) is Reject,
        opaque_step(false) == (StepView::Accept { opaque: true }),
        oversized_step(true, transform) is Reject,
        oversized_step(false, ResponseTransform::Passthrough) == (StepView::Accept { opaque: true }),
        oversized_step(false, ResponseTransform::ChatCompletionsToResponses)
            == (StepView::Accept { opaque: false }),
        oversized_step(false, ResponseTransform::OfficialCodexStreamToResponse) is Reject,
{
}

} // verus!
