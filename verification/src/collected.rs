//! Responses that have arrived in full.
use crate::chat_response::{listed_choice, listed_choice_of};
use crate::failure::{
    error_message, failure_message, is_text, json_error_message, reported_failure, FaultView,
    ResponseFault,
};
use crate::json::{
    array, at, get_at, items_in, lemma_with_field, parse_json, parsed_json, seen, views, Json, JsonFault, JsonView,
};
use crate::preflight::ResponseTransform;
use crate::sse::{
    begins_event, blank_prefix, event_data, event_data_of, first_boundary,
    law_data_of_events_is_read, lemma_boundary_bounds, looks_like_sse, lossy_text,
    next_sse_block_boundary, one_line, skip_blank, utf8_lossy,
};
use crate::text::{concat2, same, white_space};
use vstd::prelude::*;
use vstd::string::*;
use vstd::utf8::*;

verus! {

/// What `std::str::from_utf8` says of a byte string that is not UTF-8.
pub uninterp spec fn utf8_error(bytes: Seq<u8>) -> Seq<char>;

/// `std::str::from_utf8` accepts valid UTF-8, and says in words what is wrong
/// with other byte strings.
#[verifier::external_body]
pub(crate) fn utf8_fault(bytes: &[u8]) -> (fault: Option<String>)
    ensures
        fault is None <==> valid_utf8(bytes@),
        fault matches Some(words) ==> words@ == utf8_error(bytes@),
{
    std::str::from_utf8(bytes).err().map(|error| error.to_string())
}

/// Output items with that of an index set, in ascending order of indices.
pub open spec fn with_output_item(
    items: Seq<(u64, JsonView)>,
    index: u64,
    item: JsonView,
) -> Seq<(u64, JsonView)>
    decreases items.len(),
{
    if items.len() == 0 {
        seq![(index, item)]
    } else if items[0].0 == index {
        items.update(0, (index, item))
    } else if index < items[0].0 {
        seq![(index, item)] + items
    } else {
        seq![items[0]] + with_output_item(items.drop_first(), index, item)
    }
}

/// The event in front of a stream, and what follows it.
pub open spec fn front_event(remaining: Seq<u8>) -> (Seq<u8>, Seq<u8>) {
    match first_boundary(remaining, true) {
        Some((end, drained)) => (remaining.take(end), remaining.skip(drained)),
        None => (remaining, seq![]),
    }
}

/// What an event block holds, if it is JSON.
pub open spec fn block_value(block: Seq<char>) -> Option<JsonView> {
    let data = event_data(block, true);
    if data.len() == 0 || data == "[DONE]"@ {
        None
    } else {
        match parsed_json(encode_utf8(data)) {
            Ok(value) => Some(value),
            Err(_) => None,
        }
    }
}

/// The response in the event that ends a stream. An output that is empty there
/// is made up of the items that the stream had told of.
pub open spec fn ended_response(value: JsonView, items: Seq<(u64, JsonView)>) -> Result<
    JsonView,
    FaultView,
> {
    match value.get("response"@) {
        Some(response) => if items.len() > 0 && (items_in(response.get("output"@)) matches Some(
            output,
        ) && output.len() == 0) {
            Ok(
                response.with(
                    "output"@,
                    JsonView::Array(Seq::new(items.len(), |i: int| items[i].1)),
                ),
            )
        } else {
            Ok(response)
        },
        None => Err(FaultView::Found("terminal event did not include a response"@)),
    }
}

/// The response that a stream ends with, given what was seen before: the
/// message of the last failure, and the output items.
pub open spec fn collected(
    remaining: Seq<u8>,
    failure: Option<Seq<char>>,
    items: Seq<(u64, JsonView)>,
) -> Result<JsonView, FaultView>
    decreases remaining.len(),
{
    if remaining.len() == 0 {
        Err(
            match failure {
                Some(message) => FaultView::Reported(message),
                None => FaultView::Found("stream ended without a terminal response event"@),
            },
        )
    } else {
        let (event, rest) = front_event(remaining);
        proof {
            if first_boundary(remaining, true) is Some {
                lemma_boundary_bounds(remaining, 0, true);
            }
        }
        match block_value(utf8_lossy(event)) {
            Some(value) => {
                let kind = value.get_text("type"@);
                if kind == Some("response.output_item.done"@) {
                    let index = match value.get("output_index"@) {
                        Some(index) => index.unsigned(),
                        None => None,
                    };
                    match (index, value.get("item"@)) {
                        (Some(index), Some(item)) => collected(
                            rest,
                            failure,
                            with_output_item(items, index, item),
                        ),
                        _ => collected(rest, failure, items),
                    }
                } else if kind == Some("response.completed"@) || kind == Some(
                    "response.incomplete"@,
                ) {
                    ended_response(value, items)
                } else if kind == Some("response.failed"@) || kind == Some("error"@) {
                    collected(rest, Some(error_message(value)), items)
                } else {
                    collected(rest, failure, items)
                }
            },
            None => collected(rest, failure, items),
        }
    }
}

/// A list of output items with their indices.
pub open spec fn item_views(items: Seq<(u64, Json)>) -> Seq<(u64, JsonView)> {
    Seq::new(items.len(), |i: int| (items[i].0, items[i].1@))
}

proof fn lemma_item_found(
    items: Seq<(u64, JsonView)>,
    index: u64,
    position: int,
    item: JsonView,
)
    requires
        0 <= position < items.len(),
        items[position].0 == index,
        forall|i: int| 0 <= i < position ==> (#[trigger] items[i]).0 < index,
    ensures
        with_output_item(items, index, item) == items.update(position, (index, item)),
    decreases items.len(),
{
    if position > 0 {
        let rest = items.drop_first();
        assert forall|i: int| 0 <= i < position - 1 implies (#[trigger] rest[i]).0 < index by {
            assert(rest[i] == items[i + 1]);
        }
        lemma_item_found(rest, index, position - 1, item);
        assert(seq![items[0]] + rest.update(position - 1, (index, item)) =~= items.update(
            position,
            (index, item),
        ));
    }
}

proof fn lemma_item_inserted(
    items: Seq<(u64, JsonView)>,
    index: u64,
    position: int,
    item: JsonView,
)
    requires
        0 <= position <= items.len(),
        forall|i: int| 0 <= i < position ==> (#[trigger] items[i]).0 < index,
        position < items.len() ==> items[position].0 > index,
    ensures
        with_output_item(items, index, item) == items.insert(position, (index, item)),
    decreases items.len(),
{
    if position > 0 {
        let rest = items.drop_first();
        assert forall|i: int| 0 <= i < position - 1 implies (#[trigger] rest[i]).0 < index by {
            assert(rest[i] == items[i + 1]);
        }
        if position < items.len() {
            assert(rest[position - 1] == items[position]);
        }
        lemma_item_inserted(rest, index, position - 1, item);
        assert(seq![items[0]] + rest.insert(position - 1, (index, item)) =~= items.insert(
            position,
            (index, item),
        ));
    } else if items.len() > 0 {
        assert(seq![(index, item)] + items =~= items.insert(0, (index, item)));
    } else {
        assert(seq![(index, item)] =~= items.insert(0, (index, item)));
    }
}

fn put_output_item(items: &mut Vec<(u64, Json)>, index: u64, item: Json)
    ensures
        item_views(final(items)@) == with_output_item(item_views(old(items)@), index, item@),
{
    let ghost before = item_views(items@);
    let ghost added = item@;
    let mut position: usize = 0;
    while position < items.len() && items[position].0 < index
        invariant
            position <= items@.len(),
            before == item_views(items@),
            before == item_views(old(items)@),
            forall|i: int| 0 <= i < position ==> (#[trigger] before[i]).0 < index,
        decreases items@.len() - position,
    {
        assert(before[position as int].0 == items@[position as int].0);
        position += 1;
    }
    if position < items.len() && items[position].0 == index {
        proof {
            lemma_item_found(before, index, position as int, added);
        }
        items.set(position, (index, item));
        assert(item_views(items@) =~= before.update(position as int, (index, added)));
    } else {
        proof {
            lemma_item_inserted(before, index, position as int, added);
        }
        items.insert(position, (index, item));
        assert(item_views(items@) =~= before.insert(position as int, (index, added)));
    }
}

/// A value, or what the error says.
pub open spec fn collected_view(result: Result<Json, ResponseFault>) -> Result<
    JsonView,
    FaultView,
> {
    match result {
        Ok(value) => Ok(value@),
        Err(fault) => Err(fault@),
    }
}

fn ended_response_of(value: &Json, items: Vec<(u64, Json)>) -> (result: Result<
    Json,
    ResponseFault,
>)
    ensures
        collected_view(result) == ended_response(value@, item_views(items@)),
{
    let response = match value.get("response") {
        Some(response) => response.copy(),
        None => {
            return Err(
                ResponseFault::Found("terminal event did not include a response".to_owned()),
            );
        },
    };
    let empty_output = match response.get("output") {
        Some(output) => match output.as_array() {
            Some(output) => output.len() == 0,
            None => false,
        },
        None => false,
    };
    if empty_output && items.len() > 0 {
        let ghost views_before = item_views(items@);
        let mut list: Vec<Json> = Vec::new();
        let mut index: usize = 0;
        while index < items.len()
            invariant
                index <= items@.len(),
                views_before == item_views(items@),
                list@.len() == index,
                forall|i: int| 0 <= i < index ==> (#[trigger] list@[i])@ == views_before[i].1,
            decreases items@.len() - index,
        {
            list.push(items[index].1.copy());
            index += 1;
        }
        assert(views(list@) =~= Seq::new(views_before.len(), |i: int| views_before[i].1));
        return Ok(response.with("output", array(list)));
    }
    Ok(response)
}

fn block_value_of(block: &str) -> (value: Option<Json>)
    ensures
        match value {
            Some(value) => block_value(block@) == Some(value@),
            None => block_value(block@) is None,
        },
{
    let data = event_data_of(block, true);
    if data.as_str().is_empty() || same(&data, "[DONE]") {
        return None;
    }
    match parse_json(data.as_str().as_bytes()) {
        Ok(value) => Some(value),
        Err(_) => None,
    }
}

/// A message that may be missing.
pub open spec fn message_view(message: Option<String>) -> Option<Seq<char>> {
    match message {
        Some(message) => Some(message@),
        None => None,
    }
}

/// The response that a stream of events ends with. The message of a failure is
/// that of the upstream server.
pub fn terminal_response_from_sse(body: &[u8]) -> (result: Result<Json, ResponseFault>)
    ensures
        collected_view(result) == if valid_utf8(body@) {
            collected(body@, None, seq![])
        } else {
            Err(FaultView::Found("invalid UTF-8: "@ + utf8_error(body@)))
        },
{
    if let Some(fault) = utf8_fault(body) {
        return Err(ResponseFault::Found(concat2("invalid UTF-8: ", &fault)));
    }
    let mut failure: Option<String> = None;
    let mut items: Vec<(u64, Json)> = Vec::new();
    assert(item_views(items@) =~= seq![]);
    let mut position: usize = 0;
    assert(body@.skip(0) =~= body@);
    while position < body.len()
        invariant
            position <= body@.len(),
            valid_utf8(body@),
            collected(body@, None, seq![]) == collected(
                body@.skip(position as int),
                message_view(failure),
                item_views(items@),
            ),
        decreases body@.len() - position,
    {
        let ghost remaining = body@.skip(position as int);
        let rest = vstd::slice::slice_subrange(body, position, body.len());
        assert(rest@ =~= remaining);
        let (block_end, drained) = match next_sse_block_boundary(rest, true) {
            Some(boundary) => (boundary.block_end, boundary.drain_len),
            None => (rest.len(), rest.len()),
        };
        let event = vstd::slice::slice_subrange(rest, 0, block_end);
        proof {
            assert(event@ =~= front_event(remaining).0);
            assert(body@.skip(position + drained) =~= front_event(remaining).1);
        }
        let block = lossy_text(event);
        position += drained;
        if let Some(value) = block_value_of(&block) {
            let kind = value.get_text("type");
            if is_text(kind, "response.output_item.done") {
                let index = match value.get("output_index") {
                    Some(index) => index.as_u64(),
                    None => None,
                };
                if let Some(index) = index {
                    if let Some(item) = value.get("item") {
                        put_output_item(&mut items, index, item.copy());
                    }
                }
            } else if is_text(kind, "response.completed") || is_text(kind, "response.incomplete") {
                return ended_response_of(&value, items);
            } else if is_text(kind, "response.failed") || is_text(kind, "error") {
                failure = Some(json_error_message(&value));
            }
        }
    }
    assert(body@.skip(position as int).len() == 0);
    match failure {
        Some(message) => Err(ResponseFault::Reported(message)),
        None => Err(
            ResponseFault::Found("stream ended without a terminal response event".to_owned()),
        ),
    }
}

/// Whether a status is one of a response.
pub open spec fn response_status(status: Seq<char>) -> bool {
    status == "queued"@ || status == "in_progress"@ || status == "completed"@ || status
        == "incomplete"@ || status == "failed"@ || status == "cancelled"@
}

/// Whether a successful body that was read as JSON can be passed on, and why
/// not.
pub open spec fn value_verdict(
    transform: ResponseTransform,
    parsed: Result<JsonView, JsonFault>,
) -> Result<(), FaultView> {
    match parsed {
        Err(_) => Err(FaultView::Found("上游返回了非 JSON 的成功响应"@)),
        Ok(value) => match failure_message(value) {
            Some(message) => Err(FaultView::Reported(message)),
            None => match transform {
                ResponseTransform::ChatCompletionsToResponses => if at(
                    listed_choice(value),
                    "message"@,
                ) matches Some(message) && message is Object {
                    Ok(())
                } else {
                    Err(FaultView::Found("Chat Completions 成功响应缺少 choices[0].message"@))
                },
                ResponseTransform::OfficialCodexStreamToResponse => Err(
                    FaultView::Found("官方 Codex 上游未返回可解析的 SSE 响应"@),
                ),
                ResponseTransform::Passthrough => if value.get_text("object"@) == Some(
                    "response"@,
                ) && (value.get_text("status"@) matches Some(status) && response_status(status)) {
                    Ok(())
                } else {
                    Err(FaultView::Found("Responses 成功响应不符合 Responses 协议"@))
                },
            },
        },
    }
}

/// Whether a successful body can be passed on, and why not: it is not blank, and
/// it is events or a response that the transform can make use of.
pub open spec fn body_verdict(transform: ResponseTransform, body: Seq<u8>) -> Result<(), FaultView> {
    if skip_blank(body).len() == 0 {
        Err(FaultView::Found("上游返回了空的成功响应"@))
    } else if begins_event(skip_blank(body)) {
        Ok(())
    } else {
        value_verdict(transform, parsed_json(body))
    }
}

/// A success, or what the error says.
pub open spec fn verdict_view(result: Result<(), ResponseFault>) -> Result<(), FaultView> {
    match result {
        Ok(()) => Ok(()),
        Err(fault) => Err(fault@),
    }
}

/// Whether a successful response that was read as JSON can be passed on.
pub fn validate_response_value(transform: ResponseTransform, value: &Json) -> (result: Result<
    (),
    ResponseFault,
>)
    ensures
        verdict_view(result) == value_verdict(transform, Ok(value@)),
{
    if let Some(message) = reported_failure(value) {
        return Err(ResponseFault::Reported(message));
    }
    match transform {
        ResponseTransform::ChatCompletionsToResponses => {
            let valid = match get_at(listed_choice_of(value), "message") {
                Some(message) => message.is_object(),
                None => false,
            };
            if valid {
                Ok(())
            } else {
                Err(
                    ResponseFault::Found(
                        "Chat Completions 成功响应缺少 choices[0].message".to_owned(),
                    ),
                )
            }
        },
        ResponseTransform::OfficialCodexStreamToResponse => Err(
            ResponseFault::Found("官方 Codex 上游未返回可解析的 SSE 响应".to_owned()),
        ),
        ResponseTransform::Passthrough => {
            let status = value.get_text("status");
            let valid_status = is_text(status, "queued") || is_text(status, "in_progress")
                || is_text(status, "completed") || is_text(status, "incomplete") || is_text(
                status,
                "failed",
            ) || is_text(status, "cancelled");
            if is_text(value.get_text("object"), "response") && valid_status {
                Ok(())
            } else {
                Err(
                    ResponseFault::Found("Responses 成功响应不符合 Responses 协议".to_owned()),
                )
            }
        },
    }
}

/// Whether a successful body can be passed on.
pub fn validate_successful_responses_body(transform: ResponseTransform, body: &[u8]) -> (result: Result<
    (),
    ResponseFault,
>)
    ensures
        verdict_view(result) == body_verdict(transform, body@),
{
    if blank_prefix(body) == body.len() {
        return Err(ResponseFault::Found("上游返回了空的成功响应".to_owned()));
    }
    if looks_like_sse(body) {
        return Ok(());
    }
    match parse_json(body) {
        Ok(value) => validate_response_value(transform, &value),
        Err(_) => Err(ResponseFault::Found("上游返回了非 JSON 的成功响应".to_owned())),
    }
}

/// What is said of a successful body that cannot be passed on, given what the
/// server said without the secrets in it.
pub fn validation_message(fault: &ResponseFault, redacted: &str) -> (message: String)
    ensures
        message@ == "upstream semantic failure: "@ + fault@.told(redacted@),
{
    let told = fault.told_as(redacted);
    concat2("upstream semantic failure: ", told.as_str())
}

/// What the events of a stream hold, in their order, as far as they are JSON.
pub open spec fn stream_values(remaining: Seq<u8>) -> Seq<JsonView>
    decreases remaining.len(),
{
    if remaining.len() == 0 {
        seq![]
    } else {
        let (event, rest) = front_event(remaining);
        proof {
            if first_boundary(remaining, true) is Some {
                lemma_boundary_bounds(remaining, 0, true);
            }
        }
        match block_value(utf8_lossy(event)) {
            Some(value) => seq![value] + stream_values(rest),
            None => stream_values(rest),
        }
    }
}

/// The output item that an event tells of, with its index.
pub open spec fn told_item(value: JsonView) -> Option<(u64, JsonView)> {
    match (value.get_text("type"@), value.get("output_index"@), value.get("item"@)) {
        (Some(kind), Some(index), Some(item)) => if kind == "response.output_item.done"@
            && index.unsigned() is Some {
            Some((index.unsigned()->0, item))
        } else {
            None
        },
        _ => None,
    }
}

/// The last item that was told of for each index, after some events.
pub open spec fn told_items(
    before: Map<u64, JsonView>,
    values: Seq<JsonView>,
    count: int,
) -> Map<u64, JsonView>
    decreases count,
{
    if count <= 0 || values.len() == 0 {
        before
    } else {
        told_items(
            match told_item(values[0]) {
                Some((index, item)) => before.insert(index, item),
                None => before,
            },
            values.drop_first(),
            count - 1,
        )
    }
}

/// Whether an event ends a response.
pub open spec fn ends_response(value: JsonView) -> bool {
    value.get_text("type"@) == Some("response.completed"@) || value.get_text("type"@) == Some(
        "response.incomplete"@,
    )
}

/// Whether indices come in ascending order, each once.
pub open spec fn indices_ascend(items: Seq<(u64, JsonView)>) -> bool {
    forall|i: int, j: int| 0 <= i < j < items.len() ==> (#[trigger] items[i]).0 < (
    #[trigger] items[j]).0
}

/// Whether a list holds what a map does, in ascending order of indices.
pub open spec fn lists(items: Seq<(u64, JsonView)>, map: Map<u64, JsonView>) -> bool {
    &&& indices_ascend(items)
    &&& forall|index: u64, item: JsonView| #[trigger]
        items.contains((index, item)) <==> map.contains_key(index) && map[index] == item
}

proof fn lemma_item_set(items: Seq<(u64, JsonView)>, index: u64, item: JsonView)
    requires
        indices_ascend(items),
    ensures
        ({
            let after = with_output_item(items, index, item);
            &&& indices_ascend(after)
            &&& after.len() > 0
            &&& after[0].0 == (if items.len() > 0 && items[0].0 < index {
                items[0].0
            } else {
                index
            })
            &&& forall|k: u64, v: JsonView| #[trigger]
                after.contains((k, v)) <==> (if k == index {
                    v == item
                } else {
                    items.contains((k, v))
                })
        }),
    decreases items.len(),
{
    let after = with_output_item(items, index, item);
    if items.len() == 0 {
        assert(after[0] == (index, item));
    } else {
        let rest = items.drop_first();
        assert forall|i: int, j: int| 0 <= i < j < rest.len() implies (#[trigger] rest[i]).0 < (
        #[trigger] rest[j]).0 by {
            assert(rest[i] == items[i + 1] && rest[j] == items[j + 1]);
        }
        assert forall|k: u64, v: JsonView| #[trigger] items.contains((k, v)) <==> items[0] == (k, v)
            || rest.contains((k, v)) by {
            if items.contains((k, v)) {
                let place = choose|place: int| 0 <= place < items.len() && items[place] == (k, v);
                if place > 0 {
                    assert(rest[place - 1] == (k, v));
                }
            }
            if rest.contains((k, v)) {
                let place = choose|place: int| 0 <= place < rest.len() && rest[place] == (k, v);
                assert(items[place + 1] == (k, v));
            }
            if items[0] == (k, v) {
                assert(items.contains(items[0]));
            }
        }
        assert forall|k: u64, v: JsonView| rest.contains((k, v)) implies items[0].0 < k by {
            let place = choose|place: int| 0 <= place < rest.len() && rest[place] == (k, v);
            assert(items[0].0 < items[place + 1].0);
        }
        let tail = if items[0].0 == index {
            rest
        } else if index < items[0].0 {
            items
        } else {
            with_output_item(rest, index, item)
        };
        if index > items[0].0 {
            lemma_item_set(rest, index, item);
            if rest.len() > 0 {
                assert(items[0].0 < items[1].0);
            }
        }
        assert(after.drop_first() =~= tail);
        assert forall|k: u64, v: JsonView| #[trigger] after.contains((k, v)) <==> after[0] == (k, v)
            || tail.contains((k, v)) by {
            if after.contains((k, v)) {
                let place = choose|place: int| 0 <= place < after.len() && after[place] == (k, v);
                if place > 0 {
                    assert(tail[place - 1] == (k, v));
                }
            }
            if tail.contains((k, v)) {
                let place = choose|place: int| 0 <= place < tail.len() && tail[place] == (k, v);
                assert(after[place + 1] == (k, v));
            }
            if after[0] == (k, v) {
                assert(after.contains(after[0]));
            }
        }
        assert forall|i: int, j: int| 0 <= i < j < after.len() implies (#[trigger] after[i]).0 < (
        #[trigger] after[j]).0 by {
            assert(after[j] == tail[j - 1]);
            if i > 0 {
                assert(after[i] == tail[i - 1]);
            } else if items[0].0 == index {
                assert(items[0].0 < items[j].0);
            } else if index < items[0].0 {
                if j > 1 {
                    assert(items[0].0 < items[j - 1].0);
                }
            } else if j > 1 {
                assert(tail[0].0 < tail[j - 1].0);
            }
        }
    }
}

proof fn lemma_listed(
    items: Seq<(u64, JsonView)>,
    map: Map<u64, JsonView>,
    index: u64,
    item: JsonView,
)
    requires
        lists(items, map),
    ensures
        lists(with_output_item(items, index, item), map.insert(index, item)),
{
    lemma_item_set(items, index, item);
}

proof fn lemma_collected(
    remaining: Seq<u8>,
    failure: Option<Seq<char>>,
    items: Seq<(u64, JsonView)>,
    map: Map<u64, JsonView>,
    end: int,
) -> (found: Seq<(u64, JsonView)>)
    requires
        lists(items, map),
        0 <= end < stream_values(remaining).len(),
        ends_response(stream_values(remaining)[end]),
        forall|i: int| 0 <= i < end ==> !ends_response(#[trigger] stream_values(remaining)[i]),
    ensures
        lists(found, told_items(map, stream_values(remaining), end)),
        collected(remaining, failure, items) == ended_response(
            stream_values(remaining)[end],
            found,
        ),
    decreases remaining.len(),
{
    reveal_strlit("response.output_item.done");
    reveal_strlit("response.completed");
    reveal_strlit("response.incomplete");
    reveal_strlit("response.failed");
    reveal_strlit("error");
    assert("response.output_item.done"@.len() == 25 && "response.completed"@.len() == 18);
    assert("response.incomplete"@.len() == 19 && "response.failed"@.len() == 15);
    assert("error"@.len() == 5);
    let (event, rest) = front_event(remaining);
    if first_boundary(remaining, true) is Some {
        lemma_boundary_bounds(remaining, 0, true);
    }
    let values = stream_values(remaining);
    match block_value(utf8_lossy(event)) {
        Some(value) => {
            let later = stream_values(rest);
            assert(values[0] == value);
            assert(values.drop_first() =~= later);
            if ends_response(value) {
                if end > 0 {
                    assert(!ends_response(values[0]));
                }
                items
            } else {
                assert(end > 0);
                assert forall|i: int| 0 <= i < end - 1 implies !ends_response(
                    #[trigger] later[i],
                ) by {
                    assert(values[i + 1] == later[i]);
                }
                assert(values[end] == later[end - 1]);
                let next_failure = if value.get_text("type"@) == Some("response.failed"@)
                    || value.get_text("type"@) == Some("error"@) {
                    Some(error_message(value))
                } else {
                    failure
                };
                match told_item(value) {
                    Some((index, item)) => {
                        lemma_listed(items, map, index, item);
                        lemma_collected(
                            rest,
                            failure,
                            with_output_item(items, index, item),
                            map.insert(index, item),
                            end - 1,
                        )
                    },
                    None => lemma_collected(rest, next_failure, items, map, end - 1),
                }
            }
        },
        None => lemma_collected(rest, failure, items, map, end),
    }
}

/// A stream is collected into the response of the first event that ends it.
/// Where that names an output, or the stream told of no items, the response is
/// taken as it is. Where its output is empty, the output holds for each index
/// that the stream told of before the last item that it told of for it, in
/// ascending order of indices, and nothing else; the other fields stay.
pub proof fn law_collected_responses_hold_every_item(
    body: Seq<u8>,
    end: int,
    response: JsonView,
    other: Seq<char>,
)
    requires
        0 <= end < stream_values(body).len(),
        ends_response(stream_values(body)[end]),
        forall|i: int| 0 <= i < end ==> !ends_response(#[trigger] stream_values(body)[i]),
        stream_values(body)[end].get("response"@) == Some(response),
        other != "output"@,
    ensures
        ({
            let told = told_items(Map::empty(), stream_values(body), end);
            &&& collected(body, None, seq![]) matches Ok(result) && {
                &&& result.get(other) == response.get(other)
                &&& if response.get("output"@) == Some(JsonView::Array(seq![])) && told.dom()
                    != Set::<u64>::empty() {
                    exists|keys: Seq<u64>|
                        {
                            &&& forall|i: int, j: int|
                                0 <= i < j < keys.len() ==> (#[trigger] keys[i]) < (
                                #[trigger] keys[j])
                            &&& forall|key: u64| #[trigger]
                                keys.contains(key) <==> told.contains_key(key)
                            &&& #[trigger] result.get("output"@) == Some(
                                JsonView::Array(Seq::new(keys.len(), |i: int| told[keys[i]])),
                            )
                        }
                } else {
                    result == response
                }
            }
        }),
{
    let values = stream_values(body);
    let told = told_items(Map::empty(), values, end);
    let nothing = Seq::<(u64, JsonView)>::empty();
    assert(lists(nothing, Map::empty()));
    let found = lemma_collected(body, None, nothing, Map::empty(), end);
    let keys = Seq::new(found.len(), |i: int| found[i].0);
    assert forall|i: int| 0 <= i < found.len() implies told.contains_key((#[trigger] found[i]).0)
        && told[found[i].0] == found[i].1 by {
        assert(found.contains((found[i].0, found[i].1)));
    }
    assert forall|key: u64| #[trigger] keys.contains(key) <==> told.contains_key(key) by {
        if keys.contains(key) {
            let place = choose|place: int| 0 <= place < keys.len() && keys[place] == key;
            assert(told.contains_key(found[place].0));
        }
        if told.contains_key(key) {
            assert(found.contains((key, told[key])));
            let place = choose|place: int|
                0 <= place < found.len() && found[place] == (key, told[key]);
            assert(keys[place] == key);
        }
    }
    if found.len() > 0 {
        assert(told.dom().contains(found[0].0));
    } else {
        assert(told.dom() =~= Set::<u64>::empty()) by {
            assert forall|key: u64| !told.dom().contains(key) by {
                assert(!keys.contains(key));
            }
        }
    }
    let output = JsonView::Array(Seq::new(found.len(), |i: int| found[i].1));
    let listed = JsonView::Array(Seq::new(keys.len(), |i: int| told[keys[i]]));
    assert(output->Array_0 =~= listed->Array_0);
    let empty = response.get("output"@) == Some(JsonView::Array(seq![]));
    assert(empty == (items_in(response.get("output"@)) matches Some(output) && output.len() == 0))
        by {
        if let Some(JsonView::Array(list)) = response.get("output"@) {
            if list.len() == 0 {
                assert(list =~= seq![]);
            }
        }
    }
    if empty {
        lemma_with_field(response, "output"@, output, "output"@);
        lemma_with_field(response, "output"@, output, other);
        if found.len() > 0 {
            let result = response.with("output"@, output);
            assert(result.get("output"@) == Some(listed));
        }
    }
}

/// A stream without an event that ends it gives no response.
pub proof fn law_streams_without_an_end_give_no_response(
    body: Seq<u8>,
    failure: Option<Seq<char>>,
    items: Seq<(u64, JsonView)>,
)
    requires
        forall|i: int|
            0 <= i < stream_values(body).len() ==> !ends_response(#[trigger] stream_values(body)[i]),
    ensures
        collected(body, failure, items) is Err,
        failure is Some ==> collected(body, failure, items)->Err_0 is Reported,
    decreases body.len(),
{
    if body.len() > 0 {
        let (event, rest) = front_event(body);
        if first_boundary(body, true) is Some {
            lemma_boundary_bounds(body, 0, true);
        }
        let values = stream_values(body);
        let later = stream_values(rest);
        if let Some(value) = block_value(utf8_lossy(event)) {
            assert(values[0] == value);
            assert forall|i: int| 0 <= i < later.len() implies !ends_response(
                #[trigger] later[i],
            ) by {
                assert(values[i + 1] == later[i]);
            }
            let next_failure = if value.get_text("type"@) == Some("response.failed"@)
                || value.get_text("type"@) == Some("error"@) {
                Some(error_message(value))
            } else {
                failure
            };
            law_streams_without_an_end_give_no_response(rest, next_failure, items);
            law_streams_without_an_end_give_no_response(rest, failure, items);
            if let Some((index, item)) = told_item(value) {
                law_streams_without_an_end_give_no_response(
                    rest,
                    failure,
                    with_output_item(items, index, item),
                );
            }
        } else {
            law_streams_without_an_end_give_no_response(rest, failure, items);
        }
    }
}

/// A successful body is passed on exactly where the client can make use of it: it
/// is events, a chat completion with a message where one was asked for, or a
/// response. One that reports a failure is not, and says which.
pub proof fn law_useful_bodies_are_passed_on(value: JsonView)
    ensures
        failure_message(value) is Some ==> (forall|transform: ResponseTransform| #[trigger]
            value_verdict(transform, Ok(value)) == Err::<(), FaultView>(
                FaultView::Reported(failure_message(value)->0),
            )),
        failure_message(value) is None ==> (value_verdict(
            ResponseTransform::ChatCompletionsToResponses,
            Ok(value),
        ) is Ok <==> (value.get("choices"@) matches Some(JsonView::Array(choices)) && choices.len()
            > 0 && (choices[0].get("message"@) matches Some(message) && message is Object))),
        failure_message(value) is None && value.get_text("object"@) == Some("response"@)
            && value.get_text("status"@) == Some("completed"@) ==> value_verdict(
            ResponseTransform::Passthrough,
            Ok(value),
        ) is Ok,
        value.get_text("object"@) != Some("response"@) ==> value_verdict(
            ResponseTransform::Passthrough,
            Ok(value),
        ) is Err,
        value_verdict(ResponseTransform::OfficialCodexStreamToResponse, Ok(value)) is Err,
{
}

/// A body without anything in it is not passed on, and neither is one that is
/// neither events nor JSON.
pub proof fn law_blank_bodies_are_not_passed_on(transform: ResponseTransform, body: Seq<u8>)
    ensures
        skip_blank(body).len() == 0 ==> body_verdict(transform, body) is Err,
        !begins_event(skip_blank(body)) && parsed_json(body) is Err ==> body_verdict(
            transform,
            body,
        ) is Err,
        skip_blank(body).len() > 0 && begins_event(skip_blank(body)) ==> body_verdict(
            transform,
            body,
        ) is Ok,
{
}

/// A block with one line of data holds what that line reads as.
pub proof fn law_blocks_hold_their_data(data: Seq<char>, value: JsonView)
    requires
        one_line(data),
        data.len() > 0,
        !white_space(data[0]),
        data != "[DONE]"@,
        parsed_json(encode_utf8(data)) matches Ok(read) && read == value,
    ensures
        block_value("data: "@ + data) == Some(value),
{
    law_data_of_events_is_read(data, data, true);
}

} // verus!
