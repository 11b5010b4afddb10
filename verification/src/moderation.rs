//! What is answered when the content of a request was refused.
use crate::json::{
    integer, integer_view, no_items, obj, object, one_item, parse_json, parsed_json, render_json,
    rendered, str_view, text, text_or_null, unsigned, views, Json, JsonNumber, JsonView,
};
use crate::text::{
    begins, concat2, concat3, ends, ends_with, holds, signed_decimal, signed_numeral,
};
use vstd::prelude::*;
use vstd::string::*;

verus! {

/// What the client is told.
pub fn notice() -> (words: &'static str)
    ensures
        words@ == "本轮内容被上游内容审核拦截，请切换模型后重试。"@,
{
    "本轮内容被上游内容审核拦截，请切换模型后重试。"
}

/// When an answer is made, in microseconds and in seconds.
#[derive(Debug, Clone, Copy, PartialEq, Eq, Structural)]
pub struct AnswerTime {
    pub micros: i64,
    pub seconds: i64,
}

/// An unsigned number as JSON.
pub open spec fn count_json(value: u64) -> JsonView {
    JsonView::Number(JsonNumber::Unsigned(value))
}

/// A text that may be missing as JSON.
pub open spec fn model_json(model: Option<Seq<char>>) -> JsonView {
    match model {
        Some(name) => JsonView::Text(name),
        None => JsonView::Null,
    }
}

/// The id of the response.
pub open spec fn notice_id(time: AnswerTime) -> Seq<char> {
    "resp_moderation_"@ + signed_numeral(time.micros)
}

/// The message of the response.
pub open spec fn notice_item(time: AnswerTime) -> JsonView {
    obj().entry("id"@, JsonView::Text("msg_"@ + notice_id(time))).entry(
        "type"@,
        JsonView::Text("message"@),
    ).entry("role"@, JsonView::Text("assistant"@)).entry(
        "status"@,
        JsonView::Text("completed"@),
    ).entry(
        "content"@,
        JsonView::Array(
            seq![
                obj().entry("type"@, JsonView::Text("output_text"@)).entry(
                    "text"@,
                    JsonView::Text("本轮内容被上游内容审核拦截，请切换模型后重试。"@),
                ),
            ],
        ),
    )
}

/// Token counts of nothing.
pub open spec fn no_usage() -> JsonView {
    obj().entry("input_tokens"@, count_json(0)).entry("output_tokens"@, count_json(0)).entry(
        "total_tokens"@,
        count_json(0),
    ).entry("input_tokens_details"@, obj().entry("cached_tokens"@, count_json(0))).entry(
        "output_tokens_details"@,
        obj().entry("reasoning_tokens"@, count_json(0)),
    )
}

/// The response in a state, with what it puts out.
pub open spec fn notice_response(
    model: Option<Seq<char>>,
    time: AnswerTime,
    status: Seq<char>,
    output: Seq<JsonView>,
) -> JsonView {
    obj().entry("id"@, JsonView::Text(notice_id(time))).entry(
        "object"@,
        JsonView::Text("response"@),
    ).entry("created_at"@, integer_view(time.seconds)).entry(
        "status"@,
        JsonView::Text(status),
    ).entry("model"@, model_json(model)).entry("background"@, JsonView::Bool(false)).entry(
        "error"@,
        JsonView::Null,
    ).entry("incomplete_details"@, JsonView::Null).entry("output"@, JsonView::Array(output)).entry(
        "usage"@,
        no_usage(),
    )
}

/// The response once it is complete.
pub open spec fn complete_notice(model: Option<Seq<char>>, time: AnswerTime) -> JsonView {
    notice_response(model, time, "completed"@, seq![notice_item(time)])
}

/// The response before it puts anything out.
pub open spec fn opening_notice(model: Option<Seq<char>>, time: AnswerTime) -> JsonView {
    notice_response(model, time, "in_progress"@, seq![])
}

fn usage_of_nothing() -> (json: Json)
    ensures
        json@ == no_usage(),
{
    object().entry("input_tokens", unsigned(0)).entry("output_tokens", unsigned(0)).entry(
        "total_tokens",
        unsigned(0),
    ).entry("input_tokens_details", object().entry("cached_tokens", unsigned(0))).entry(
        "output_tokens_details",
        object().entry("reasoning_tokens", unsigned(0)),
    )
}

fn id_text(time: AnswerTime) -> (id: String)
    ensures
        id@ == notice_id(time),
{
    let number = signed_decimal(time.micros);
    concat2("resp_moderation_", number.as_str())
}

fn item_json(time: AnswerTime) -> (json: Json)
    ensures
        json@ == notice_item(time),
{
    let id = id_text(time);
    let item_id = concat2("msg_", id.as_str());
    let part = object().entry("type", text("output_text")).entry("text", text(notice()));
    object().entry("id", text(item_id.as_str())).entry("type", text("message")).entry(
        "role",
        text("assistant"),
    ).entry("status", text("completed")).entry("content", one_item(part))
}

fn response_json(
    model: Option<&str>,
    time: AnswerTime,
    status: &str,
    output: Json,
) -> (json: Json)
    requires
        output@ is Array,
    ensures
        json@ == notice_response(str_view(model), time, status@, output@->Array_0),
{
    let id = id_text(time);
    object().entry("id", text(id.as_str())).entry("object", text("response")).entry(
        "created_at",
        integer(time.seconds),
    ).entry("status", text(status)).entry("model", text_or_null(model)).entry(
        "background",
        Json::Bool(false),
    ).entry("error", Json::Null).entry("incomplete_details", Json::Null).entry(
        "output",
        output,
    ).entry("usage", usage_of_nothing())
}

/// The response that tells the client.
pub fn response_object(model: Option<&str>, time: AnswerTime) -> (json: Json)
    ensures
        json@ == complete_notice(str_view(model), time),
{
    response_json(model, time, "completed", one_item(item_json(time)))
}

/// An event of the response, numbered.
pub open spec fn notice_event(kind: Seq<char>, number: u64) -> JsonView {
    obj().entry("type"@, JsonView::Text(kind)).entry("sequence_number"@, count_json(number))
}

/// The events of the response, in order.
pub open spec fn notice_frames(model: Option<Seq<char>>, time: AnswerTime) -> Seq<JsonView> {
    let item = notice_item(time);
    Seq::<JsonView>::empty().push(
        notice_event("response.created"@, 0).entry("response"@, opening_notice(model, time)),
    ).push(
        notice_event("response.in_progress"@, 1).entry("response"@, opening_notice(model, time)),
    ).push(
        notice_event("response.output_item.added"@, 2).entry("output_index"@, count_json(0)).entry(
            "item"@,
            item,
        ),
    ).push(
        notice_event("response.output_text.delta"@, 3).entry(
            "item_id"@,
            JsonView::Text("msg_"@ + notice_id(time)),
        ).entry("output_index"@, count_json(0)).entry("content_index"@, count_json(0)).entry(
            "delta"@,
            JsonView::Text("本轮内容被上游内容审核拦截，请切换模型后重试。"@),
        ),
    ).push(
        notice_event("response.output_item.done"@, 4).entry("output_index"@, count_json(0)).entry(
            "item"@,
            item,
        ),
    ).push(
        notice_event("response.completed"@, 5).entry("response"@, complete_notice(model, time)),
    )
}

fn event_json(kind: &str, number: u64) -> (json: Json)
    ensures
        json@ == notice_event(kind@, number),
{
    object().entry("type", text(kind)).entry("sequence_number", unsigned(number))
}

/// The events of the response, in order.
pub fn frames(model: Option<&str>, time: AnswerTime) -> (events: Vec<Json>)
    ensures
        views(events@) == notice_frames(str_view(model), time),
{
    let id = id_text(time);
    let item_id = concat2("msg_", id.as_str());
    let created = event_json("response.created", 0).entry(
        "response",
        response_json(model, time, "in_progress", no_items()),
    );
    let progress = event_json("response.in_progress", 1).entry(
        "response",
        response_json(model, time, "in_progress", no_items()),
    );
    let added = event_json("response.output_item.added", 2).entry(
        "output_index",
        unsigned(0),
    ).entry("item", item_json(time));
    let delta = event_json("response.output_text.delta", 3).entry(
        "item_id",
        text(item_id.as_str()),
    ).entry("output_index", unsigned(0)).entry("content_index", unsigned(0)).entry(
        "delta",
        text(notice()),
    );
    let done = event_json("response.output_item.done", 4).entry("output_index", unsigned(0)).entry(
        "item",
        item_json(time),
    );
    let completed = event_json("response.completed", 5).entry(
        "response",
        response_object(model, time),
    );
    let mut events: Vec<Json> = Vec::new();
    events.push(created);
    events.push(progress);
    events.push(added);
    events.push(delta);
    events.push(done);
    events.push(completed);
    assert(views(events@) =~= notice_frames(str_view(model), time));
    events
}

/// The events of the notice are numbered in order, and the last of them ends the
/// response, with no tokens counted.
pub proof fn law_notice_frames_are_ordered(
    model: Option<Seq<char>>,
    time: AnswerTime,
    index: int,
)
    requires
        0 <= index < notice_frames(model, time).len(),
    ensures
        notice_frames(model, time).len() == 6,
        notice_frames(model, time)[index].get("sequence_number"@) == Some(
            count_json(index as u64),
        ),
        notice_frames(model, time)[5].get("response"@) == Some(complete_notice(model, time)),
        complete_notice(model, time).get("status"@) == Some(JsonView::Text("completed"@)),
        complete_notice(model, time).get("usage"@) == Some(no_usage()),
        no_usage().get("total_tokens"@) == Some(count_json(0)),
{
    broadcast use crate::json::lemma_entry_field;

    reveal_strlit("type");
    reveal_strlit("sequence_number");
    reveal_strlit("response");
    reveal_strlit("id");
    reveal_strlit("object");
    reveal_strlit("created_at");
    reveal_strlit("status");
    reveal_strlit("model");
    reveal_strlit("background");
    reveal_strlit("error");
    reveal_strlit("incomplete_details");
    reveal_strlit("output");
    reveal_strlit("usage");
    reveal_strlit("input_tokens");
    reveal_strlit("output_tokens");
    reveal_strlit("total_tokens");
    assert("type"@.len() == 4 && "sequence_number"@.len() == 15 && "response"@.len() == 8);
    assert("id"@.len() == 2 && "created_at"@.len() == 10 && "background"@.len() == 10);
    assert("incomplete_details"@.len() == 18 && "output"@.len() == 6 && "usage"@.len() == 5);
    assert("output_tokens"@.len() == 13 && "total_tokens"@.len() == 12);
    assert("object"@[0] == 'o' && "status"@[0] == 's' && "model"@[0] == 'm');
    assert("error"@[0] == 'e' && "usage"@[0] == 'u' && "input_tokens"@[0] == 'i');
    assert("total_tokens"@[0] == 't' && "output"@[0] == 'o');
    assert(obj().get("sequence_number"@) is None);
    assert(obj().get("response"@) is None);
    assert(obj().get("status"@) is None);
    assert(obj().get("usage"@) is None);
    assert(obj().get("total_tokens"@) is None);
}

/// The answer as a chat completion, with the choices that it gives.
pub open spec fn chat_notice(
    model: Option<Seq<char>>,
    time: AnswerTime,
    kind: Seq<char>,
    choice: JsonView,
) -> JsonView {
    obj().entry("id"@, JsonView::Text("chatcmpl_moderation_"@ + signed_numeral(time.micros))).entry(
        "object"@,
        JsonView::Text(kind),
    ).entry("created"@, integer_view(time.seconds)).entry("model"@, model_json(model)).entry(
        "choices"@,
        JsonView::Array(seq![choice]),
    ).entry(
        "usage"@,
        obj().entry("prompt_tokens"@, count_json(0)).entry(
            "completion_tokens"@,
            count_json(0),
        ).entry("total_tokens"@, count_json(0)),
    )
}

/// A choice of a chat completion: what it holds under a name, and how it ended.
pub open spec fn chat_choice(name: Seq<char>, content: JsonView, finish: JsonView) -> JsonView {
    obj().entry("index"@, count_json(0)).entry(name, content).entry("finish_reason"@, finish)
}

/// The words of the assistant.
pub open spec fn notice_words() -> JsonView {
    obj().entry("role"@, JsonView::Text("assistant"@)).entry(
        "content"@,
        JsonView::Text("本轮内容被上游内容审核拦截，请切换模型后重试。"@),
    )
}

fn chat_json(model: Option<&str>, time: AnswerTime, kind: &str, choice: Json) -> (json: Json)
    ensures
        json@ == chat_notice(str_view(model), time, kind@, choice@),
{
    let number = signed_decimal(time.micros);
    let id = concat2("chatcmpl_moderation_", number.as_str());
    object().entry("id", text(id.as_str())).entry("object", text(kind)).entry(
        "created",
        integer(time.seconds),
    ).entry("model", text_or_null(model)).entry("choices", one_item(choice)).entry(
        "usage",
        object().entry("prompt_tokens", unsigned(0)).entry("completion_tokens", unsigned(0)).entry(
            "total_tokens",
            unsigned(0),
        ),
    )
}

fn choice_json(name: &str, content: Json, finish: Json) -> (json: Json)
    ensures
        json@ == chat_choice(name@, content@, finish@),
{
    object().entry("index", unsigned(0)).entry(name, content).entry("finish_reason", finish)
}

fn words_json() -> (json: Json)
    ensures
        json@ == notice_words(),
{
    object().entry("role", text("assistant")).entry("content", text(notice()))
}

/// The events of a stream as text, up to one of them: each with its type and its
/// JSON.
pub open spec fn written_frames(
    kinds: Seq<Seq<char>>,
    events: Seq<JsonView>,
    count: int,
) -> Seq<char>
    decreases count,
{
    if !(0 < count <= events.len()) {
        seq![]
    } else {
        written_frames(kinds, events, count - 1) + ("event: "@ + kinds[count - 1] + ("\ndata: "@
            + rendered(events[count - 1]) + "\n\n"@))
    }
}

/// The types of the events of the notice.
pub open spec fn frame_kinds() -> Seq<Seq<char>> {
    Seq::<Seq<char>>::empty().push("response.created"@).push("response.in_progress"@).push(
        "response.output_item.added"@,
    ).push("response.output_text.delta"@).push("response.output_item.done"@).push(
        "response.completed"@,
    )
}

fn write_frame(written: &mut String, kind: &str, event: &Json)
    ensures
        final(written)@ == old(written)@ + ("event: "@ + kind@ + ("\ndata: "@ + rendered(event@)
            + "\n\n"@)),
{
    let data = render_json(event);
    let end = concat3("\ndata: ", data.as_str(), "\n\n");
    let frame = concat3("event: ", kind, end.as_str());
    written.append(frame.as_str());
}

fn stream_text(model: Option<&str>, time: AnswerTime) -> (written: String)
    ensures
        written@ == written_frames(frame_kinds(), notice_frames(str_view(model), time), 6),
{
    let events = frames(model, time);
    let ghost all = notice_frames(str_view(model), time);
    let ghost kinds = frame_kinds();
    assert(all.len() == 6);
    assert(views(events@).len() == events@.len());
    let mut written = String::new();
    assert(written@ =~= written_frames(kinds, all, 0));
    assert(views(events@)[0] == events@[0]@);
    write_frame(&mut written, "response.created", &events[0]);
    assert(written@ == written_frames(kinds, all, 1));
    assert(views(events@)[1] == events@[1]@);
    write_frame(&mut written, "response.in_progress", &events[1]);
    assert(written@ == written_frames(kinds, all, 2));
    assert(views(events@)[2] == events@[2]@);
    write_frame(&mut written, "response.output_item.added", &events[2]);
    assert(written@ == written_frames(kinds, all, 3));
    assert(views(events@)[3] == events@[3]@);
    write_frame(&mut written, "response.output_text.delta", &events[3]);
    assert(written@ == written_frames(kinds, all, 4));
    assert(views(events@)[4] == events@[4]@);
    write_frame(&mut written, "response.output_item.done", &events[4]);
    assert(written@ == written_frames(kinds, all, 5));
    assert(views(events@)[5] == events@[5]@);
    write_frame(&mut written, "response.completed", &events[5]);
    assert(written@ == written_frames(kinds, all, 6));
    written
}

/// Whether a request wants a stream.
pub open spec fn wants_stream(body: Seq<u8>) -> bool {
    match parsed_json(body) {
        Ok(value) => match value.get("stream"@) {
            Some(flag) => flag == JsonView::Bool(true),
            None => false,
        },
        Err(_) => false,
    }
}

/// Whether a request wants a stream.
pub fn request_wants_stream(body: &[u8]) -> (streaming: bool)
    ensures
        streaming == wants_stream(body@),
{
    match parse_json(body) {
        Ok(value) => match value.get("stream") {
            Some(flag) => match flag.as_bool() {
                Some(streaming) => streaming,
                None => false,
            },
            None => false,
        },
        Err(_) => false,
    }
}

/// What is sent to tell the client: in the form of the endpoint that it asked,
/// as a stream or at once.
pub open spec fn notice_payload(
    path: Seq<char>,
    streaming: bool,
    model: Option<Seq<char>>,
    time: AnswerTime,
) -> Seq<char> {
    let chat = ends(path, "/chat/completions"@);
    if streaming && chat {
        let first = chat_notice(
            model,
            time,
            "chat.completion.chunk"@,
            chat_choice("delta"@, notice_words(), JsonView::Null),
        );
        let last = chat_notice(
            model,
            time,
            "chat.completion.chunk"@,
            chat_choice("delta"@, obj(), JsonView::Text("stop"@)),
        );
        "data: "@ + rendered(first) + "\n\n"@ + ("data: "@ + rendered(last)
            + "\n\ndata: [DONE]\n\n"@)
    } else if streaming {
        written_frames(frame_kinds(), notice_frames(model, time), 6)
    } else if chat {
        rendered(
            chat_notice(
                model,
                time,
                "chat.completion"@,
                chat_choice("message"@, notice_words(), JsonView::Text("stop"@)),
            ),
        )
    } else {
        rendered(complete_notice(model, time))
    }
}

/// What is sent to tell the client.
pub fn payload(path: &str, streaming: bool, model: Option<&str>, time: AnswerTime) -> (body: String)
    ensures
        body@ == notice_payload(path@, streaming, str_view(model), time),
{
    let chat = ends_with(path, "/chat/completions");
    if streaming && chat {
        let first = chat_json(
            model,
            time,
            "chat.completion.chunk",
            choice_json("delta", words_json(), Json::Null),
        );
        let last = chat_json(
            model,
            time,
            "chat.completion.chunk",
            choice_json("delta", object(), text("stop")),
        );
        let first_text = render_json(&first);
        let last_text = render_json(&last);
        let head = concat3("data: ", first_text.as_str(), "\n\n");
        let tail = concat3("data: ", last_text.as_str(), "\n\ndata: [DONE]\n\n");
        concat2(head.as_str(), tail.as_str())
    } else if streaming {
        stream_text(model, time)
    } else if chat {
        render_json(
            &chat_json(
                model,
                time,
                "chat.completion",
                choice_json("message", words_json(), text("stop")),
            ),
        )
    } else {
        render_json(&response_object(model, time))
    }
}

/// The content type of what is sent.
pub fn content_type(streaming: bool) -> (kind: &'static str)
    ensures
        kind@ == (if streaming {
            "text/event-stream"@
        } else {
            "application/json"@
        }),
{
    if streaming {
        "text/event-stream"
    } else {
        "application/json"
    }
}

/// The notice says one text, whatever its form: the message of the response, the
/// piece that is streamed and the words of a chat completion are the same.
pub proof fn law_notices_say_the_same(model: Option<Seq<char>>, time: AnswerTime)
    ensures
        ({
            let item = notice_item(time);
            let said = notice_words().get_text("content"@);
            &&& said is Some
            &&& notice_words().get_text("role"@) == Some("assistant"@)
            &&& item.get_text("role"@) == Some("assistant"@)
            &&& item.get("content"@) matches Some(JsonView::Array(parts)) && parts.len() == 1
                && parts[0].get_text("text"@) == said
            &&& notice_frames(model, time)[3].get_text("type"@) == Some(
                "response.output_text.delta"@,
            )
            &&& notice_frames(model, time)[3].get_text("delta"@) == said
            &&& complete_notice(model, time).get("output"@) == Some(JsonView::Array(seq![item]))
            &&& complete_notice(model, time).get("model"@) == Some(
                match model {
                    Some(name) => JsonView::Text(name),
                    None => JsonView::Null,
                },
            )
        }),
{
    broadcast use crate::json::lemma_entry_field;

    reveal_strlit("type");
    reveal_strlit("sequence_number");
    reveal_strlit("item_id");
    reveal_strlit("output_index");
    reveal_strlit("content_index");
    reveal_strlit("delta");
    reveal_strlit("role");
    reveal_strlit("content");
    reveal_strlit("text");
    reveal_strlit("id");
    reveal_strlit("status");
    reveal_strlit("object");
    reveal_strlit("created_at");
    reveal_strlit("model");
    reveal_strlit("background");
    reveal_strlit("error");
    reveal_strlit("incomplete_details");
    reveal_strlit("output");
    reveal_strlit("usage");
    assert("type"@.len() == 4);
    assert("sequence_number"@.len() == 15);
    assert("item_id"@.len() == 7);
    assert("output_index"@.len() == 12);
    assert("content_index"@.len() == 13);
    assert("delta"@.len() == 5);
    assert("role"@.len() == 4);
    assert("content"@.len() == 7);
    assert("text"@.len() == 4);
    assert("id"@.len() == 2);
    assert("status"@.len() == 6);
    assert("object"@.len() == 6);
    assert("created_at"@.len() == 10);
    assert("model"@.len() == 5);
    assert("background"@.len() == 10);
    assert("error"@.len() == 5);
    assert("incomplete_details"@.len() == 18);
    assert("output"@.len() == 6);
    assert("usage"@.len() == 5);
    assert("type"@[0] != "role"@[0]);
    assert("type"@[1] != "text"@[1]);
    assert("item_id"@[0] != "content"@[0]);
    assert("delta"@[0] != "model"@[0]);
    assert("delta"@[0] != "error"@[0]);
    assert("delta"@[0] != "usage"@[0]);
    assert("role"@[0] != "text"@[0]);
    assert("status"@[0] != "object"@[0]);
    assert("status"@[0] != "output"@[0]);
    assert("object"@[1] != "output"@[1]);
    assert("created_at"@[0] != "background"@[0]);
    assert("model"@[0] != "error"@[0]);
    assert("model"@[0] != "usage"@[0]);
    assert("error"@[0] != "usage"@[0]);
    let frame = notice_frames(model, time)[3];
    let words = JsonView::Text("本轮内容被上游内容审核拦截，请切换模型后重试。"@);
    let said = notice_words();
    assert(said.get("content"@) == Some(words));
    assert(said.get("role"@) == Some(JsonView::Text("assistant"@)));
    assert(frame.get("delta"@) == Some(words));
    assert(frame.get("type"@) == Some(JsonView::Text("response.output_text.delta"@)));
    let item = notice_item(time);
    assert(item.get("role"@) == Some(JsonView::Text("assistant"@)));
    let part = obj().entry("type"@, JsonView::Text("output_text"@)).entry("text"@, words);
    assert(part.get("text"@) == Some(words));
    assert(item.get("content"@) == Some(JsonView::Array(seq![part])));
    let whole = complete_notice(model, time);
    assert(whole.get("output"@) == Some(JsonView::Array(seq![item])));
    assert(whole.get("model"@) == Some(model_json(model)));
}

proof fn lemma_holds(front: Seq<char>, piece: Seq<char>, back: Seq<char>)
    ensures
        holds(front + piece + back, piece),
{
    let all = front + piece + back;
    let rest = all.skip(front.len() as int);
    assert(rest.take(piece.len() as int) =~= piece);
    assert(begins(rest, piece));
}

proof fn lemma_frame_held(kinds: Seq<Seq<char>>, events: Seq<JsonView>, count: int, i: int)
    requires
        0 <= i < count <= events.len(),
    ensures
        holds(written_frames(kinds, events, count), "data: "@ + rendered(events[i]) + "\n\n"@),
    decreases count,
{
    let piece = "data: "@ + rendered(events[i]) + "\n\n"@;
    let before = written_frames(kinds, events, count - 1);
    let all = written_frames(kinds, events, count);
    if i == count - 1 {
        reveal_strlit("\ndata: ");
        reveal_strlit("data: ");
        reveal_strlit("\n");
        assert("\ndata: "@ =~= "\n"@ + "data: "@);
        let front = before + ("event: "@ + kinds[i] + "\n"@);
        assert(all =~= front + piece + Seq::<char>::empty());
        lemma_holds(front, piece, seq![]);
    } else {
        lemma_frame_held(kinds, events, count - 1, i);
        let from = choose|from: int|
            #![trigger before.skip(from)]
            0 <= from <= before.len() && begins(before.skip(from), piece);
        assert(all.skip(from).take(piece.len() as int) =~= before.skip(from).take(
            piece.len() as int,
        ));
        assert(begins(all.skip(from), piece));
    }
}

/// A notice that is streamed as a response holds each of its events as data.
pub proof fn law_streamed_notices_hold_every_event(
    path: Seq<char>,
    model: Option<Seq<char>>,
    time: AnswerTime,
    i: int,
)
    requires
        !ends(path, "/chat/completions"@),
        0 <= i < notice_frames(model, time).len(),
    ensures
        holds(
            notice_payload(path, true, model, time),
            "data: "@ + rendered(notice_frames(model, time)[i]) + "\n\n"@,
        ),
{
    lemma_frame_held(frame_kinds(), notice_frames(model, time), 6, i);
}

/// A notice to a chat completion is a completion with one choice, which says the
/// notice: as its message, or as its first piece in a stream that is then ended.
/// A notice that is no stream is nothing else.
pub proof fn law_notices_of_chats_are_completions(
    path: Seq<char>,
    streaming: bool,
    model: Option<Seq<char>>,
    time: AnswerTime,
) -> (sent: JsonView)
    requires
        ends(path, "/chat/completions"@),
    ensures
        ({
            let payload = notice_payload(path, streaming, model, time);
            &&& !streaming ==> payload == rendered(sent)
            &&& streaming ==> holds(payload, "data: "@ + rendered(sent) + "\n\n"@) && ends(
                payload,
                "data: [DONE]\n\n"@,
            )
        }),
        sent.get("model"@) == Some(
            match model {
                Some(name) => JsonView::Text(name),
                None => JsonView::Null,
            },
        ),
        sent.get_text("object"@) == Some(
            if streaming {
                "chat.completion.chunk"@
            } else {
                "chat.completion"@
            },
        ),
        sent.get("choices"@) matches Some(JsonView::Array(choices)) && choices.len() == 1
            && choices[0].get(
            if streaming {
                "delta"@
            } else {
                "message"@
            },
        ) == Some(notice_words()),
{
    broadcast use crate::json::lemma_entry_field;

    reveal_strlit("id");
    reveal_strlit("object");
    reveal_strlit("created");
    reveal_strlit("model");
    reveal_strlit("choices");
    reveal_strlit("usage");
    reveal_strlit("index");
    reveal_strlit("finish_reason");
    reveal_strlit("delta");
    reveal_strlit("message");
    assert("id"@.len() == 2);
    assert("object"@.len() == 6);
    assert("created"@.len() == 7);
    assert("model"@.len() == 5);
    assert("choices"@.len() == 7);
    assert("usage"@.len() == 5);
    assert("index"@.len() == 5);
    assert("finish_reason"@.len() == 13);
    assert("delta"@.len() == 5);
    assert("message"@.len() == 7);
    assert("created"@[1] != "choices"@[1]);
    assert("created"@[0] != "message"@[0]);
    assert("model"@[0] != "usage"@[0]);
    assert("model"@[0] != "index"@[0]);
    assert("model"@[0] != "delta"@[0]);
    assert("choices"@[0] != "message"@[0]);
    assert("usage"@[0] != "index"@[0]);
    assert("usage"@[0] != "delta"@[0]);
    assert("index"@[0] != "delta"@[0]);
    let kind = if streaming {
        "chat.completion.chunk"@
    } else {
        "chat.completion"@
    };
    let name = if streaming {
        "delta"@
    } else {
        "message"@
    };
    let finish = if streaming {
        JsonView::Null
    } else {
        JsonView::Text("stop"@)
    };
    let choice = chat_choice(name, notice_words(), finish);
    let sent = chat_notice(model, time, kind, choice);
    let payload = notice_payload(path, streaming, model, time);
    if streaming {
        let last = chat_notice(
            model,
            time,
            "chat.completion.chunk"@,
            chat_choice("delta"@, obj(), JsonView::Text("stop"@)),
        );
        let piece = "data: "@ + rendered(sent) + "\n\n"@;
        let back = "data: "@ + rendered(last) + "\n\ndata: [DONE]\n\n"@;
        assert(payload =~= Seq::<char>::empty() + piece + back);
        lemma_holds(seq![], piece, back);
        reveal_strlit("\n\ndata: [DONE]\n\n");
        reveal_strlit("data: [DONE]\n\n");
        let end = "data: [DONE]\n\n"@;
        assert(payload.skip(payload.len() - end.len()) =~= end);
    }
    assert(choice.get(name) == Some(notice_words()));
    assert(sent.get("object"@) == Some(JsonView::Text(kind)));
    assert(sent.get("choices"@) == Some(JsonView::Array(seq![choice])));
    assert(sent.get("model"@) is Some);
    sent
}

} // verus!
