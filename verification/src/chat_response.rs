//! A response of Chat Completions as a response of the Responses protocol.
use crate::chat_input::{content_text, message_content_text, part_text, part_texts};
use crate::clock::unix_now;
use crate::digest::{hex, hex_text, sha256, sha256_digest};
use crate::history::{ChatHistoryEntry, EntryView};
use crate::json::{
    array, at, copy_all, get_at, integer, integer_view, items_in,
    lemma_entry_field, lemma_with_field, no_items, obj, object, one_item,
    parse_json, parsed_json, render_bytes, rendered, seen, str_view, text, text_at, text_in, views,
    Json, JsonView,
};
use crate::media::{argument_text, json_argument_string};
use crate::preflight::{first_choice, first_member_of};
use crate::text::{begins, concat2, cut, cut_to, decimal, ends, joined, numeral, starts_with};
use crate::tools::{
    copy_or_null, or_empty, or_null, text_or_empty, tool_named, ChatToolContext, ChatToolKind,
    ToolView,
};
use vstd::prelude::*;
use vstd::string::*;
use vstd::utf8::*;

verus! {

/// The identifier of the response that a chat completion becomes.
pub open spec fn response_id(chat_id: Seq<char>) -> Seq<char> {
    if begins(chat_id, "resp_"@) {
        chat_id
    } else {
        "resp_"@ + chat_id
    }
}

/// The identifier of the response that a chat completion becomes.
pub fn response_id_from_chat_id(id: &str) -> (result: String)
    ensures
        result@ == response_id(id@),
{
    if starts_with(id, "resp_") {
        id.to_owned()
    } else {
        concat2("resp_", id)
    }
}

/// An identifier that follows from what a value holds: the first 24 digits of
/// the digest of its JSON text.
pub open spec fn stable_id(value: JsonView) -> Seq<char> {
    "resp_cc_"@ + cut(hex(sha256(encode_utf8(rendered(value)))), 24)
}

/// An identifier that follows from what a value holds.
pub fn stable_response_id(value: &Json) -> (id: String)
    ensures
        id@ == stable_id(value@),
{
    let bytes = render_bytes(value);
    let digest = sha256_digest(bytes.as_slice());
    let digits = hex_text(digest.as_slice());
    concat2("resp_cc_", &cut_to(&digits, 24))
}

/// What the identifier of a chat completion without one follows from.
pub open spec fn completion_identity(value: JsonView) -> JsonView {
    obj().entry("model"@, or_null(value.get("model"@))).entry(
        "choices"@,
        or_null(value.get("choices"@)),
    )
}

/// The identifier of a chat completion that has none.
pub fn stable_chat_response_id(value: &Json) -> (id: String)
    ensures
        id@ == stable_id(completion_identity(value@)),
{
    stable_response_id(
        &object().entry("model", copy_or_null(value.get("model"))).entry(
            "choices",
            copy_or_null(value.get("choices")),
        ),
    )
}

/// The input of a custom tool: the text `input` of its arguments, or the
/// arguments as they are.
pub open spec fn custom_input(arguments: Seq<char>) -> Seq<char> {
    match parsed_json(encode_utf8(arguments)) {
        Ok(value) => match value.get_text("input"@) {
            Some(input) => input,
            None => arguments,
        },
        Err(_) => arguments,
    }
}

/// The input of a custom tool.
pub fn custom_tool_input(arguments: &str) -> (input: String)
    ensures
        input@ == custom_input(arguments@),
{
    match parse_json(arguments.as_bytes()) {
        Ok(value) => match value.get_text("input") {
            Some(input) => input.to_owned(),
            None => arguments.to_owned(),
        },
        Err(_) => arguments.to_owned(),
    }
}

/// The arguments of a search for tools: an object, or the arguments as its
/// query.
pub open spec fn search_arguments(arguments: Seq<char>) -> JsonView {
    let query = obj().entry("query"@, JsonView::Text(arguments));
    match parsed_json(encode_utf8(arguments)) {
        Ok(value) => if value is Object {
            value
        } else {
            query
        },
        Err(_) => query,
    }
}

/// The arguments of a search for tools.
pub fn parse_tool_arguments_object(arguments: &str) -> (value: Json)
    ensures
        value@ == search_arguments(arguments@),
{
    match parse_json(arguments.as_bytes()) {
        Ok(value) => if value.is_object() {
            value
        } else {
            object().entry("query", text(arguments))
        },
        Err(_) => object().entry("query", text(arguments)),
    }
}

/// The call of a function as an output item.
pub open spec fn function_call_item(
    call_id: Seq<char>,
    name: Seq<char>,
    arguments: Seq<char>,
    status: Seq<char>,
) -> JsonView {
    obj().entry("id"@, JsonView::Text("fc_"@ + call_id)).entry(
        "type"@,
        JsonView::Text("function_call"@),
    ).entry("status"@, JsonView::Text(status)).entry("call_id"@, JsonView::Text(call_id)).entry(
        "name"@,
        JsonView::Text(name),
    ).entry("arguments"@, JsonView::Text(arguments))
}

/// The call of a tool as an output item, under the name that the request has
/// for the tool.
pub open spec fn tool_call_item(
    call_id: Seq<char>,
    chat_name: Seq<char>,
    arguments: Seq<char>,
    status: Seq<char>,
    tools: Seq<ToolView>,
) -> JsonView {
    match tool_named(tools, chat_name) {
        Some(tool) => if tool.kind is ToolSearch {
            obj().entry("type"@, JsonView::Text("tool_search_call"@)).entry(
                "call_id"@,
                JsonView::Text(call_id),
            ).entry("status"@, JsonView::Text(status)).entry(
                "execution"@,
                JsonView::Text("client"@),
            ).entry("arguments"@, search_arguments(arguments))
        } else if tool.kind is Custom {
            obj().entry("id"@, JsonView::Text("ctc_"@ + call_id)).entry(
                "type"@,
                JsonView::Text("custom_tool_call"@),
            ).entry("status"@, JsonView::Text(status)).entry(
                "call_id"@,
                JsonView::Text(call_id),
            ).entry("name"@, JsonView::Text(tool.name)).entry(
                "input"@,
                JsonView::Text(custom_input(arguments)),
            )
        } else {
            let item = function_call_item(call_id, tool.name, arguments, status);
            match tool.namespace {
                Some(namespace) => item.with("namespace"@, JsonView::Text(namespace)),
                None => item,
            }
        },
        None => function_call_item(call_id, chat_name, arguments, status),
    }
}

fn function_call_item_of(call_id: &str, name: &str, arguments: &str, status: &str) -> (item: Json)
    ensures
        item@ == function_call_item(call_id@, name@, arguments@, status@),
{
    object().entry("id", Json::Text(concat2("fc_", call_id))).entry(
        "type",
        text("function_call"),
    ).entry("status", text(status)).entry("call_id", text(call_id)).entry("name", text(name)).entry(
        "arguments",
        text(arguments),
    )
}

/// The call of a tool as an output item.
pub fn response_tool_call_item(
    call_id: &str,
    chat_name: &str,
    arguments: &str,
    status: &str,
    tool_context: &ChatToolContext,
) -> (item: Json)
    ensures
        item@ == tool_call_item(call_id@, chat_name@, arguments@, status@, tool_context@),
{
    match tool_context.lookup(chat_name) {
        Some(tool) => match tool.spec.kind {
            ChatToolKind::ToolSearch => object().entry("type", text("tool_search_call")).entry(
                "call_id",
                text(call_id),
            ).entry("status", text(status)).entry("execution", text("client")).entry(
                "arguments",
                parse_tool_arguments_object(arguments),
            ),
            ChatToolKind::Custom => object().entry("id", Json::Text(concat2("ctc_", call_id))).entry(
                "type",
                text("custom_tool_call"),
            ).entry("status", text(status)).entry("call_id", text(call_id)).entry(
                "name",
                text(&tool.spec.name),
            ).entry("input", Json::Text(custom_tool_input(arguments))),
            _ => {
                let item = function_call_item_of(call_id, &tool.spec.name, arguments, status);
                match &tool.spec.namespace {
                    Some(namespace) => item.with("namespace", text(namespace)),
                    None => item,
                }
            },
        },
        None => function_call_item_of(call_id, chat_name, arguments, status),
    }
}

/// The identifier of a call that has none, by its place.
pub open spec fn numbered_call(index: nat) -> Seq<char> {
    "call_"@ + numeral(index, 10)
}

/// The identifier of a call that has none, by its place.
pub fn numbered_call_id(index: usize) -> (id: String)
    ensures
        id@ == numbered_call(index as nat),
{
    concat2("call_", &decimal(index as u64))
}

/// The call of a tool in a chat completion as an output item.
pub open spec fn completion_call_item(
    tool_call: JsonView,
    index: nat,
    tools: Seq<ToolView>,
) -> Option<JsonView> {
    let function = tool_call.get("function"@);
    match text_in(at(function, "name"@)) {
        Some(name) => if name.len() == 0 {
            None
        } else {
            Some(
                tool_call_item(
                    match tool_call.get_text("id"@) {
                        Some(id) => if id.len() > 0 {
                            id
                        } else {
                            numbered_call(index)
                        },
                        None => numbered_call(index),
                    },
                    name,
                    argument_text(at(function, "arguments"@)),
                    "completed"@,
                    tools,
                ),
            )
        },
        None => None,
    }
}

/// The call of a tool in a chat completion as an output item.
pub fn chat_tool_call_to_response_item(
    tool_call: &Json,
    index: usize,
    tool_context: &ChatToolContext,
) -> (item: Option<Json>)
    ensures
        match item {
            Some(item) => completion_call_item(tool_call@, index as nat, tool_context@) == Some(
                item@,
            ),
            None => completion_call_item(tool_call@, index as nat, tool_context@) is None,
        },
{
    let function = tool_call.get("function");
    let chat_name = match text_at(get_at(function, "name")) {
        Some(name) => name,
        None => {
            return None;
        },
    };
    if chat_name.is_empty() {
        return None;
    }
    let call_id = match tool_call.get_text("id") {
        Some(id) => if id.is_empty() {
            numbered_call_id(index)
        } else {
            id.to_owned()
        },
        None => numbered_call_id(index),
    };
    let arguments = json_argument_string(get_at(function, "arguments"));
    Some(response_tool_call_item(&call_id, chat_name, &arguments, "completed", tool_context))
}

/// A count of tokens, 0 where it is not there.
pub open spec fn token_count(usage: JsonView, key: Seq<char>) -> i64 {
    match usage.get(key) {
        Some(value) => match value.signed() {
            Some(count) => count,
            None => 0,
        },
        None => 0,
    }
}

/// The usage of a chat completion as a response has it. A total that is not
/// there is the sum of input and output.
pub open spec fn response_usage(usage: Option<JsonView>) -> JsonView {
    match usage {
        Some(usage) => {
            let input = token_count(usage, "prompt_tokens"@);
            let output = token_count(usage, "completion_tokens"@);
            let named = match usage.get("total_tokens"@) {
                Some(value) => value.signed(),
                None => None,
            };
            let total = match named {
                Some(total) => total,
                None => input.wrapping_add(output),
            };
            obj().entry("input_tokens"@, integer_view(input)).entry(
                "output_tokens"@,
                integer_view(output),
            ).entry("total_tokens"@, integer_view(total))
        },
        None => JsonView::Null,
    }
}

fn token_count_of(usage: &Json, key: &str) -> (count: i64)
    ensures
        count == token_count(usage@, key@),
{
    match usage.get(key) {
        Some(value) => match value.as_i64() {
            Some(count) => count,
            None => 0,
        },
        None => 0,
    }
}

/// The usage of a chat completion as a response has it.
pub fn chat_usage_to_responses_usage(usage: Option<&Json>) -> (result: Json)
    ensures
        result@ == response_usage(seen(usage)),
{
    let usage = match usage {
        Some(usage) => usage,
        None => {
            return Json::Null;
        },
    };
    let input: i64 = token_count_of(usage, "prompt_tokens");
    let output: i64 = token_count_of(usage, "completion_tokens");
    let named = match usage.get("total_tokens") {
        Some(value) => value.as_i64(),
        None => None,
    };
    let total: i64 = match named {
        Some(total) => total,
        None => input.wrapping_add(output),
    };
    object().entry("input_tokens", integer(input)).entry("output_tokens", integer(output)).entry(
        "total_tokens",
        integer(total),
    )
}

/// The items of the first calls of a list.
pub open spec fn call_items(
    calls: Seq<JsonView>,
    tools: Seq<ToolView>,
    count: int,
) -> Seq<JsonView>
    decreases count,
{
    if !(0 < count <= calls.len()) {
        seq![]
    } else {
        let before = call_items(calls, tools, count - 1);
        match completion_call_item(calls[count - 1], (count - 1) as nat, tools) {
            Some(item) => before.push(item),
            None => before,
        }
    }
}

/// The output text of a message.
pub open spec fn output_text(content: Seq<char>) -> JsonView {
    obj().entry("type"@, JsonView::Text("output_text"@)).entry(
        "text"@,
        JsonView::Text(content),
    ).entry("annotations"@, JsonView::Array(seq![]))
}

/// The output text of a message.
pub fn output_text_of(content: &str) -> (part: Json)
    ensures
        part@ == output_text(content@),
{
    object().entry("type", text("output_text")).entry("text", text(content)).entry(
        "annotations",
        no_items(),
    )
}

/// A message of the assistant as an output item.
pub open spec fn message_item(status: Seq<char>, content: Seq<JsonView>) -> JsonView {
    obj().entry("id"@, JsonView::Text("msg_codex_companion"@)).entry(
        "type"@,
        JsonView::Text("message"@),
    ).entry("status"@, JsonView::Text(status)).entry("role"@, JsonView::Text("assistant"@)).entry(
        "content"@,
        JsonView::Array(content),
    )
}

/// A message of the assistant as an output item; with its text once it is
/// complete.
pub fn message_item_of(content: Option<&str>) -> (item: Json)
    ensures
        item@ == (match str_view(content) {
            Some(content) => message_item("completed"@, seq![output_text(content)]),
            None => message_item("in_progress"@, seq![]),
        }),
{
    let (status, parts) = match content {
        Some(content) => ("completed", one_item(output_text_of(content))),
        None => ("in_progress", no_items()),
    };
    object().entry("id", text("msg_codex_companion")).entry("type", text("message")).entry(
        "status",
        text(status),
    ).entry("role", text("assistant")).entry("content", parts)
}

/// The first choice of a chat completion, where the choices are an array.
pub open spec fn listed_choice(value: JsonView) -> Option<JsonView> {
    match items_in(value.get("choices"@)) {
        Some(choices) => if choices.len() > 0 {
            Some(choices[0])
        } else {
            None
        },
        None => None,
    }
}

/// The first choice of a chat completion, where the choices are an array.
pub fn listed_choice_of(value: &Json) -> (choice: Option<&Json>)
    ensures
        seen(choice) == listed_choice(value@),
{
    match value.get("choices") {
        Some(choices) => match choices.as_array() {
            Some(choices) => {
                if choices.len() > 0 {
                    assert(views(choices@)[0] == choices@[0]@);
                    Some(&choices[0])
                } else {
                    None
                }
            },
            None => None,
        },
        None => None,
    }
}

/// The output of a chat completion: its text as a message where there is any,
/// and then its calls.
pub open spec fn completion_output(value: JsonView, tools: Seq<ToolView>) -> Seq<JsonView> {
    let said = at(listed_choice(value), "message"@);
    let content = or_empty(
        match at(said, "content"@) {
            Some(content) => content_text(content),
            None => None,
        },
    );
    let spoken: Seq<JsonView> = if content.len() > 0 {
        seq![message_item("completed"@, seq![output_text(content)])]
    } else {
        seq![]
    };
    match items_in(at(said, "tool_calls"@)) {
        Some(calls) => spoken + call_items(calls, tools, calls.len() as int),
        None => spoken,
    }
}

/// A chat completion as a response; `now` is its time where it has none.
pub open spec fn completion_response(value: JsonView, tools: Seq<ToolView>, now: i64) -> JsonView {
    obj().entry(
        "id"@,
        JsonView::Text(
            match value.get_text("id"@) {
                Some(id) => response_id(id),
                None => stable_id(completion_identity(value)),
            },
        ),
    ).entry("object"@, JsonView::Text("response"@)).entry(
        "created_at"@,
        integer_view(
            match value.get("created"@) {
                Some(created) => match created.signed() {
                    Some(created) => created,
                    None => now,
                },
                None => now,
            },
        ),
    ).entry("status"@, JsonView::Text("completed"@)).entry(
        "model"@,
        JsonView::Text(or_empty(value.get_text("model"@))),
    ).entry("output"@, JsonView::Array(completion_output(value, tools))).entry(
        "usage"@,
        response_usage(value.get("usage"@)),
    )
}

fn completion_output_of(value: &Json, tool_context: &ChatToolContext) -> (output: Vec<Json>)
    ensures
        views(output@) == completion_output(value@, tool_context@),
{
    let said = get_at(listed_choice_of(value), "message");
    let content = match get_at(said, "content") {
        Some(content) => message_content_text(content),
        None => None,
    };
    let content = match content {
        Some(content) => content,
        None => String::new(),
    };
    let mut output: Vec<Json> = Vec::new();
    assert(views(output@) =~= seq![]);
    if !content.as_str().is_empty() {
        let item = message_item_of(Some(content.as_str()));
        let ghost added = item@;
        output.push(item);
        assert(views(output@) =~= seq![added]);
    }
    let ghost spoken = views(output@);
    if let Some(calls) = get_at(said, "tool_calls") {
        if let Some(calls) = calls.as_array() {
            let ghost all = views(calls@);
            assert(spoken + call_items(all, tool_context@, 0) =~= spoken);
            let mut index: usize = 0;
            while index < calls.len()
                invariant
                    index <= calls@.len(),
                    all == views(calls@),
                    views(output@) == spoken + call_items(all, tool_context@, index as int),
                decreases calls@.len() - index,
            {
                assert(all[index as int] == calls@[index as int]@);
                if let Some(item) = chat_tool_call_to_response_item(
                    &calls[index],
                    index,
                    tool_context,
                ) {
                    let ghost before = views(output@);
                    let ghost added = item@;
                    output.push(item);
                    assert(views(output@) =~= before.push(added));
                    assert(before.push(added) =~= spoken + call_items(
                        all,
                        tool_context@,
                        index as int,
                    ).push(added));
                }
                index += 1;
            }
        }
    }
    output
}

/// A chat completion as a response; `now` is its time where it has none.
pub fn chat_json_to_responses_json_at(value: &Json, tool_context: &ChatToolContext, now: i64) -> (response:
    Json)
    ensures
        response@ == completion_response(value@, tool_context@, now),
{
    let id = match value.get_text("id") {
        Some(id) => response_id_from_chat_id(id),
        None => stable_chat_response_id(value),
    };
    let created = match value.get("created") {
        Some(created) => created.as_i64(),
        None => None,
    };
    let created: i64 = match created {
        Some(created) => created,
        None => now,
    };
    object().entry("id", Json::Text(id)).entry("object", text("response")).entry(
        "created_at",
        integer(created),
    ).entry("status", text("completed")).entry(
        "model",
        text(text_or_empty(value.get_text("model"))),
    ).entry("output", array(completion_output_of(value, tool_context))).entry(
        "usage",
        chat_usage_to_responses_usage(value.get("usage")),
    )
}

/// A chat completion as a response, of the present time where it has none.
pub fn chat_json_to_responses_json(value: &Json, tool_context: &ChatToolContext) -> (response: Json)
    ensures
        exists|now: i64| response@ == #[trigger] completion_response(value@, tool_context@, now),
{
    let now: i64 = unix_now();
    chat_json_to_responses_json_at(value, tool_context, now)
}

/// The conversation that a chat completion ends: the response that it became
/// and the messages with its own behind them. None where the completion has no
/// message.
pub open spec fn completed_history(
    converted: JsonView,
    completion: JsonView,
    tools: Seq<ToolView>,
    messages: Seq<JsonView>,
) -> Option<(Seq<char>, EntryView)> {
    match (converted.get_text("id"@), at(first_choice(completion), "message"@)) {
        (Some(id), Some(JsonView::Object(fields))) => Some(
            (id, EntryView { messages: messages.push(JsonView::Object(fields)), tools }),
        ),
        _ => None,
    }
}

/// What a conversation with its response holds, if there is one.
pub open spec fn history_view(entry: Option<(String, ChatHistoryEntry)>) -> Option<
    (Seq<char>, EntryView),
> {
    match entry {
        Some((id, entry)) => Some((id@, entry@)),
        None => None,
    }
}

/// The conversation that a chat completion ends, to be kept under its response.
pub fn non_stream_chat_history(
    converted: &Json,
    chat_response: &Json,
    tool_context: &ChatToolContext,
    request_messages: &Vec<Json>,
) -> (entry: Option<(String, ChatHistoryEntry)>)
    ensures
        history_view(entry) == completed_history(
            converted@,
            chat_response@,
            tool_context@,
            views(request_messages@),
        ),
{
    let id = match converted.get_text("id") {
        Some(id) => id.to_owned(),
        None => {
            return None;
        },
    };
    let said = match get_at(first_member_of(chat_response.get("choices")), "message") {
        Some(said) => said,
        None => {
            return None;
        },
    };
    if !said.is_object() {
        return None;
    }
    let mut messages = copy_all(request_messages);
    let ghost before = views(messages@);
    messages.push(said.copy());
    assert(views(messages@) =~= before.push(said@));
    Some((id, ChatHistoryEntry { messages, tool_context: tool_context.copy() }))
}

/// Whether an output item is a complete message of the assistant that says one
/// text and nothing else.
pub open spec fn says_only(item: JsonView, said: Seq<char>) -> bool {
    &&& item.get_text("type"@) == Some("message"@)
    &&& item.get_text("role"@) == Some("assistant"@)
    &&& item.get_text("status"@) == Some("completed"@)
    &&& item.get("content"@) matches Some(JsonView::Array(parts)) && parts.len() == 1
        && parts[0].get_text("type"@) == Some("output_text"@) && parts[0].get_text("text"@) == Some(
        said,
    )
}

/// A complete message says its text.
pub proof fn law_messages_say_their_text(said: Seq<char>)
    ensures
        says_only(message_item("completed"@, seq![output_text(said)]), said),
{
    broadcast use lemma_entry_field;

    reveal_strlit("id");
    reveal_strlit("type");
    reveal_strlit("status");
    reveal_strlit("role");
    reveal_strlit("content");
    reveal_strlit("text");
    reveal_strlit("annotations");
    assert("id"@.len() == 2);
    assert("type"@.len() == 4);
    assert("status"@.len() == 6);
    assert("role"@.len() == 4);
    assert("content"@.len() == 7);
    assert("text"@.len() == 4);
    assert("annotations"@.len() == 11);
    assert("type"@[0] != "role"@[0]);
    assert("type"@[1] != "text"@[1]);
    assert("role"@[0] != "text"@[0]);
    let part = output_text(said);
    assert(part.get("text"@) == Some(JsonView::Text(said)));
    assert(part.get("type"@) == Some(JsonView::Text("output_text"@)));
    let item = message_item("completed"@, seq![part]);
    assert(item.get("content"@) == Some(JsonView::Array(seq![part])));
    assert(item.get("type"@) == Some(JsonView::Text("message"@)));
    assert(item.get("role"@) == Some(JsonView::Text("assistant"@)));
    assert(item.get("status"@) == Some(JsonView::Text("completed"@)));
}

/// Where the content of the first choice's message is a text that is not empty,
/// the first output item is a message that says exactly that text, and the other
/// items are those of the calls. Without a text there is no message.
pub proof fn law_answers_keep_their_text(
    value: JsonView,
    choices: Seq<JsonView>,
    said: JsonView,
    content: Seq<char>,
    tools: Seq<ToolView>,
)
    requires
        value.get("choices"@) == Some(JsonView::Array(choices)),
        choices.len() > 0,
        choices[0].get("message"@) == Some(said),
        said.get("content"@) == Some(JsonView::Text(content)),
    ensures
        ({
            let output = completion_output(value, tools);
            &&& content.len() > 0 ==> output.len() > 0 && says_only(output[0], content)
            &&& said.get("tool_calls"@) is None ==> output.len() == (if content.len() > 0 {
                1int
            } else {
                0int
            })
        }),
{
    law_messages_say_their_text(content);
}

/// Where the content is a list of parts that have a text, the message says those
/// texts, in their order, one to a line.
pub proof fn law_answers_keep_their_parts(
    value: JsonView,
    choices: Seq<JsonView>,
    said: JsonView,
    first: JsonView,
    second: JsonView,
    one: Seq<char>,
    two: Seq<char>,
    tools: Seq<ToolView>,
)
    requires
        value.get("choices"@) == Some(JsonView::Array(choices)),
        choices.len() > 0,
        choices[0].get("message"@) == Some(said),
        said.get("content"@) == Some(JsonView::Array(seq![first, second])),
        first.get("text"@) == Some(JsonView::Text(one)),
        second.get("text"@) == Some(JsonView::Text(two)),
    ensures
        completion_output(value, tools).len() > 0,
        says_only(completion_output(value, tools)[0], one + "\n"@ + two),
{
    let parts = seq![first, second];
    assert(part_text(first) == Some(one));
    assert(part_text(second) == Some(two));
    reveal_with_fuel(part_texts, 3);
    assert(part_texts(parts, 0) =~= seq![]);
    assert(part_texts(parts, 1) =~= seq![one]);
    assert(part_texts(parts, 2) =~= seq![one, two]);
    reveal_with_fuel(joined, 3);
    assert(seq![one, two].drop_last() =~= seq![one]);
    assert(joined(seq![one, two], "\n"@) == one + "\n"@ + two);
    reveal_strlit("\n");
    law_messages_say_their_text(one + "\n"@ + two);
}

/// Whether an output item is the call of a function.
pub open spec fn calls_function(
    item: JsonView,
    call_id: Seq<char>,
    name: Seq<char>,
    arguments: Seq<char>,
) -> bool {
    &&& item.get_text("type"@) == Some("function_call"@)
    &&& item.get_text("call_id"@) == Some(call_id)
    &&& item.get_text("name"@) == Some(name)
    &&& item.get_text("arguments"@) == Some(arguments)
}

/// The call of a tool comes back under the name, and in the namespace, that the
/// request has for the tool, with its identifier and its arguments as they came:
/// a custom tool gets the text `input` of them, and a search for tools gets them
/// as an object.
pub proof fn law_calls_come_back_as_they_were_offered(
    call_id: Seq<char>,
    chat_name: Seq<char>,
    arguments: Seq<char>,
    status: Seq<char>,
    tools: Seq<ToolView>,
)
    ensures
        ({
            let item = tool_call_item(call_id, chat_name, arguments, status, tools);
            &&& item.get_text("call_id"@) == Some(call_id)
            &&& item.get_text("status"@) == Some(status)
            &&& match tool_named(tools, chat_name) {
                None => calls_function(item, call_id, chat_name, arguments) && item.get(
                    "namespace"@,
                ) is None,
                Some(tool) => match tool.kind {
                    ChatToolKind::ToolSearch => {
                        &&& item.get_text("type"@) == Some("tool_search_call"@)
                        &&& item.get("arguments"@) matches Some(JsonView::Object(_))
                    },
                    ChatToolKind::Custom => {
                        &&& item.get_text("type"@) == Some("custom_tool_call"@)
                        &&& item.get_text("name"@) == Some(tool.name)
                        &&& match parsed_json(encode_utf8(arguments)) {
                            Ok(value) => value.get_text("input"@) is Some ==> item.get_text(
                                "input"@,
                            ) == value.get_text("input"@),
                            Err(_) => item.get_text("input"@) == Some(arguments),
                        }
                    },
                    _ => calls_function(item, call_id, tool.name, arguments) && item.get_text(
                        "namespace"@,
                    ) == tool.namespace,
                },
            }
        }),
{
    broadcast use {lemma_entry_field, lemma_with_field};

    reveal_strlit("id");
    reveal_strlit("type");
    reveal_strlit("status");
    reveal_strlit("call_id");
    reveal_strlit("name");
    reveal_strlit("arguments");
    reveal_strlit("execution");
    reveal_strlit("input");
    reveal_strlit("namespace");
    assert("id"@.len() == 2);
    assert("type"@.len() == 4);
    assert("status"@.len() == 6);
    assert("call_id"@.len() == 7);
    assert("name"@.len() == 4);
    assert("arguments"@.len() == 9);
    assert("execution"@.len() == 9);
    assert("input"@.len() == 5);
    assert("namespace"@.len() == 9);
    assert("type"@[0] != "name"@[0]);
    assert("arguments"@[0] != "execution"@[0]);
    assert("arguments"@[0] != "namespace"@[0]);
    assert("execution"@[0] != "namespace"@[0]);
    let item = tool_call_item(call_id, chat_name, arguments, status, tools);
    let plain = function_call_item(call_id, chat_name, arguments, status);
    assert(plain.get("namespace"@) is None);
    assert(plain.get("call_id"@) == Some(JsonView::Text(call_id)));
    if let Some(tool) = tool_named(tools, chat_name) {
        let named = function_call_item(call_id, tool.name, arguments, status);
        assert(named is Object);
        assert(named.get("namespace"@) is None);
        assert(named.get("type"@) == Some(JsonView::Text("function_call"@)));
        assert(named.get("name"@) == Some(JsonView::Text(tool.name)));
        assert(named.get("arguments"@) == Some(JsonView::Text(arguments)));
        assert(named.get("call_id"@) == Some(JsonView::Text(call_id)));
        assert(named.get("status"@) == Some(JsonView::Text(status)));
    }
    assert(item.get("call_id"@) == Some(JsonView::Text(call_id)));
    assert(item.get("status"@) == Some(JsonView::Text(status)));
}

/// Every call of a chat completion that names a function becomes an output item,
/// in the order of the calls, under its own identifier where it has one, and with
/// its arguments where they are a text.
pub proof fn law_calls_of_completions_are_kept(
    calls: Seq<JsonView>,
    tools: Seq<ToolView>,
    count: int,
)
    requires
        0 <= count <= calls.len(),
        forall|i: int|
            0 <= i < calls.len() ==> (text_in(at((#[trigger] calls[i]).get("function"@), "name"@))
                matches Some(name) && name.len() > 0),
    ensures
        call_items(calls, tools, count).len() == count,
        forall|i: int|
            0 <= i < count ==> ({
                let item = #[trigger] call_items(calls, tools, count)[i];
                let function = calls[i].get("function"@);
                let name = text_in(at(function, "name"@))->0;
                let arguments = text_in(at(function, "arguments"@));
                &&& (calls[i].get_text("id"@) matches Some(id) && id.len() > 0) ==> item.get_text(
                    "call_id"@,
                ) == calls[i].get_text("id"@)
                &&& tool_named(tools, name) is None ==> item.get_text("name"@) == Some(name)
                &&& tool_named(tools, name) is None && arguments is Some ==> item.get_text(
                    "arguments"@,
                ) == arguments
            }),
    decreases count,
{
    if count > 0 {
        law_calls_of_completions_are_kept(calls, tools, count - 1);
        let call = calls[count - 1];
        let function = call.get("function"@);
        let name = text_in(at(function, "name"@))->0;
        let id = match call.get_text("id"@) {
            Some(id) => if id.len() > 0 {
                id
            } else {
                numbered_call((count - 1) as nat)
            },
            None => numbered_call((count - 1) as nat),
        };
        law_calls_come_back_as_they_were_offered(
            id,
            name,
            argument_text(at(function, "arguments"@)),
            "completed"@,
            tools,
        );
        let before = call_items(calls, tools, count - 1);
        let after = call_items(calls, tools, count);
        assert forall|i: int| 0 <= i < count - 1 implies (#[trigger] after[i]) == before[i] by {}
    }
}

/// A chat completion becomes a complete response that holds its output, its
/// model, its time and its counts of tokens; its identifier ends with that of the
/// completion and begins with `resp_`.
pub proof fn law_responses_hold_what_completions_say(
    value: JsonView,
    tools: Seq<ToolView>,
    now: i64,
)
    ensures
        ({
            let response = completion_response(value, tools, now);
            &&& response.get_text("object"@) == Some("response"@)
            &&& response.get_text("status"@) == Some("completed"@)
            &&& response.get("output"@) == Some(JsonView::Array(completion_output(value, tools)))
            &&& value.get_text("model"@) is Some ==> response.get_text("model"@) == value.get_text(
                "model"@,
            )
            &&& (value.get("created"@) matches Some(created) && created.signed() is Some) ==> (
            response.get("created_at"@) matches Some(time) && time.signed() == value.get(
                "created"@,
            )->0.signed())
            &&& value.get("created"@) is None ==> (response.get("created_at"@) matches Some(time)
                && time.signed() == Some(now))
            &&& response.get_text("id"@) matches Some(id) && begins(id, "resp_"@)
            &&& value.get_text("id"@) matches Some(id) ==> ends(
                response.get_text("id"@)->0,
                id,
            ) && (begins(id, "resp_"@) ==> response.get_text("id"@) == Some(id))
        }),
{
    broadcast use lemma_entry_field;

    reveal_strlit("id");
    reveal_strlit("object");
    reveal_strlit("created_at");
    reveal_strlit("status");
    reveal_strlit("model");
    reveal_strlit("output");
    reveal_strlit("usage");
    reveal_strlit("resp_");
    reveal_strlit("resp_cc_");
    assert("id"@.len() == 2);
    assert("object"@.len() == 6);
    assert("created_at"@.len() == 10);
    assert("status"@.len() == 6);
    assert("model"@.len() == 5);
    assert("output"@.len() == 6);
    assert("usage"@.len() == 5);
    assert("resp_"@.len() == 5);
    assert("resp_cc_"@.len() == 8);
    assert("object"@[0] != "status"@[0]);
    assert("object"@[1] != "output"@[1]);
    assert("status"@[0] != "output"@[0]);
    assert("model"@[0] != "usage"@[0]);
    assert("model"@[0] != "resp_"@[0]);
    assert("usage"@[0] != "resp_"@[0]);
    assert(forall|k: int| 0 <= k < 5 ==> "resp_"@[k] == #[trigger] "resp_cc_"@[k]);
    let response = completion_response(value, tools, now);
    assert(response.get("object"@) == Some(JsonView::Text("response"@)));
    assert(response.get("status"@) == Some(JsonView::Text("completed"@)));
    assert(response.get("id"@) is Some);
    let id = response.get_text("id"@)->0;
    if let Some(own) = value.get_text("id"@) {
        assert(id == response_id(own));
        assert(id.skip(id.len() - own.len()) =~= own);
        assert(id.take(5) =~= "resp_"@);
    } else {
        assert(id.take(5) =~= "resp_"@);
    }
}

/// The counts of tokens of a chat completion are those of the response: what was
/// read is its input, what was written is its output, and the total is the one
/// that is named, or the sum.
pub proof fn law_counts_of_tokens_are_kept(usage: JsonView, read: i64, written: i64)
    requires
        usage.get("prompt_tokens"@) matches Some(count) && count.signed() == Some(read),
        usage.get("completion_tokens"@) matches Some(count) && count.signed() == Some(written),
    ensures
        ({
            let counts = response_usage(Some(usage));
            &&& counts.get("input_tokens"@) matches Some(count) && count.signed() == Some(read)
            &&& counts.get("output_tokens"@) matches Some(count) && count.signed() == Some(written)
            &&& usage.get("total_tokens"@) is None && i64::MIN <= read + written <= i64::MAX ==> (
            counts.get("total_tokens"@) matches Some(count) && count.signed() == Some(
                (read + written) as i64,
            ))
            &&& (usage.get("total_tokens"@) matches Some(total) && total.signed() is Some) ==> (
            counts.get("total_tokens"@) matches Some(count) && count.signed() == usage.get(
                "total_tokens"@,
            )->0.signed())
        }),
{
    broadcast use lemma_entry_field;

    reveal_strlit("input_tokens");
    reveal_strlit("output_tokens");
    reveal_strlit("total_tokens");
    assert("input_tokens"@.len() == 12);
    assert("output_tokens"@.len() == 13);
    assert("total_tokens"@.len() == 12);
    assert("input_tokens"@[0] != "total_tokens"@[0]);
}

/// The conversation that a completion ends goes on with what was said in it: the
/// messages of the request, and behind them the completion's own message as it
/// came.
pub proof fn law_conversations_end_with_the_answer(
    converted: JsonView,
    completion: JsonView,
    choices: Seq<JsonView>,
    said: JsonView,
    id: Seq<char>,
    tools: Seq<ToolView>,
    messages: Seq<JsonView>,
)
    requires
        converted.get_text("id"@) == Some(id),
        completion.get("choices"@) == Some(JsonView::Array(choices)),
        choices.len() > 0,
        choices[0].get("message"@) == Some(said),
        said is Object,
    ensures
        completed_history(converted, completion, tools, messages) matches Some((key, entry)) && {
            &&& key == id
            &&& entry.tools == tools
            &&& entry.messages.len() == messages.len() + 1
            &&& entry.messages.drop_last() == messages
            &&& entry.messages.last() == said
        },
{
    assert(messages.push(said).drop_last() =~= messages);
}

} // verus!
