//! A request of the Responses protocol as a request of Chat Completions.
use crate::chat_input::{
    append_response_input_messages, grown, law_earlier_messages_stay,
    law_input_texts_are_said_by_the_user, message, message_of, speaks, with_input,
};
use crate::history::{
    entry_of, entry_view, history_key, law_kept_history_is_found,
    law_stored_conversations_are_restored, ordered_entry, remembered, ChatHistoryEntry,
    ChatHistoryStore, EntryView, CHAT_HISTORY_CAPACITY,
};
use crate::json::{
    array, at, copy_all, either, get_at, keys_apart, law_remove_keeps_others, law_removed_is_gone,
    lemma_entry_field, lemma_with_field, obj, object, ordered, parse_json, parsed_json, render_bytes, rendered, text, text_at,
    text_in, views, Json, JsonFault, JsonView,
};
use crate::media::{scalar_text, value_text};
use crate::text::{same, string_view, trim, trimmed};
use crate::tools::{
    all_clear, chat_tool_choice, first_of, law_earlier_tools_are_storable,
    law_request_tools_are_storable, law_written_tools_are_restored, request_tools,
    response_tool_choice_to_chat, restored_tools, storable, stored_tools, with_earlier,
    ChatToolContext, ToolView,
};
use vstd::prelude::*;
use vstd::string::*;
use vstd::utf8::*;

verus! {

/// The target with a field of the source, where that is there and not null.
pub open spec fn copied(target: JsonView, source: JsonView, name: Seq<char>) -> JsonView {
    match source.get(name) {
        Some(value) => if value is Null {
            target
        } else {
            target.with(name, value)
        },
        None => target,
    }
}

/// Copies a field that is there and not null.
pub fn copy_json_field(target: Json, source: &Json, name: &str) -> (result: Json)
    ensures
        result@ == copied(target@, source@, name@),
{
    match source.get(name) {
        Some(value) => if value.is_null() {
            target
        } else {
            target.with(name, value.copy())
        },
        None => target,
    }
}

/// The effort of a request: `reasoning.effort`, else `reasoning_effort`, if it
/// is not blank. The effort `ultra` is called `max`.
pub open spec fn effort(request: JsonView) -> Option<Seq<char>> {
    match text_in(
        either(at(request.get("reasoning"@), "effort"@), request.get("reasoning_effort"@)),
    ) {
        Some(effort) => if trim(effort).len() == 0 {
            None
        } else if trim(effort) == "ultra"@ {
            Some("max"@)
        } else {
            Some(trim(effort))
        },
        None => None,
    }
}

fn effort_of(request: &Json) -> (result: Option<String>)
    ensures
        string_view(result) == effort(request@),
{
    match text_at(
        first_of(get_at(request.get("reasoning"), "effort"), request.get("reasoning_effort")),
    ) {
        Some(effort) => {
            let effort = trimmed(effort);
            if effort.as_str().is_empty() {
                None
            } else if same(&effort, "ultra") {
                Some("max".to_owned())
            } else {
                Some(effort)
            }
        },
        None => None,
    }
}

/// The key under which the provider caches the prompt: the first of the texts
/// `prompt_cache_key`, `metadata.session_id`, `conversation_id` and `thread_id`,
/// if it is not blank.
pub open spec fn cache_key(request: JsonView) -> Option<Seq<char>> {
    match either(
        request.get_text("prompt_cache_key"@),
        either(
            text_in(at(request.get("metadata"@), "session_id"@)),
            either(request.get_text("conversation_id"@), request.get_text("thread_id"@)),
        ),
    ) {
        Some(key) => if trim(key).len() == 0 {
            None
        } else {
            Some(trim(key))
        },
        None => None,
    }
}

fn cache_key_of(request: &Json) -> (result: Option<String>)
    ensures
        string_view(result) == cache_key(request@),
{
    let named = match request.get_text("prompt_cache_key") {
        Some(key) => Some(key),
        None => match text_at(get_at(request.get("metadata"), "session_id")) {
            Some(key) => Some(key),
            None => match request.get_text("conversation_id") {
                Some(key) => Some(key),
                None => request.get_text("thread_id"),
            },
        },
    };
    match named {
        Some(key) => {
            let key = trimmed(key);
            if key.as_str().is_empty() {
                None
            } else {
                Some(key)
            }
        },
        None => None,
    }
}

/// The target with a text field, where there is a text.
pub open spec fn with_text(target: JsonView, name: Seq<char>, value: Option<Seq<char>>) -> JsonView {
    match value {
        Some(value) => target.with(name, JsonView::Text(value)),
        None => target,
    }
}

/// The fields of the chat request before its messages.
pub open spec fn request_head(request: JsonView, prompt_cache_enabled: bool) -> JsonView {
    let a = copied(obj(), request, "model"@);
    let b = copied(a, request, "temperature"@);
    let c = copied(b, request, "top_p"@);
    let d = copied(c, request, "presence_penalty"@);
    let e = copied(d, request, "frequency_penalty"@);
    let f = copied(e, request, "parallel_tool_calls"@);
    let g = copied(f, request, "response_format"@);
    let h = copied(g, request, "metadata"@);
    let with_effort = with_text(h, "reasoning_effort"@, effort(request));
    let with_key = if prompt_cache_enabled {
        with_text(with_effort, "prompt_cache_key"@, cache_key(request))
    } else {
        with_effort
    };
    let limited = match request.get("max_output_tokens"@) {
        Some(limit) => with_key.with("max_tokens"@, limit),
        None => with_key,
    };
    let stream = match request.get("stream"@) {
        Some(stream) => stream,
        None => JsonView::Bool(false),
    };
    let streamed = limited.with("stream"@, stream);
    match request.get("stream_options"@) {
        Some(options) => streamed.with("stream_options"@, options),
        None => if stream == JsonView::Bool(true) {
            streamed.with(
                "stream_options"@,
                obj().entry("include_usage"@, JsonView::Bool(true)),
            )
        } else {
            streamed
        },
    }
}

/// The messages of the chat request: those said before, or the instructions
/// where nothing was, and then those of the input. There is at least one.
pub open spec fn request_messages(
    request: JsonView,
    earlier: Seq<JsonView>,
    tools: Seq<ToolView>,
) -> Seq<JsonView> {
    let opening = if earlier.len() > 0 {
        earlier
    } else {
        match request.get("instructions"@) {
            Some(instructions) => match scalar_text(instructions) {
                Some(content) => if content.len() > 0 {
                    earlier.push(message("system"@, JsonView::Text(content)))
                } else {
                    earlier
                },
                None => earlier,
            },
            None => earlier,
        }
    };
    let all = with_input(opening, request.get("input"@), tools);
    if all.len() == 0 {
        all.push(message("user"@, JsonView::Text(seq![])))
    } else {
        all
    }
}

/// The chat request.
pub open spec fn chat_request(
    request: JsonView,
    messages: Seq<JsonView>,
    tools: Seq<ToolView>,
    prompt_cache_enabled: bool,
) -> JsonView {
    let full = request_head(request, prompt_cache_enabled).with(
        "messages"@,
        JsonView::Array(messages),
    );
    if tools.len() == 0 {
        full.without("parallel_tool_calls"@)
    } else {
        let tooled = full.with(
            "tools"@,
            JsonView::Array(Seq::new(tools.len(), |i: int| tools[i].chat_tool)),
        );
        match request.get("tool_choice"@) {
            Some(choice) => tooled.with("tool_choice"@, chat_tool_choice(choice, tools)),
            None => tooled,
        }
    }
}

/// What a conversion of a request gives: the body, the tools and the messages.
#[verifier::ext_equal]
pub struct ConversionView {
    pub body: Seq<u8>,
    pub tools: Seq<ToolView>,
    pub messages: Seq<JsonView>,
}

/// A request that was converted: its body, its tools and its messages.
#[derive(Debug)]
pub struct ChatConversion {
    pub body: Vec<u8>,
    pub tool_context: ChatToolContext,
    pub messages: Vec<Json>,
}

impl View for ChatConversion {
    type V = ConversionView;

    open spec fn view(&self) -> ConversionView {
        ConversionView {
            body: self.body@,
            tools: self.tool_context@,
            messages: views(self.messages@),
        }
    }
}

/// The conversation that a request goes on with.
pub open spec fn earlier_entry(
    request: JsonView,
    provider_id: Seq<char>,
    history: Seq<(Seq<char>, EntryView)>,
) -> Option<EntryView> {
    match request.get_text("previous_response_id"@) {
        Some(response_id) => entry_of(history, history_key(provider_id, response_id)),
        None => None,
    }
}

/// The tools of a request, with those of the conversation that it goes on with.
pub open spec fn conversation_tools(request: JsonView, earlier: Option<EntryView>) -> Seq<ToolView> {
    match earlier {
        Some(entry) => with_earlier(
            request_tools(request),
            entry.tools,
            entry.tools.len() as int,
        ),
        None => request_tools(request),
    }
}

/// The conversion of a request that has been read.
pub open spec fn converted(
    request: JsonView,
    earlier: Option<EntryView>,
    prompt_cache_enabled: bool,
) -> ConversionView {
    let tools = conversation_tools(request, earlier);
    let messages = request_messages(
        request,
        match earlier {
            Some(entry) => entry.messages,
            None => seq![],
        },
        tools,
    );
    ConversionView {
        body: encode_utf8(rendered(chat_request(request, messages, tools, prompt_cache_enabled))),
        tools,
        messages,
    }
}

/// The conversion of a body, given what reading it as JSON gave. A body that is
/// not JSON is passed on as it is, and so is one that is no object.
pub open spec fn converted_body(
    body: Seq<u8>,
    parsed: Result<JsonView, JsonFault>,
    provider_id: Seq<char>,
    prompt_cache_enabled: bool,
    history: Seq<(Seq<char>, EntryView)>,
) -> ConversionView {
    match parsed {
        Err(_) => ConversionView { body, tools: seq![], messages: seq![] },
        Ok(request) => if request is Object {
            converted(
                request,
                earlier_entry(request, provider_id, history),
                prompt_cache_enabled,
            )
        } else {
            ConversionView { body, tools: request_tools(request), messages: seq![] }
        },
    }
}

fn with_text_field(target: Json, name: &str, value: Option<String>) -> (result: Json)
    ensures
        result@ == with_text(target@, name@, string_view(value)),
{
    match value {
        Some(value) => target.with(name, Json::Text(value)),
        None => target,
    }
}

fn request_head_of(request: &Json, prompt_cache_enabled: bool) -> (output: Json)
    ensures
        output@ == request_head(request@, prompt_cache_enabled),
{
    let output = copy_json_field(object(), request, "model");
    let output = copy_json_field(output, request, "temperature");
    let output = copy_json_field(output, request, "top_p");
    let output = copy_json_field(output, request, "presence_penalty");
    let output = copy_json_field(output, request, "frequency_penalty");
    let output = copy_json_field(output, request, "parallel_tool_calls");
    let output = copy_json_field(output, request, "response_format");
    let output = copy_json_field(output, request, "metadata");
    let output = with_text_field(output, "reasoning_effort", effort_of(request));
    let output = if prompt_cache_enabled {
        with_text_field(output, "prompt_cache_key", cache_key_of(request))
    } else {
        output
    };
    let output = match request.get("max_output_tokens") {
        Some(limit) => output.with("max_tokens", limit.copy()),
        None => output,
    };
    let stream = match request.get("stream") {
        Some(stream) => stream.copy(),
        None => Json::Bool(false),
    };
    let streaming = match stream.as_bool() {
        Some(flag) => flag,
        None => false,
    };
    let output = output.with("stream", stream);
    match request.get("stream_options") {
        Some(options) => output.with("stream_options", options.copy()),
        None => if streaming {
            output.with("stream_options", object().entry("include_usage", Json::Bool(true)))
        } else {
            output
        },
    }
}

fn request_messages_of(request: &Json, earlier: Vec<Json>, tool_context: &ChatToolContext) -> (messages:
    Vec<Json>)
    ensures
        views(messages@) == request_messages(request@, views(earlier@), tool_context@),
{
    let mut opening = earlier;
    if opening.len() == 0 {
        if let Some(instructions) = request.get("instructions") {
            if let Some(content) = value_text(instructions) {
                if !content.as_str().is_empty() {
                    let ghost before = views(opening@);
                    let system = message_of("system", Json::Text(content));
                    let ghost added = system@;
                    opening.push(system);
                    assert(views(opening@) =~= before.push(added));
                }
            }
        }
    }
    let mut messages = append_response_input_messages(opening, request.get("input"), tool_context);
    if messages.len() == 0 {
        let ghost before = views(messages@);
        let user = message_of("user", Json::Text(String::new()));
        let ghost added = user@;
        messages.push(user);
        assert(views(messages@) =~= before.push(added));
    }
    messages
}

/// Converts a request that has been read, going on with an earlier
/// conversation.
pub fn convert_request(
    request: &Json,
    previous: Option<&ChatHistoryEntry>,
    prompt_cache_enabled: bool,
) -> (conversion: ChatConversion)
    ensures
        conversion@ == converted(request@, entry_view(previous), prompt_cache_enabled),
{
    let mut tool_context = ChatToolContext::from_request(request);
    let earlier = match previous {
        Some(entry) => {
            tool_context.merge_missing_from(&entry.tool_context);
            copy_all(&entry.messages)
        },
        None => {
            let none: Vec<Json> = Vec::new();
            assert(views(none@) =~= seq![]);
            none
        },
    };
    let messages = request_messages_of(request, earlier, &tool_context);
    let output = request_head_of(request, prompt_cache_enabled).with(
        "messages",
        array(copy_all(&messages)),
    );
    let output = if tool_context.tools.len() > 0 {
        let tooled = output.with("tools", array(tool_context.chat_tools()));
        match request.get("tool_choice") {
            Some(choice) => tooled.with(
                "tool_choice",
                response_tool_choice_to_chat(choice, &tool_context),
            ),
            None => tooled,
        }
    } else {
        output.without("parallel_tool_calls")
    };
    ChatConversion { body: render_bytes(&output), tool_context, messages }
}

/// The response that a body goes on with.
pub fn previous_response_id(body: &[u8]) -> (response_id: Option<String>)
    ensures
        string_view(response_id) == (match parsed_json(body@) {
            Ok(request) => request.get_text("previous_response_id"@),
            Err(_) => None,
        }),
{
    match parse_json(body) {
        Ok(request) => match request.get_text("previous_response_id") {
            Some(response_id) => Some(response_id.to_owned()),
            None => None,
        },
        Err(_) => None,
    }
}

/// Converts the body of a request, going on with the conversation that it
/// names, if that is kept.
pub fn responses_body_to_chat_completions(
    body: Vec<u8>,
    provider_id: &str,
    prompt_cache_enabled: bool,
    history: &ChatHistoryStore,
) -> (conversion: ChatConversion)
    ensures
        conversion@ == converted_body(
            body@,
            parsed_json(body@),
            provider_id@,
            prompt_cache_enabled,
            history@,
        ),
{
    let request = match parse_json(body.as_slice()) {
        Ok(request) => request,
        Err(_) => {
            let conversion = ChatConversion {
                body,
                tool_context: ChatToolContext::new(),
                messages: Vec::new(),
            };
            assert(conversion@.messages =~= seq![]);
            return conversion;
        },
    };
    if !request.is_object() {
        let conversion = ChatConversion {
            body,
            tool_context: ChatToolContext::from_request(&request),
            messages: Vec::new(),
        };
        assert(conversion@.messages =~= seq![]);
        return conversion;
    }
    let previous = match request.get_text("previous_response_id") {
        Some(response_id) => history.load_chat_history(provider_id, response_id),
        None => None,
    };
    convert_request(&request, previous, prompt_cache_enabled)
}

proof fn lemma_copied_lacks(
    target: JsonView,
    source: JsonView,
    name: Seq<char>,
    wanted: Seq<char>,
)
    requires
        target is Object,
        target.get(wanted) is None,
        name != wanted,
    ensures
        copied(target, source, name) is Object,
        copied(target, source, name).get(wanted) is None,
{
    if let Some(value) = source.get(name) {
        lemma_with_field(target, name, value, wanted);
    }
}

proof fn lemma_text_lacks(
    target: JsonView,
    name: Seq<char>,
    value: Option<Seq<char>>,
    wanted: Seq<char>,
)
    requires
        target is Object,
        target.get(wanted) is None,
        name != wanted,
    ensures
        with_text(target, name, value) is Object,
        with_text(target, name, value).get(wanted) is None,
{
    if let Some(value) = value {
        lemma_with_field(target, name, JsonView::Text(value), wanted);
    }
}

/// Names that stand before the messages of a chat request.
spec fn is_head_name(name: Seq<char>) -> bool {
    ||| name == "model"@
    ||| name == "temperature"@
    ||| name == "top_p"@
    ||| name == "presence_penalty"@
    ||| name == "frequency_penalty"@
    ||| name == "parallel_tool_calls"@
    ||| name == "response_format"@
    ||| name == "metadata"@
    ||| name == "reasoning_effort"@
    ||| name == "prompt_cache_key"@
    ||| name == "max_tokens"@
    ||| name == "stream"@
    ||| name == "stream_options"@
}

proof fn lemma_head_lacks(request: JsonView, prompt_cache_enabled: bool, wanted: Seq<char>)
    requires
        !is_head_name(wanted),
    ensures
        request_head(request, prompt_cache_enabled) is Object,
        request_head(request, prompt_cache_enabled).get(wanted) is None,
{
    let a = copied(obj(), request, "model"@);
    let b = copied(a, request, "temperature"@);
    let c = copied(b, request, "top_p"@);
    let d = copied(c, request, "presence_penalty"@);
    let e = copied(d, request, "frequency_penalty"@);
    let f = copied(e, request, "parallel_tool_calls"@);
    let g = copied(f, request, "response_format"@);
    let h = copied(g, request, "metadata"@);
    lemma_copied_lacks(obj(), request, "model"@, wanted);
    lemma_copied_lacks(a, request, "temperature"@, wanted);
    lemma_copied_lacks(b, request, "top_p"@, wanted);
    lemma_copied_lacks(c, request, "presence_penalty"@, wanted);
    lemma_copied_lacks(d, request, "frequency_penalty"@, wanted);
    lemma_copied_lacks(e, request, "parallel_tool_calls"@, wanted);
    lemma_copied_lacks(f, request, "response_format"@, wanted);
    lemma_copied_lacks(g, request, "metadata"@, wanted);
    lemma_text_lacks(h, "reasoning_effort"@, effort(request), wanted);
    let with_effort = with_text(h, "reasoning_effort"@, effort(request));
    lemma_text_lacks(with_effort, "prompt_cache_key"@, cache_key(request), wanted);
    let with_key = if prompt_cache_enabled {
        with_text(with_effort, "prompt_cache_key"@, cache_key(request))
    } else {
        with_effort
    };
    if let Some(limit) = request.get("max_output_tokens"@) {
        lemma_with_field(with_key, "max_tokens"@, limit, wanted);
    }
    let limited = match request.get("max_output_tokens"@) {
        Some(limit) => with_key.with("max_tokens"@, limit),
        None => with_key,
    };
    let stream = match request.get("stream"@) {
        Some(stream) => stream,
        None => JsonView::Bool(false),
    };
    lemma_with_field(limited, "stream"@, stream, wanted);
    let streamed = limited.with("stream"@, stream);
    if let Some(options) = request.get("stream_options"@) {
        lemma_with_field(streamed, "stream_options"@, options, wanted);
    }
    lemma_with_field(
        streamed,
        "stream_options"@,
        obj().entry("include_usage"@, JsonView::Bool(true)),
        wanted,
    );
}

proof fn lemma_tool_names()
    ensures
        !is_head_name("tools"@),
        !is_head_name("tool_choice"@),
        !is_head_name("messages"@),
        "tools"@ != "messages"@,
        "tools"@ != "tool_choice"@,
        "tool_choice"@ != "messages"@,
{
    reveal_strlit("model");
    reveal_strlit("temperature");
    reveal_strlit("top_p");
    reveal_strlit("presence_penalty");
    reveal_strlit("frequency_penalty");
    reveal_strlit("parallel_tool_calls");
    reveal_strlit("response_format");
    reveal_strlit("metadata");
    reveal_strlit("reasoning_effort");
    reveal_strlit("prompt_cache_key");
    reveal_strlit("max_tokens");
    reveal_strlit("stream");
    reveal_strlit("stream_options");
    reveal_strlit("messages");
    reveal_strlit("tools");
    reveal_strlit("tool_choice");
    assert("model"@.len() == 5);
    assert("temperature"@.len() == 11);
    assert("top_p"@.len() == 5);
    assert("presence_penalty"@.len() == 16);
    assert("frequency_penalty"@.len() == 17);
    assert("parallel_tool_calls"@.len() == 19);
    assert("response_format"@.len() == 15);
    assert("metadata"@.len() == 8);
    assert("reasoning_effort"@.len() == 16);
    assert("prompt_cache_key"@.len() == 16);
    assert("max_tokens"@.len() == 10);
    assert("stream"@.len() == 6);
    assert("stream_options"@.len() == 14);
    assert("messages"@.len() == 8);
    assert("tools"@.len() == 5);
    assert("tool_choice"@.len() == 11);
    assert("tools"@[2] == 'o' && "top_p"@[2] == 'p' && "model"@[0] == 'm' && "tools"@[0] == 't');
    assert("tool_choice"@[1] == 'o' && "temperature"@[1] == 'e');
    assert("messages"@[2] == 's' && "metadata"@[2] == 't');
}

/// A chat request names its messages, of which there is at least one. It lists
/// the tools of the conversation, and says nothing of tools where there are none.
pub proof fn law_chat_requests_are_complete(
    request: JsonView,
    earlier: Option<EntryView>,
    prompt_cache_enabled: bool,
)
    ensures
        ({
            let conversion = converted(request, earlier, prompt_cache_enabled);
            let chat = chat_request(
                request,
                conversion.messages,
                conversion.tools,
                prompt_cache_enabled,
            );
            &&& conversion.messages.len() > 0
            &&& conversion.body == encode_utf8(rendered(chat))
            &&& chat.get("messages"@) == Some(JsonView::Array(conversion.messages))
            &&& conversion.tools.len() == 0 ==> chat.get("tools"@) is None && chat.get(
                "parallel_tool_calls"@,
            ) is None && chat.get("tool_choice"@) is None
            &&& conversion.tools.len() > 0 ==> chat.get("tools"@) == Some(
                JsonView::Array(
                    Seq::new(conversion.tools.len(), |i: int| conversion.tools[i].chat_tool),
                ),
            )
        }),
{
    let conversion = converted(request, earlier, prompt_cache_enabled);
    lemma_tool_names();
    let head = request_head(request, prompt_cache_enabled);
    lemma_head_lacks(request, prompt_cache_enabled, "tools"@);
    lemma_head_lacks(request, prompt_cache_enabled, "tool_choice"@);
    let messages = JsonView::Array(conversion.messages);
    let full = head.with("messages"@, messages);
    lemma_with_field(head, "messages"@, messages, "messages"@);
    lemma_with_field(head, "messages"@, messages, "tools"@);
    lemma_with_field(head, "messages"@, messages, "tool_choice"@);
    law_removed_is_gone(full->Object_0, "parallel_tool_calls"@);
    law_remove_keeps_others(full->Object_0, "parallel_tool_calls"@, "messages"@);
    law_remove_keeps_others(full->Object_0, "parallel_tool_calls"@, "tools"@);
    law_remove_keeps_others(full->Object_0, "parallel_tool_calls"@, "tool_choice"@);
    let list = JsonView::Array(
        Seq::new(conversion.tools.len(), |i: int| conversion.tools[i].chat_tool),
    );
    let tooled = full.with("tools"@, list);
    lemma_with_field(full, "tools"@, list, "tools"@);
    lemma_with_field(full, "tools"@, list, "messages"@);
    if let Some(choice) = request.get("tool_choice"@) {
        let chosen = chat_tool_choice(choice, conversion.tools);
        lemma_with_field(tooled, "tool_choice"@, chosen, "tools"@);
        lemma_with_field(tooled, "tool_choice"@, chosen, "messages"@);
    }
}

/// The tools of a request, with those of the conversation that it goes on with,
/// can be stored: each has a chat name of its own that is not blank, and is
/// described under it, once where the keys of the request are apart.
pub proof fn law_conversation_tools_are_storable(request: JsonView, earlier: Option<EntryView>)
    ensures
        storable(conversation_tools(request, earlier)),
        keys_apart(request) && (earlier matches Some(entry) ==> all_clear(entry.tools))
            ==> all_clear(conversation_tools(request, earlier)),
{
    law_request_tools_are_storable(request);
    if earlier is Some {
        let tools = earlier->0.tools;
        law_earlier_tools_are_storable(request_tools(request), tools, tools.len() as int);
    }
}

/// The conversation of a request, whatever it goes on with, is restored as it was
/// when it was kept on disk, but for the order of fields, and a request can go on
/// with it in turn.
pub proof fn law_kept_conversations_are_restored(
    request: JsonView,
    earlier: Option<EntryView>,
    messages: Seq<JsonView>,
)
    requires
        keys_apart(request),
        earlier matches Some(entry) ==> all_clear(entry.tools),
    ensures
        ({
            let entry = EntryView { messages, tools: conversation_tools(request, earlier) };
            &&& ordered(JsonView::Array(messages)) == JsonView::Array(ordered_entry(entry).messages)
            &&& restored_tools(ordered(stored_tools(entry.tools))) == ordered_entry(entry).tools
            &&& all_clear(entry.tools)
            &&& all_clear(ordered_entry(entry).tools)
        }),
{
    let entry = EntryView { messages, tools: conversation_tools(request, earlier) };
    law_conversation_tools_are_storable(request, earlier);
    law_stored_conversations_are_restored(entry);
    law_written_tools_are_restored(entry.tools);
}

proof fn lemma_copied_field(
    target: JsonView,
    source: JsonView,
    name: Seq<char>,
    wanted: Seq<char>,
)
    requires
        target is Object,
    ensures
        copied(target, source, name) is Object,
        copied(target, source, name).get(wanted) == (if name == wanted && (source.get(
            name,
        ) matches Some(value) && value !is Null) {
            source.get(name)
        } else {
            target.get(wanted)
        }),
{
    if let Some(value) = source.get(name) {
        lemma_with_field(target, name, value, wanted);
    }
}

proof fn lemma_text_field(
    target: JsonView,
    name: Seq<char>,
    value: Option<Seq<char>>,
    wanted: Seq<char>,
)
    requires
        target is Object,
    ensures
        with_text(target, name, value) is Object,
        with_text(target, name, value).get(wanted) == (if name == wanted && value is Some {
            Some(JsonView::Text(value->0))
        } else {
            target.get(wanted)
        }),
{
    if let Some(value) = value {
        lemma_with_field(target, name, JsonView::Text(value), wanted);
    }
}

/// The settings of a request that a chat request has under the same name.
pub open spec fn is_setting(name: Seq<char>) -> bool {
    ||| name == "model"@
    ||| name == "temperature"@
    ||| name == "top_p"@
    ||| name == "presence_penalty"@
    ||| name == "frequency_penalty"@
    ||| name == "parallel_tool_calls"@
    ||| name == "response_format"@
    ||| name == "metadata"@
}

proof fn lemma_head_field(request: JsonView, prompt_cache_enabled: bool, wanted: Seq<char>)
    ensures
        ({
            let head = request_head(request, prompt_cache_enabled);
            &&& head is Object
            &&& is_setting(wanted) && (request.get(wanted) matches Some(value) && value !is Null)
                ==> head.get(wanted) == request.get(wanted)
            &&& head.get("stream"@) == Some(
                match request.get("stream"@) {
                    Some(stream) => stream,
                    None => JsonView::Bool(false),
                },
            )
            &&& request.get("max_output_tokens"@) is Some ==> head.get("max_tokens"@)
                == request.get("max_output_tokens"@)
            &&& effort(request) matches Some(effort) ==> head.get("reasoning_effort"@) == Some(
                JsonView::Text(effort),
            )
            &&& request.get("stream_options"@) is Some ==> head.get("stream_options"@)
                == request.get("stream_options"@)
            &&& request.get("stream_options"@) is None && request.get("stream"@) == Some(
                JsonView::Bool(true),
            ) ==> (head.get("stream_options"@) matches Some(options) && options.get(
                "include_usage"@,
            ) == Some(JsonView::Bool(true)))
            &&& prompt_cache_enabled ==> (cache_key(request) matches Some(key) ==> head.get(
                "prompt_cache_key"@,
            ) == Some(JsonView::Text(key)))
            &&& !prompt_cache_enabled ==> head.get("prompt_cache_key"@) is None
        }),
{
    broadcast use lemma_with_field;

    reveal_strlit("model");
    reveal_strlit("temperature");
    reveal_strlit("top_p");
    reveal_strlit("presence_penalty");
    reveal_strlit("frequency_penalty");
    reveal_strlit("parallel_tool_calls");
    reveal_strlit("response_format");
    reveal_strlit("metadata");
    reveal_strlit("reasoning_effort");
    reveal_strlit("prompt_cache_key");
    reveal_strlit("max_tokens");
    reveal_strlit("stream");
    reveal_strlit("stream_options");
    assert("model"@.len() == 5);
    assert("temperature"@.len() == 11);
    assert("top_p"@.len() == 5);
    assert("presence_penalty"@.len() == 16);
    assert("frequency_penalty"@.len() == 17);
    assert("parallel_tool_calls"@.len() == 19);
    assert("response_format"@.len() == 15);
    assert("metadata"@.len() == 8);
    assert("reasoning_effort"@.len() == 16);
    assert("prompt_cache_key"@.len() == 16);
    assert("max_tokens"@.len() == 10);
    assert("stream"@.len() == 6);
    assert("stream_options"@.len() == 14);
    assert("model"@[0] != "top_p"@[0]);
    assert("presence_penalty"@[0] != "reasoning_effort"@[0]);
    assert("presence_penalty"@[2] != "prompt_cache_key"@[2]);
    assert("reasoning_effort"@[0] != "prompt_cache_key"@[0]);
    let names = seq![
        wanted,
        "stream"@,
        "max_tokens"@,
        "reasoning_effort"@,
        "stream_options"@,
        "prompt_cache_key"@,
    ];
    let a = copied(obj(), request, "model"@);
    let b = copied(a, request, "temperature"@);
    let c = copied(b, request, "top_p"@);
    let d = copied(c, request, "presence_penalty"@);
    let e = copied(d, request, "frequency_penalty"@);
    let f = copied(e, request, "parallel_tool_calls"@);
    let g = copied(f, request, "response_format"@);
    let h = copied(g, request, "metadata"@);
    let with_effort = with_text(h, "reasoning_effort"@, effort(request));
    assert forall|i: int| 0 <= i < 6 implies h is Object && with_effort is Object && (is_setting(
        #[trigger] names[i],
    ) && (request.get(names[i]) matches Some(value) && value !is Null) ==> h.get(names[i])
        == request.get(names[i])) && (!is_setting(names[i]) ==> h.get(names[i]) is None) by {
        let name = names[i];
        lemma_copied_field(obj(), request, "model"@, name);
        lemma_copied_field(a, request, "temperature"@, name);
        lemma_copied_field(b, request, "top_p"@, name);
        lemma_copied_field(c, request, "presence_penalty"@, name);
        lemma_copied_field(d, request, "frequency_penalty"@, name);
        lemma_copied_field(e, request, "parallel_tool_calls"@, name);
        lemma_copied_field(f, request, "response_format"@, name);
        lemma_copied_field(g, request, "metadata"@, name);
        lemma_text_field(h, "reasoning_effort"@, effort(request), name);
    }
    assert(names[0] == wanted && names[1] == "stream"@ && names[2] == "max_tokens"@);
    assert(names[3] == "reasoning_effort"@ && names[4] == "stream_options"@);
    assert(names[5] == "prompt_cache_key"@);
    let with_key = if prompt_cache_enabled {
        with_text(with_effort, "prompt_cache_key"@, cache_key(request))
    } else {
        with_effort
    };
    lemma_text_field(h, "reasoning_effort"@, effort(request), wanted);
    lemma_text_field(h, "reasoning_effort"@, effort(request), "reasoning_effort"@);
    lemma_text_field(h, "reasoning_effort"@, effort(request), "prompt_cache_key"@);
    lemma_text_field(with_effort, "prompt_cache_key"@, cache_key(request), wanted);
    lemma_text_field(with_effort, "prompt_cache_key"@, cache_key(request), "reasoning_effort"@);
    lemma_text_field(with_effort, "prompt_cache_key"@, cache_key(request), "prompt_cache_key"@);
    assert(with_key is Object);
    let limited = match request.get("max_output_tokens"@) {
        Some(limit) => with_key.with("max_tokens"@, limit),
        None => with_key,
    };
    let stream = match request.get("stream"@) {
        Some(stream) => stream,
        None => JsonView::Bool(false),
    };
    let streamed = limited.with("stream"@, stream);
    assert(streamed.get("stream"@) == Some(stream));
    let asked = obj().entry("include_usage"@, JsonView::Bool(true));
    assert(asked.get("include_usage"@) == Some(JsonView::Bool(true))) by {
        lemma_entry_field(obj(), "include_usage"@, JsonView::Bool(true), "include_usage"@);
    }
}

/// A chat request has the settings of the request that it stands for: each that
/// is given and not null, under the same name and with the same value. Without
/// tools nothing is said of calling them in parallel.
pub proof fn law_chat_requests_keep_settings(
    request: JsonView,
    messages: Seq<JsonView>,
    tools: Seq<ToolView>,
    prompt_cache_enabled: bool,
    name: Seq<char>,
)
    requires
        is_setting(name),
        request.get(name) matches Some(value) && value !is Null,
        tools.len() > 0 || name != "parallel_tool_calls"@,
    ensures
        chat_request(request, messages, tools, prompt_cache_enabled).get(name) == request.get(name),
{
    lemma_tool_names();
    lemma_head_field(request, prompt_cache_enabled, name);
    let head = request_head(request, prompt_cache_enabled);
    let said = JsonView::Array(messages);
    let full = head.with("messages"@, said);
    lemma_with_field(head, "messages"@, said, name);
    if tools.len() == 0 {
        law_remove_keeps_others(full->Object_0, "parallel_tool_calls"@, name);
    } else {
        let list = JsonView::Array(Seq::new(tools.len(), |i: int| tools[i].chat_tool));
        lemma_with_field(full, "tools"@, list, name);
        if let Some(choice) = request.get("tool_choice"@) {
            lemma_with_field(
                full.with("tools"@, list),
                "tool_choice"@,
                chat_tool_choice(choice, tools),
                name,
            );
        }
    }
}

/// A chat request is streamed exactly where the request is, and then asks for the
/// counts of tokens unless the request says what it asks for. Its limit of tokens
/// is that of the request, its effort is the request's, where `ultra` is called
/// `max`, and it names a key for the cache only where that is enabled.
pub proof fn law_chat_requests_keep_limits(
    request: JsonView,
    messages: Seq<JsonView>,
    tools: Seq<ToolView>,
    prompt_cache_enabled: bool,
    effort: Seq<char>,
)
    requires
        request.get("reasoning"@) matches Some(reasoning) && reasoning.get("effort"@) == Some(
            JsonView::Text(effort),
        ),
        trim(effort) == effort,
        effort.len() > 0,
    ensures
        ({
            let chat = chat_request(request, messages, tools, prompt_cache_enabled);
            &&& chat.get("stream"@) == Some(JsonView::Bool(true)) <==> request.get("stream"@)
                == Some(JsonView::Bool(true))
            &&& request.get("stream"@) is None ==> chat.get("stream"@) == Some(
                JsonView::Bool(false),
            )
            &&& request.get("stream"@) == Some(JsonView::Bool(true)) && request.get(
                "stream_options"@,
            ) is None ==> (chat.get("stream_options"@) matches Some(options) && options.get(
                "include_usage"@,
            ) == Some(JsonView::Bool(true)))
            &&& request.get("max_output_tokens"@) is Some ==> chat.get("max_tokens"@)
                == request.get("max_output_tokens"@)
            &&& chat.get_text("reasoning_effort"@) == Some(
                if effort == "ultra"@ {
                    "max"@
                } else {
                    effort
                },
            )
            &&& !prompt_cache_enabled ==> chat.get("prompt_cache_key"@) is None
            &&& prompt_cache_enabled ==> match request.get_text("prompt_cache_key"@) {
                Some(key) => trim(key) == key && key.len() > 0 ==> chat.get_text(
                    "prompt_cache_key"@,
                ) == Some(key),
                None => true,
            }
        }),
{
    reveal_strlit("messages");
    reveal_strlit("tools");
    reveal_strlit("tool_choice");
    reveal_strlit("parallel_tool_calls");
    reveal_strlit("reasoning_effort");
    reveal_strlit("prompt_cache_key");
    reveal_strlit("max_tokens");
    reveal_strlit("stream");
    reveal_strlit("stream_options");
    assert("messages"@.len() == 8);
    assert("tools"@.len() == 5);
    assert("tool_choice"@.len() == 11);
    assert("parallel_tool_calls"@.len() == 19);
    assert("reasoning_effort"@.len() == 16);
    assert("prompt_cache_key"@.len() == 16);
    assert("max_tokens"@.len() == 10);
    assert("stream"@.len() == 6);
    assert("stream_options"@.len() == 14);
    assert("reasoning_effort"@[0] != "prompt_cache_key"@[0]);
    lemma_head_field(request, prompt_cache_enabled, "model"@);
    let head = request_head(request, prompt_cache_enabled);
    let chat = chat_request(request, messages, tools, prompt_cache_enabled);
    lemma_request_field(request, messages, tools, prompt_cache_enabled, "stream"@);
    lemma_request_field(request, messages, tools, prompt_cache_enabled, "stream_options"@);
    lemma_request_field(request, messages, tools, prompt_cache_enabled, "max_tokens"@);
    lemma_request_field(request, messages, tools, prompt_cache_enabled, "reasoning_effort"@);
    lemma_request_field(request, messages, tools, prompt_cache_enabled, "prompt_cache_key"@);
}

proof fn lemma_request_field(
    request: JsonView,
    messages: Seq<JsonView>,
    tools: Seq<ToolView>,
    prompt_cache_enabled: bool,
    name: Seq<char>,
)
    requires
        name != "messages"@,
        name != "tools"@,
        name != "tool_choice"@,
        name != "parallel_tool_calls"@,
    ensures
        chat_request(request, messages, tools, prompt_cache_enabled).get(name) == request_head(
            request,
            prompt_cache_enabled,
        ).get(name),
{
    lemma_head_field(request, prompt_cache_enabled, name);
    let head = request_head(request, prompt_cache_enabled);
    let said = JsonView::Array(messages);
    let full = head.with("messages"@, said);
    lemma_with_field(head, "messages"@, said, name);
    if tools.len() == 0 {
        law_remove_keeps_others(full->Object_0, "parallel_tool_calls"@, name);
    } else {
        let list = JsonView::Array(Seq::new(tools.len(), |i: int| tools[i].chat_tool));
        lemma_with_field(full, "tools"@, list, name);
        if let Some(choice) = request.get("tool_choice"@) {
            lemma_with_field(
                full.with("tools"@, list),
                "tool_choice"@,
                chat_tool_choice(choice, tools),
                name,
            );
        }
    }
}

/// The messages of a request go on with those that were said before, each still
/// in its place. Where nothing was, the instructions come first, as the system
/// says them.
pub proof fn law_conversations_go_on(
    request: JsonView,
    earlier: Seq<JsonView>,
    tools: Seq<ToolView>,
)
    ensures
        grown(earlier, request_messages(request, earlier, tools)),
        request_messages(request, earlier, tools).len() > 0,
        earlier.len() == 0 && (request.get("instructions"@) matches Some(JsonView::Text(said))
            && said.len() > 0) ==> speaks(
            request_messages(request, earlier, tools)[0],
            "system"@,
            request.get_text("instructions"@)->0,
        ),
{
    broadcast use lemma_entry_field;

    reveal_strlit("role");
    reveal_strlit("content");
    reveal_strlit("system");
    reveal_strlit("assistant");
    assert("role"@.len() == 4);
    assert("content"@.len() == 7);
    assert("system"@.len() == 6);
    assert("assistant"@.len() == 9);
    let input = request.get("input"@);
    let all = request_messages(request, earlier, tools);
    law_earlier_messages_stay(earlier, input, tools);
    if earlier.len() == 0 {
        if let Some(JsonView::Text(said)) = request.get("instructions"@) {
            if said.len() > 0 {
                let first = message("system"@, JsonView::Text(said));
                let opening = earlier.push(first);
                assert(first.get("role"@) == Some(JsonView::Text("system"@)));
                assert(first.get("content"@) == Some(JsonView::Text(said)));
                law_earlier_messages_stay(opening, input, tools);
                assert(all == with_input(opening, input, tools));
                assert(all[0] == opening[0]);
            }
        }
    }
}

/// The last thing that a request says, where its input is a text, is that text,
/// said by the user.
pub proof fn law_requests_end_with_their_text(
    request: JsonView,
    earlier: Seq<JsonView>,
    tools: Seq<ToolView>,
    said: Seq<char>,
)
    requires
        request.get("input"@) == Some(JsonView::Text(said)),
    ensures
        speaks(request_messages(request, earlier, tools).last(), "user"@, said),
{
    law_input_texts_are_said_by_the_user(earlier, said, tools);
    if let Some(instructions) = request.get("instructions"@) {
        if let Some(content) = scalar_text(instructions) {
            law_input_texts_are_said_by_the_user(
                earlier.push(message("system"@, JsonView::Text(content))),
                said,
                tools,
            );
        }
    }
}

/// A request goes on with the conversation that was kept under the response that
/// it names, for the same provider, and with none where it names none.
pub proof fn law_requests_go_on_with_the_response_they_name(
    request: JsonView,
    provider_id: Seq<char>,
    history: Seq<(Seq<char>, EntryView)>,
    response_id: Seq<char>,
    entry: EntryView,
)
    requires
        history.len() <= CHAT_HISTORY_CAPACITY,
        trim(response_id).len() > 0,
    ensures
        request.get_text("previous_response_id"@) == Some(response_id) ==> earlier_entry(
            request,
            provider_id,
            remembered(history, provider_id, response_id, entry),
        ) == Some(entry),
        request.get("previous_response_id"@) is None ==> earlier_entry(
            request,
            provider_id,
            history,
        ) is None,
{
    law_kept_history_is_found(history, provider_id, response_id, entry);
}

/// A body that is not JSON is passed on as it is, and so is one that is no object.
pub proof fn law_other_bodies_are_passed_on(
    body: Seq<u8>,
    parsed: Result<JsonView, JsonFault>,
    provider_id: Seq<char>,
    prompt_cache_enabled: bool,
    history: Seq<(Seq<char>, EntryView)>,
)
    requires
        !(parsed matches Ok(request) && request is Object),
    ensures
        converted_body(body, parsed, provider_id, prompt_cache_enabled, history).body == body,
{
}

/// The choice of a tool goes with the tools, as the model knows it.
pub proof fn law_choices_go_with_the_tools(
    request: JsonView,
    messages: Seq<JsonView>,
    tools: Seq<ToolView>,
    prompt_cache_enabled: bool,
    choice: JsonView,
)
    requires
        tools.len() > 0,
        request.get("tool_choice"@) == Some(choice),
    ensures
        chat_request(request, messages, tools, prompt_cache_enabled).get("tool_choice"@) == Some(
            chat_tool_choice(choice, tools),
        ),
{
    lemma_head_field(request, prompt_cache_enabled, "model"@);
    let head = request_head(request, prompt_cache_enabled);
    let full = head.with("messages"@, JsonView::Array(messages));
    let tooled = full.with(
        "tools"@,
        JsonView::Array(Seq::new(tools.len(), |i: int| tools[i].chat_tool)),
    );
    lemma_with_field(
        tooled,
        "tool_choice"@,
        chat_tool_choice(choice, tools),
        "tool_choice"@,
    );
}

} // verus!
