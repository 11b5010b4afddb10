//! The input of a request as the messages of a chat completion.
use crate::failure::is_text;
use crate::json::{
    array, either, lemma_entry_field, lemma_with_field, obj, object, render_json, rendered, seen, str_view, text, text_at, text_in,
    views, Json, JsonView,
};
use crate::media::{
    argument_text, json_argument_string, law_texts_without_images_are_kept, output_and_media, scalar_text,
    tool_output_content_and_media, value_text,
};
use crate::reasoning::{
    append_pending_reasoning, append_reasoning_content, carrying, item_reasoning, message_reasoning,
    response_message_reasoning_text, response_reasoning_item_text, with_reasoning,
};
use crate::text::{join, joined, same, string_view, texts, trim};
use crate::tools::{chat_name_of, first_of, or_empty, text_or_empty, ChatToolContext, ToolView};
use vstd::prelude::*;
use vstd::string::*;

verus! {

/// The identifier of a call: `call_id`, else `id`.
pub open spec fn call_id_of(item: JsonView) -> Seq<char> {
    or_empty(text_in(either(item.get("call_id"@), item.get("id"@))))
}

/// The identifier of a call.
pub fn response_call_id(item: &Json) -> (call_id: String)
    ensures
        call_id@ == call_id_of(item@),
{
    text_or_empty(text_at(first_of(item.get("call_id"), item.get("id")))).to_owned()
}

/// The text of a part of a message.
pub open spec fn part_text(part: JsonView) -> Option<Seq<char>> {
    match either(
        either(part.get("text"@), part.get("input_text"@)),
        part.get("output_text"@),
    ) {
        Some(value) => scalar_text(value),
        None => None,
    }
}

/// The texts of the first parts of a message, where they have one.
pub open spec fn part_texts(parts: Seq<JsonView>, count: int) -> Seq<Seq<char>>
    decreases count,
{
    if !(0 < count <= parts.len()) {
        seq![]
    } else {
        let before = part_texts(parts, count - 1);
        match part_text(parts[count - 1]) {
            Some(text) => before.push(text),
            None => before,
        }
    }
}

/// The text of the content of a message.
pub open spec fn content_text(value: JsonView) -> Option<Seq<char>> {
    match value {
        JsonView::Text(text) => Some(text),
        JsonView::Array(parts) => Some(joined(part_texts(parts, parts.len() as int), "\n"@)),
        JsonView::Object(_) => part_text(value),
        _ => None,
    }
}

fn text_of_part(part: &Json) -> (result: Option<String>)
    ensures
        string_view(result) == part_text(part@),
{
    match first_of(first_of(part.get("text"), part.get("input_text")), part.get("output_text")) {
        Some(value) => value_text(value),
        None => None,
    }
}

/// The text of the content of a message.
pub fn message_content_text(value: &Json) -> (result: Option<String>)
    ensures
        string_view(result) == content_text(value@),
{
    if let Some(content) = value.as_text() {
        return Some(content.to_owned());
    }
    if let Some(parts) = value.as_array() {
        let ghost all = views(parts@);
        let mut found: Vec<String> = Vec::new();
        assert(texts(found@) =~= seq![]);
        let mut index: usize = 0;
        while index < parts.len()
            invariant
                index <= parts@.len(),
                all == views(parts@),
                texts(found@) == part_texts(all, index as int),
            decreases parts@.len() - index,
        {
            assert(all[index as int] == parts@[index as int]@);
            if let Some(part) = text_of_part(&parts[index]) {
                let ghost before = texts(found@);
                let ghost added = part@;
                found.push(part);
                assert(texts(found@) =~= before.push(added));
            }
            index += 1;
        }
        return Some(join(&found, "\n"));
    }
    text_of_part(value)
}

/// A message of a role.
pub open spec fn message(role: Seq<char>, content: JsonView) -> JsonView {
    obj().entry("role"@, JsonView::Text(role)).entry("content"@, content)
}

/// A message of a role.
pub fn message_of(role: &str, content: Json) -> (json: Json)
    ensures
        json@ == message(role@, content@),
{
    object().entry("role", text(role)).entry("content", content)
}

/// The call of a function.
pub open spec fn function_call(id: Seq<char>, name: Seq<char>, arguments: Seq<char>) -> JsonView {
    obj().entry("id"@, JsonView::Text(id)).entry("type"@, JsonView::Text("function"@)).entry(
        "function"@,
        obj().entry("name"@, JsonView::Text(name)).entry("arguments"@, JsonView::Text(arguments)),
    )
}

/// The call of a function.
pub fn function_call_of(id: &str, name: &str, arguments: &str) -> (json: Json)
    ensures
        json@ == function_call(id@, name@, arguments@),
{
    object().entry("id", text(id)).entry("type", text("function")).entry(
        "function",
        object().entry("name", text(name)).entry("arguments", text(arguments)),
    )
}

/// The messages so far, and what waits to become part of one.
#[verifier::ext_equal]
pub struct InputView {
    pub messages: Seq<JsonView>,
    pub calls: Seq<JsonView>,
    pub media: Seq<JsonView>,
    pub reasoning: Option<Seq<char>>,
    pub last_assistant: Option<int>,
}

/// The messages so far, and what waits to become part of one: calls of tools,
/// images that tools returned, and reasoning.
#[derive(Debug)]
pub struct InputMessages {
    pub messages: Vec<Json>,
    pub pending_tool_calls: Vec<Json>,
    pub pending_tool_media: Vec<Json>,
    pub pending_reasoning: Option<String>,
    pub last_assistant_index: Option<usize>,
}

impl View for InputMessages {
    type V = InputView;

    open spec fn view(&self) -> InputView {
        InputView {
            messages: views(self.messages@),
            calls: views(self.pending_tool_calls@),
            media: views(self.pending_tool_media@),
            reasoning: string_view(self.pending_reasoning),
            last_assistant: match self.last_assistant_index {
                Some(index) => Some(index as int),
                None => None,
            },
        }
    }
}

/// An assistant message that makes the calls.
pub open spec fn calling_message(calls: Seq<JsonView>) -> JsonView {
    message("assistant"@, JsonView::Null).entry("tool_calls"@, JsonView::Array(calls))
}

/// A message with the reasoning that waits for one.
pub open spec fn with_pending(message: JsonView, reasoning: Option<Seq<char>>) -> JsonView {
    match reasoning {
        Some(reasoning) => carrying(message, reasoning),
        None => message,
    }
}

/// A message of the images that tools returned.
pub open spec fn media_message(media: Seq<JsonView>) -> JsonView {
    message(
        "user"@,
        JsonView::Array(
            seq![
                obj().entry("type"@, JsonView::Text("text"@)).entry(
                    "text"@,
                    JsonView::Text("Images returned by tool calls are attached below."@),
                ),
            ] + media,
        ),
    )
}

impl InputView {
    /// The calls that wait become a message of the assistant.
    pub open spec fn flush_calls(self) -> InputView {
        if self.calls.len() == 0 {
            self
        } else {
            InputView {
                messages: self.messages.push(
                    with_pending(calling_message(self.calls), self.reasoning),
                ),
                calls: seq![],
                reasoning: None,
                last_assistant: Some(self.messages.len() as int),
                ..self
            }
        }
    }

    /// The images that wait become a message of the user.
    pub open spec fn flush_media(self) -> InputView {
        if self.media.len() == 0 {
            self
        } else {
            InputView {
                messages: self.messages.push(media_message(self.media)),
                media: seq![],
                ..self
            }
        }
    }

    /// The reasoning that waits goes to the last message of the assistant, or
    /// is dropped where there is none.
    pub open spec fn settle_reasoning(self) -> InputView {
        match (self.reasoning, self.last_assistant) {
            (Some(reasoning), Some(index)) => if 0 <= index < self.messages.len()
                && self.messages[index].get_text("role"@) == Some("assistant"@) {
                InputView {
                    messages: self.messages.update(
                        index,
                        carrying(self.messages[index], reasoning),
                    ),
                    reasoning: None,
                    ..self
                }
            } else {
                InputView { reasoning: None, ..self }
            },
            _ => InputView { reasoning: None, ..self },
        }
    }

    /// A call is put behind those that wait.
    pub open spec fn with_call(self, call: JsonView) -> InputView {
        let state = self.flush_media();
        InputView { calls: state.calls.push(call), ..state }
    }

    /// A message of the user is added.
    pub open spec fn with_user_text(self, text: Option<Seq<char>>) -> InputView {
        let state = self.flush_calls().flush_media().settle_reasoning();
        match text {
            Some(text) => InputView {
                messages: state.messages.push(message("user"@, JsonView::Text(text))),
                last_assistant: None,
                ..state
            },
            None => state,
        }
    }

    /// A message is added.
    pub open spec fn with_message(self, item: JsonView) -> InputView {
        let state = self.flush_calls().flush_media();
        let role = chat_role(item.get_text("role"@));
        let plain = message(
            role,
            JsonView::Text(
                or_empty(
                    match item.get("content"@) {
                        Some(content) => content_text(content),
                        None => None,
                    },
                ),
            ),
        );
        if role == "assistant"@ {
            InputView {
                messages: state.messages.push(
                    with_pending(plain, with_reasoning(state.reasoning, message_reasoning(item))),
                ),
                reasoning: None,
                last_assistant: Some(state.messages.len() as int),
                ..state
            }
        } else {
            let settled = state.settle_reasoning();
            InputView {
                messages: settled.messages.push(plain),
                last_assistant: None,
                ..settled
            }
        }
    }

    /// The output of a tool is added.
    pub open spec fn with_output(self, item: JsonView) -> InputView {
        let state = self.flush_calls();
        let output = match either(item.get("output"@), item.get("content"@)) {
            Some(output) => output,
            None => item,
        };
        let (content, media) = output_and_media(output);
        let plain = message("tool"@, JsonView::Text(content));
        let answered = match item.get_text("call_id"@) {
            Some(call_id) => plain.with("tool_call_id"@, JsonView::Text(call_id)),
            None => plain,
        };
        InputView {
            messages: state.messages.push(answered),
            media: state.media + media,
            ..state
        }
    }

    /// An item of the input is added.
    pub open spec fn with_item(self, item: JsonView, tools: Seq<ToolView>) -> InputView {
        let kind = item.get_text("type"@);
        if item !is Object {
            self.with_user_text(scalar_text(item))
        } else if kind == Some("function_call"@) {
            self.with_call(
                function_call(
                    call_id_of(item),
                    chat_name_of(
                        tools,
                        or_empty(item.get_text("name"@)),
                        item.get_text("namespace"@),
                    ),
                    argument_text(item.get("arguments"@)),
                ),
            )
        } else if kind == Some("custom_tool_call"@) {
            self.with_call(
                function_call(
                    call_id_of(item),
                    or_empty(item.get_text("name"@)),
                    rendered(
                        obj().entry(
                            "input"@,
                            match item.get("input"@) {
                                Some(input) => input,
                                None => JsonView::Text(seq![]),
                            },
                        ),
                    ),
                ),
            )
        } else if kind == Some("tool_search_call"@) {
            self.with_call(
                function_call(
                    call_id_of(item),
                    "tool_search"@,
                    argument_text(item.get("arguments"@)),
                ),
            )
        } else if kind == Some("reasoning"@) {
            InputView { reasoning: with_reasoning(self.reasoning, item_reasoning(item)), ..self }
        } else if kind is None || kind == Some("message"@) {
            self.with_message(item)
        } else if kind == Some("function_call_output"@) || kind == Some("custom_tool_call_output"@)
            || kind == Some("tool_search_output"@) {
            self.with_output(item)
        } else if kind == Some("input_text"@) || kind == Some("output_text"@) {
            self.with_user_text(item.get_text("text"@))
        } else {
            self.flush_calls().flush_media()
        }
    }

    /// The first items of a list are added.
    pub open spec fn with_items(
        self,
        items: Seq<JsonView>,
        tools: Seq<ToolView>,
        count: int,
    ) -> InputView
        decreases count,
    {
        if !(0 < count <= items.len()) {
            self
        } else {
            self.with_items(items, tools, count - 1).with_item(items[count - 1], tools)
        }
    }
}

/// The role of a message in a chat completion.
pub open spec fn chat_role(role: Option<Seq<char>>) -> Seq<char> {
    if role == Some("assistant"@) {
        "assistant"@
    } else if role == Some("system"@) || role == Some("developer"@) {
        "system"@
    } else if role == Some("tool"@) {
        "tool"@
    } else {
        "user"@
    }
}

fn chat_role_of(role: Option<&str>) -> (result: &'static str)
    ensures
        result@ == chat_role(str_view(role)),
{
    if is_text(role, "assistant") {
        "assistant"
    } else if is_text(role, "system") || is_text(role, "developer") {
        "system"
    } else if is_text(role, "tool") {
        "tool"
    } else {
        "user"
    }
}

impl InputMessages {
    fn push_message(&mut self, message: Json)
        ensures
            final(self)@ == (InputView { messages: old(self)@.messages.push(message@), ..old(self)@
            }),
            final(self).messages@.len() == old(self).messages@.len() + 1,
    {
        let ghost added = message@;
        self.messages.push(message);
        assert(self@.messages =~= old(self)@.messages.push(added));
    }

    /// Makes the calls that wait a message of the assistant.
    pub fn flush_pending_tool_calls(&mut self)
        ensures
            final(self)@ == old(self)@.flush_calls(),
    {
        if self.pending_tool_calls.len() == 0 {
            return;
        }
        let mut calls: Vec<Json> = Vec::new();
        core::mem::swap(&mut calls, &mut self.pending_tool_calls);
        assert(views(self.pending_tool_calls@) =~= seq![]);
        let message = message_of("assistant", Json::Null).entry("tool_calls", array(calls));
        let reasoning = self.pending_reasoning.take();
        let message = match reasoning {
            Some(reasoning) => append_reasoning_content(message, &reasoning),
            None => message,
        };
        self.last_assistant_index = Some(self.messages.len());
        self.push_message(message);
    }

    /// Makes the images that wait a message of the user.
    pub fn flush_pending_tool_media(&mut self)
        ensures
            final(self)@ == old(self)@.flush_media(),
    {
        if self.pending_tool_media.len() == 0 {
            return;
        }
        let mut media: Vec<Json> = Vec::new();
        core::mem::swap(&mut media, &mut self.pending_tool_media);
        assert(views(self.pending_tool_media@) =~= seq![]);
        let intro = object().entry("type", text("text")).entry(
            "text",
            text("Images returned by tool calls are attached below."),
        );
        let mut content: Vec<Json> = Vec::new();
        let ghost first = intro@;
        let ghost images = views(media@);
        content.push(intro);
        content.append(&mut media);
        assert(views(content@) =~= seq![first] + images);
        self.push_message(message_of("user", array(content)));
    }

    /// Gives the reasoning that waits to the last message of the assistant, or
    /// drops it.
    pub fn attach_pending_reasoning_to_previous_assistant(&mut self)
        ensures
            final(self)@ == old(self)@.settle_reasoning(),
    {
        let reasoning = match self.pending_reasoning.take() {
            Some(reasoning) => reasoning,
            None => {
                return;
            },
        };
        let index: usize = match self.last_assistant_index {
            Some(index) => index,
            None => {
                return;
            },
        };
        if index >= self.messages.len() {
            return;
        }
        assert(self@.messages[index as int] == self.messages@[index as int]@);
        if !is_text(self.messages[index].get_text("role"), "assistant") {
            return;
        }
        let updated = append_reasoning_content(self.messages[index].copy(), &reasoning);
        let ghost changed = updated@;
        self.messages.set(index, updated);
        assert(self@.messages =~= old(self)@.messages.update(index as int, changed));
    }

    fn push_call(&mut self, call: Json)
        ensures
            final(self)@ == old(self)@.with_call(call@),
    {
        self.flush_pending_tool_media();
        let ghost before = self@.calls;
        let ghost added = call@;
        self.pending_tool_calls.push(call);
        assert(self@.calls =~= before.push(added));
    }

    fn push_user_text(&mut self, content: Option<&str>)
        ensures
            final(self)@ == old(self)@.with_user_text(str_view(content)),
    {
        self.flush_pending_tool_calls();
        self.flush_pending_tool_media();
        self.attach_pending_reasoning_to_previous_assistant();
        if let Some(content) = content {
            self.push_message(message_of("user", text(content)));
            self.last_assistant_index = None;
        }
    }

    fn push_item_message(&mut self, item: &Json)
        ensures
            final(self)@ == old(self)@.with_message(item@),
    {
        self.flush_pending_tool_calls();
        self.flush_pending_tool_media();
        let role = chat_role_of(item.get_text("role"));
        let content = match item.get("content") {
            Some(content) => message_content_text(content),
            None => None,
        };
        let content = match content {
            Some(content) => content,
            None => String::new(),
        };
        let plain = message_of(role, text(&content));
        if same(role, "assistant") {
            append_pending_reasoning(
                &mut self.pending_reasoning,
                response_message_reasoning_text(item),
            );
            let message = match self.pending_reasoning.take() {
                Some(reasoning) => append_reasoning_content(plain, &reasoning),
                None => plain,
            };
            self.last_assistant_index = Some(self.messages.len());
            self.push_message(message);
        } else {
            self.attach_pending_reasoning_to_previous_assistant();
            self.last_assistant_index = None;
            self.push_message(plain);
        }
    }

    fn push_output(&mut self, item: &Json)
        ensures
            final(self)@ == old(self)@.with_output(item@),
    {
        self.flush_pending_tool_calls();
        let output = match first_of(item.get("output"), item.get("content")) {
            Some(output) => output,
            None => item,
        };
        let (content, media) = tool_output_content_and_media(output);
        let plain = message_of("tool", text(&content));
        let answered = match item.get_text("call_id") {
            Some(call_id) => plain.with("tool_call_id", text(call_id)),
            None => plain,
        };
        self.push_message(answered);
        let mut media = media;
        let ghost before = self@.media;
        let ghost images = views(media@);
        self.pending_tool_media.append(&mut media);
        assert(self@.media =~= before + images);
    }

    /// Adds an item of the input.
    pub fn append_response_input_item(&mut self, item: &Json, tool_context: &ChatToolContext)
        ensures
            final(self)@ == old(self)@.with_item(item@, tool_context@),
    {
        if !item.is_object() {
            let content = value_text(item);
            match content {
                Some(content) => self.push_user_text(Some(content.as_str())),
                None => self.push_user_text(None),
            }
            return;
        }
        let kind = item.get_text("type");
        if is_text(kind, "function_call") {
            let name = tool_context.chat_name_for_response_function(
                text_or_empty(item.get_text("name")),
                item.get_text("namespace"),
            );
            self.push_call(
                function_call_of(
                    &response_call_id(item),
                    &name,
                    &json_argument_string(item.get("arguments")),
                ),
            );
        } else if is_text(kind, "custom_tool_call") {
            let input = match item.get("input") {
                Some(input) => input.copy(),
                None => Json::Text(String::new()),
            };
            let arguments = render_json(&object().entry("input", input));
            self.push_call(
                function_call_of(
                    &response_call_id(item),
                    text_or_empty(item.get_text("name")),
                    &arguments,
                ),
            );
        } else if is_text(kind, "tool_search_call") {
            self.push_call(
                function_call_of(
                    &response_call_id(item),
                    "tool_search",
                    &json_argument_string(item.get("arguments")),
                ),
            );
        } else if is_text(kind, "reasoning") {
            append_pending_reasoning(
                &mut self.pending_reasoning,
                response_reasoning_item_text(item),
            );
        } else if kind.is_none() || is_text(kind, "message") {
            self.push_item_message(item);
        } else if is_text(kind, "function_call_output") || is_text(kind, "custom_tool_call_output")
            || is_text(kind, "tool_search_output") {
            self.push_output(item);
        } else if is_text(kind, "input_text") || is_text(kind, "output_text") {
            self.push_user_text(item.get_text("text"));
        } else {
            self.flush_pending_tool_calls();
            self.flush_pending_tool_media();
        }
    }
}

/// Where the last message of the assistant is.
pub open spec fn last_assistant(messages: Seq<JsonView>) -> Option<int>
    decreases messages.len(),
{
    if messages.len() == 0 {
        None
    } else if messages.last().get_text("role"@) == Some("assistant"@) {
        Some(messages.len() - 1)
    } else {
        last_assistant(messages.drop_last())
    }
}

/// The messages with those of an input behind them.
pub open spec fn with_input(
    messages: Seq<JsonView>,
    input: Option<JsonView>,
    tools: Seq<ToolView>,
) -> Seq<JsonView> {
    let start = InputView {
        messages,
        calls: seq![],
        media: seq![],
        reasoning: None,
        last_assistant: last_assistant(messages),
    };
    let end = match input {
        Some(JsonView::Text(text)) => InputView {
            messages: messages.push(message("user"@, JsonView::Text(text))),
            last_assistant: None,
            ..start
        },
        Some(JsonView::Array(items)) => start.with_items(items, tools, items.len() as int),
        Some(JsonView::Object(fields)) => start.with_item(JsonView::Object(fields), tools),
        _ => start,
    };
    end.flush_calls().flush_media().settle_reasoning().messages
}

fn last_assistant_of(messages: &Vec<Json>) -> (index: Option<usize>)
    ensures
        match index {
            Some(index) => last_assistant(views(messages@)) == Some(index as int),
            None => last_assistant(views(messages@)) is None,
        },
{
    let ghost all = views(messages@);
    let mut count: usize = messages.len();
    assert(all.take(count as int) =~= all);
    while count > 0
        invariant
            count <= messages@.len(),
            all == views(messages@),
            last_assistant(all) == last_assistant(all.take(count as int)),
        decreases count,
    {
        assert(all.take(count as int).last() == messages@[count - 1]@);
        assert(all.take(count as int).drop_last() =~= all.take(count - 1));
        if is_text(messages[count - 1].get_text("role"), "assistant") {
            return Some(count - 1);
        }
        count -= 1;
    }
    None
}

/// Adds the messages of an input.
pub fn append_response_input_messages(
    messages: Vec<Json>,
    input: Option<&Json>,
    tool_context: &ChatToolContext,
) -> (result: Vec<Json>)
    ensures
        views(result@) == with_input(views(messages@), seen(input), tool_context@),
{
    let last_assistant_index = last_assistant_of(&messages);
    let mut state = InputMessages {
        messages,
        pending_tool_calls: Vec::new(),
        pending_tool_media: Vec::new(),
        pending_reasoning: None,
        last_assistant_index,
    };
    assert(state@.calls =~= seq![]);
    assert(state@.media =~= seq![]);
    let ghost start = state@;
    if let Some(input) = input {
        if let Some(content) = input.as_text() {
            state.push_message(message_of("user", text(content)));
            state.last_assistant_index = None;
        } else if let Some(items) = input.as_array() {
            let ghost all = views(items@);
            let mut index: usize = 0;
            while index < items.len()
                invariant
                    index <= items@.len(),
                    all == views(items@),
                    state@ == start.with_items(all, tool_context@, index as int),
                decreases items@.len() - index,
            {
                assert(all[index as int] == items@[index as int]@);
                state.append_response_input_item(&items[index], tool_context);
                index += 1;
            }
        } else if input.is_object() {
            state.append_response_input_item(input, tool_context);
        }
    }
    state.flush_pending_tool_calls();
    state.flush_pending_tool_media();
    state.attach_pending_reasoning_to_previous_assistant();
    state.messages
}

/// Whether a message has a role and a text as its content.
pub open spec fn speaks(message: JsonView, role: Seq<char>, content: Seq<char>) -> bool {
    message.get_text("role"@) == Some(role) && message.get_text("content"@) == Some(content)
}

/// Whether a message answers the call of a tool with a text.
pub open spec fn answers(message: JsonView, call_id: Seq<char>, output: Seq<char>) -> bool {
    speaks(message, "tool"@, output) && message.get_text("tool_call_id"@) == Some(call_id)
}

/// Whether a call is one of a function, under an identifier, with arguments.
pub open spec fn calls(
    call: JsonView,
    id: Seq<char>,
    name: Seq<char>,
    arguments: Seq<char>,
) -> bool {
    &&& call.get_text("id"@) == Some(id)
    &&& call.get_text("type"@) == Some("function"@)
    &&& call.get("function"@) matches Some(function) && function.get_text("name"@) == Some(name)
        && function.get_text("arguments"@) == Some(arguments)
}

/// Whether a message of the assistant makes some calls and no others.
pub open spec fn makes(message: JsonView, list: Seq<JsonView>) -> bool {
    message.get_text("role"@) == Some("assistant"@) && message.get("tool_calls"@) == Some(
        JsonView::Array(list),
    )
}

/// Whether messages were only added to: each of those before is still in its
/// place, and at most reasoning was added to one of the assistant.
pub open spec fn grown(before: Seq<JsonView>, after: Seq<JsonView>) -> bool {
    &&& before.len() <= after.len()
    &&& forall|i: int|
        0 <= i < before.len() ==> {
            ||| (#[trigger] after[i]) == before[i]
            ||| {
                &&& before[i].get_text("role"@) == Some("assistant"@)
                &&& forall|key: Seq<char>|
                    key != "reasoning_content"@ ==> #[trigger] after[i].get(key) == before[i].get(
                        key,
                    )
            }
        }
}

/// Whether a call waits or was made in a message.
pub open spec fn placed_call(state: InputView, call: JsonView) -> bool {
    ||| state.calls.contains(call)
    ||| exists|i: int, list: Seq<JsonView>|
        0 <= i < state.messages.len() && #[trigger] makes(state.messages[i], list)
            && list.contains(call)
}

proof fn lemma_message_names()
    ensures
        "role"@ != "content"@,
        "role"@ != "reasoning_content"@,
        "content"@ != "reasoning_content"@,
        "tool_calls"@ != "reasoning_content"@,
        "tool_call_id"@ != "reasoning_content"@,
        "tool_calls"@ != "role"@,
        "tool_calls"@ != "content"@,
        "tool_call_id"@ != "role"@,
        "tool_call_id"@ != "content"@,
{
    reveal_strlit("role");
    reveal_strlit("content");
    reveal_strlit("reasoning_content");
    reveal_strlit("tool_calls");
    reveal_strlit("tool_call_id");
    assert("role"@.len() == 4);
    assert("content"@.len() == 7);
    assert("reasoning_content"@.len() == 17);
    assert("tool_calls"@.len() == 10);
    assert("tool_call_id"@.len() == 12);
}

proof fn lemma_message(role: Seq<char>, content: JsonView)
    ensures
        message(role, content) is Object,
        message(role, content).get("role"@) == Some(JsonView::Text(role)),
        message(role, content).get("content"@) == Some(content),
        message(role, content).get("tool_calls"@) is None,
        message(role, content).get("tool_call_id"@) is None,
        message(role, content).get("reasoning_content"@) is None,
{
    broadcast use lemma_entry_field;

    lemma_message_names();
}

/// Reasoning that is added to a message changes nothing else of it.
proof fn lemma_carrying(message: JsonView, reasoning: Seq<char>, key: Seq<char>)
    requires
        key != "reasoning_content"@,
    ensures
        carrying(message, reasoning).get(key) == message.get(key),
{
    broadcast use lemma_with_field;

}

proof fn lemma_calling(calls: Seq<JsonView>, reasoning: Option<Seq<char>>)
    ensures
        makes(with_pending(calling_message(calls), reasoning), calls),
{
    broadcast use lemma_entry_field;

    lemma_message_names();
    lemma_message("assistant"@, JsonView::Null);
    let plain = calling_message(calls);
    assert(plain.get("role"@) == Some(JsonView::Text("assistant"@)));
    assert(plain.get("tool_calls"@) == Some(JsonView::Array(calls)));
    if let Some(reasoning) = reasoning {
        lemma_carrying(plain, reasoning, "role"@);
        lemma_carrying(plain, reasoning, "tool_calls"@);
    }
}

proof fn lemma_grown_twice(before: Seq<JsonView>, between: Seq<JsonView>, after: Seq<JsonView>)
    requires
        grown(before, between),
        grown(between, after),
    ensures
        grown(before, after),
{
    lemma_message_names();
    assert forall|i: int| 0 <= i < before.len() implies {
        ||| (#[trigger] after[i]) == before[i]
        ||| {
            &&& before[i].get_text("role"@) == Some("assistant"@)
            &&& forall|key: Seq<char>|
                key != "reasoning_content"@ ==> #[trigger] after[i].get(key) == before[i].get(key)
        }
    } by {
        assert(between[i] == between[i]);
        if after[i] != before[i] {
            if between[i] != before[i] {
                assert(between[i].get("role"@) == before[i].get("role"@));
                assert forall|key: Seq<char>| key != "reasoning_content"@ implies #[trigger] after[i].get(
                    key,
                ) == before[i].get(key) by {
                    assert(between[i].get(key) == before[i].get(key));
                }
            }
        }
    }
}

/// Calls that were made stay made while messages are only added to.
proof fn lemma_made_calls(before: InputView, after: InputView, call: JsonView)
    requires
        grown(before.messages, after.messages),
        before.calls.contains(call) ==> placed_call(after, call),
    ensures
        placed_call(before, call) ==> placed_call(after, call),
{
    lemma_message_names();
    if placed_call(before, call) && !before.calls.contains(call) {
        let (i, list) = choose|i: int, list: Seq<JsonView>|
            0 <= i < before.messages.len() && #[trigger] makes(before.messages[i], list)
                && list.contains(call);
        assert(makes(before.messages[i], list));
        assert(after.messages[i] == after.messages[i]);
        if after.messages[i] != before.messages[i] {
            assert(after.messages[i].get("role"@) == before.messages[i].get("role"@));
            assert(after.messages[i].get("tool_calls"@) == before.messages[i].get("tool_calls"@));
        }
        assert(makes(after.messages[i], list));
    }
}

proof fn lemma_flush_calls(state: InputView, call: JsonView)
    ensures
        grown(state.messages, state.flush_calls().messages),
        placed_call(state, call) ==> placed_call(state.flush_calls(), call),
        state.flush_calls().calls.len() == 0,
        state.calls.len() > 0 ==> state.flush_calls().messages.len() == state.messages.len() + 1
            && makes(state.flush_calls().messages.last(), state.calls),
{
    let after = state.flush_calls();
    if state.calls.len() > 0 {
        lemma_calling(state.calls, state.reasoning);
        let last = state.messages.len() as int;
        assert(makes(after.messages[last], state.calls));
        assert(state.calls.contains(call) ==> placed_call(after, call));
    }
    lemma_made_calls(state, after, call);
}

proof fn lemma_flush_media(state: InputView, call: JsonView)
    ensures
        grown(state.messages, state.flush_media().messages),
        placed_call(state, call) ==> placed_call(state.flush_media(), call),
        state.flush_media().calls == state.calls,
{
    lemma_made_calls(state, state.flush_media(), call);
}

proof fn lemma_settle_reasoning(state: InputView, call: JsonView)
    ensures
        grown(state.messages, state.settle_reasoning().messages),
        placed_call(state, call) ==> placed_call(state.settle_reasoning(), call),
        state.settle_reasoning().calls == state.calls,
        state.settle_reasoning().messages.len() == state.messages.len(),
{
    let after = state.settle_reasoning();
    assert forall|i: int| 0 <= i < state.messages.len() implies {
        ||| (#[trigger] after.messages[i]) == state.messages[i]
        ||| {
            &&& state.messages[i].get_text("role"@) == Some("assistant"@)
            &&& forall|key: Seq<char>|
                key != "reasoning_content"@ ==> #[trigger] after.messages[i].get(key)
                    == state.messages[i].get(key)
        }
    } by {
        if after.messages[i] != state.messages[i] {
            let reasoning = state.reasoning->0;
            assert forall|key: Seq<char>| key != "reasoning_content"@ implies #[trigger] after.messages[i].get(
                key,
            ) == state.messages[i].get(key) by {
                lemma_carrying(state.messages[i], reasoning, key);
            }
        }
    }
    lemma_made_calls(state, after, call);
}

proof fn lemma_flush_all(state: InputView, call: JsonView)
    ensures
        ({
            let after = state.flush_calls().flush_media();
            &&& grown(state.messages, after.messages)
            &&& grown(state.messages, after.settle_reasoning().messages)
            &&& placed_call(state, call) ==> placed_call(after, call)
            &&& placed_call(state, call) ==> placed_call(after.settle_reasoning(), call)
            &&& after.calls.len() == 0
            &&& after.settle_reasoning().calls.len() == 0
        }),
{
    let first = state.flush_calls();
    let second = first.flush_media();
    lemma_flush_calls(state, call);
    lemma_flush_media(first, call);
    lemma_settle_reasoning(second, call);
    lemma_grown_twice(state.messages, first.messages, second.messages);
    lemma_grown_twice(state.messages, second.messages, second.settle_reasoning().messages);
}

proof fn lemma_call_grows(state: InputView, added: JsonView, call: JsonView)
    ensures
        grown(state.messages, state.with_call(added).messages),
        placed_call(state, call) ==> placed_call(state.with_call(added), call),
        placed_call(state.with_call(added), added),
{
    let ready = state.flush_media();
    let after = state.with_call(added);
    lemma_flush_media(state, call);
    assert(after.calls.last() == added);
    if ready.calls.contains(call) {
        let place = choose|place: int| 0 <= place < ready.calls.len() && ready.calls[place] == call;
        assert(after.calls[place] == call);
    }
    lemma_made_calls(ready, after, call);
}

proof fn lemma_user_text_grows(state: InputView, said: Option<Seq<char>>, call: JsonView)
    ensures
        grown(state.messages, state.with_user_text(said).messages),
        placed_call(state, call) ==> placed_call(state.with_user_text(said), call),
{
    lemma_flush_all(state, call);
    let settled = state.flush_calls().flush_media().settle_reasoning();
    let after = state.with_user_text(said);
    lemma_grown_twice(state.messages, settled.messages, after.messages);
    lemma_made_calls(settled, after, call);
}

proof fn lemma_message_grows(state: InputView, item: JsonView, call: JsonView)
    ensures
        grown(state.messages, state.with_message(item).messages),
        placed_call(state, call) ==> placed_call(state.with_message(item), call),
{
    lemma_flush_all(state, call);
    let flushed = state.flush_calls().flush_media();
    let settled = flushed.settle_reasoning();
    let after = state.with_message(item);
    if chat_role(item.get_text("role"@)) == "assistant"@ {
        lemma_grown_twice(state.messages, flushed.messages, after.messages);
        lemma_made_calls(flushed, after, call);
    } else {
        lemma_grown_twice(state.messages, settled.messages, after.messages);
        lemma_made_calls(settled, after, call);
    }
}

proof fn lemma_output_grows(state: InputView, item: JsonView, call: JsonView)
    ensures
        grown(state.messages, state.with_output(item).messages),
        placed_call(state, call) ==> placed_call(state.with_output(item), call),
{
    lemma_flush_calls(state, call);
    let flushed = state.flush_calls();
    let after = state.with_output(item);
    lemma_grown_twice(state.messages, flushed.messages, after.messages);
    lemma_made_calls(flushed, after, call);
}

proof fn lemma_item_grows(state: InputView, item: JsonView, tools: Seq<ToolView>, call: JsonView)
    ensures
        grown(state.messages, state.with_item(item, tools).messages),
        placed_call(state, call) ==> placed_call(state.with_item(item, tools), call),
{
    let kind = item.get_text("type"@);
    lemma_flush_all(state, call);
    lemma_user_text_grows(state, scalar_text(item), call);
    lemma_user_text_grows(state, item.get_text("text"@), call);
    lemma_message_grows(state, item, call);
    lemma_output_grows(state, item, call);
    let after = state.with_item(item, tools);
    if kind == Some("function_call"@) || kind == Some("custom_tool_call"@) || kind == Some(
        "tool_search_call"@,
    ) {
        if item is Object {
            lemma_call_grows(state, after.calls.last(), call);
        }
    } else if kind == Some("reasoning"@) {
        lemma_made_calls(state, after, call);
    }
}

proof fn lemma_items_grow(
    state: InputView,
    items: Seq<JsonView>,
    tools: Seq<ToolView>,
    from: int,
    count: int,
    call: JsonView,
)
    requires
        0 <= from <= count <= items.len(),
    ensures
        grown(
            state.with_items(items, tools, from).messages,
            state.with_items(items, tools, count).messages,
        ),
        placed_call(state.with_items(items, tools, from), call) ==> placed_call(
            state.with_items(items, tools, count),
            call,
        ),
    decreases count - from,
{
    if from < count {
        lemma_items_grow(state, items, tools, from, count - 1, call);
        let before = state.with_items(items, tools, count - 1);
        lemma_item_grows(before, items[count - 1], tools, call);
        lemma_grown_twice(
            state.with_items(items, tools, from).messages,
            before.messages,
            state.with_items(items, tools, count).messages,
        );
    }
}

/// The state in which the items of an input are added.
pub open spec fn opening(messages: Seq<JsonView>) -> InputView {
    InputView {
        messages,
        calls: seq![],
        media: seq![],
        reasoning: None,
        last_assistant: last_assistant(messages),
    }
}

/// What was said before stays, in its place and order, whatever the input adds;
/// only reasoning is added to messages of the assistant.
pub proof fn law_earlier_messages_stay(
    messages: Seq<JsonView>,
    input: Option<JsonView>,
    tools: Seq<ToolView>,
)
    ensures
        grown(messages, with_input(messages, input, tools)),
{
    let start = opening(messages);
    let call = JsonView::Null;
    let end = match input {
        Some(JsonView::Text(text)) => InputView {
            messages: messages.push(message("user"@, JsonView::Text(text))),
            last_assistant: None,
            ..start
        },
        Some(JsonView::Array(items)) => start.with_items(items, tools, items.len() as int),
        Some(JsonView::Object(fields)) => start.with_item(JsonView::Object(fields), tools),
        _ => start,
    };
    if let Some(JsonView::Array(items)) = input {
        lemma_items_grow(start, items, tools, 0, items.len() as int, call);
    }
    if let Some(JsonView::Object(fields)) = input {
        lemma_item_grows(start, JsonView::Object(fields), tools, call);
    }
    lemma_flush_all(end, call);
    lemma_grown_twice(
        messages,
        end.messages,
        end.flush_calls().flush_media().settle_reasoning().messages,
    );
}

/// An input that is a text is the last message, said by the user.
pub proof fn law_input_texts_are_said_by_the_user(
    messages: Seq<JsonView>,
    said: Seq<char>,
    tools: Seq<ToolView>,
)
    ensures
        ({
            let all = with_input(messages, Some(JsonView::Text(said)), tools);
            &&& all.len() == messages.len() + 1
            &&& all.drop_last() == messages
            &&& speaks(all.last(), "user"@, said)
        }),
{
    lemma_message("user"@, JsonView::Text(said));
    let all = with_input(messages, Some(JsonView::Text(said)), tools);
    assert(all.drop_last() =~= messages);
}

/// The output of a tool that is a text without images becomes a message of role
/// `tool` with exactly that text, which answers the call that the output names.
/// The calls that waited are made in a message before it.
pub proof fn law_outputs_answer_their_calls(
    state: InputView,
    item: JsonView,
    tools: Seq<ToolView>,
    output: Seq<char>,
    call_id: Seq<char>,
)
    requires
        item is Object,
        item.get_text("type"@) == Some("function_call_output"@) || item.get_text("type"@) == Some(
            "custom_tool_call_output"@,
        ),
        item.get("output"@) == Some(JsonView::Text(output)),
        item.get_text("call_id"@) == Some(call_id),
        output_and_media(JsonView::Text(output)).1.len() == 0,
    ensures
        ({
            let after = state.with_item(item, tools);
            &&& after.messages.len() > 0
            &&& answers(after.messages.last(), call_id, output)
            &&& after.media == state.media
            &&& after.calls.len() == 0
            &&& grown(state.messages, after.messages.drop_last())
            &&& if state.calls.len() > 0 {
                after.messages.len() == state.messages.len() + 2 && makes(
                    after.messages[state.messages.len() as int],
                    state.calls,
                )
            } else {
                after.messages.len() == state.messages.len() + 1
            }
        }),
{
    broadcast use lemma_with_field;

    reveal_strlit("function_call");
    reveal_strlit("custom_tool_call");
    reveal_strlit("tool_search_call");
    reveal_strlit("reasoning");
    reveal_strlit("message");
    reveal_strlit("function_call_output");
    reveal_strlit("custom_tool_call_output");
    assert("function_call"@.len() == 13);
    assert("custom_tool_call"@.len() == 16);
    assert("tool_search_call"@.len() == 16);
    assert("reasoning"@.len() == 9);
    assert("message"@.len() == 7);
    assert("function_call_output"@.len() == 20);
    assert("custom_tool_call_output"@.len() == 23);
    assert("custom_tool_call"@[0] != "tool_search_call"@[0]);
    lemma_message_names();
    law_texts_without_images_are_kept(output);
    lemma_message("tool"@, JsonView::Text(output));
    lemma_flush_calls(state, JsonView::Null);
    let after = state.with_item(item, tools);
    assert(after == state.with_output(item));
    assert(after.messages.drop_last() =~= state.flush_calls().messages);
    let plain = message("tool"@, JsonView::Text(output));
    let answered = plain.with("tool_call_id"@, JsonView::Text(call_id));
    assert(after.messages.last() == answered);
    assert(answered.get("role"@) == Some(JsonView::Text("tool"@)));
    assert(answered.get("content"@) == Some(JsonView::Text(output)));
    assert(answered.get("tool_call_id"@) == Some(JsonView::Text(call_id)));
    assert(state.media + Seq::<JsonView>::empty() =~= state.media);
    assert(output_and_media(JsonView::Text(output)).1 =~= seq![]);
}

/// Every output of a tool in an input that is a text without images reaches the
/// model: the messages hold one that answers its call with that text.
pub proof fn law_tool_results_reach_the_model(
    messages: Seq<JsonView>,
    items: Seq<JsonView>,
    tools: Seq<ToolView>,
    index: int,
    output: Seq<char>,
    call_id: Seq<char>,
)
    requires
        0 <= index < items.len(),
        items[index] is Object,
        items[index].get_text("type"@) == Some("function_call_output"@)
            || items[index].get_text("type"@) == Some("custom_tool_call_output"@),
        items[index].get("output"@) == Some(JsonView::Text(output)),
        items[index].get_text("call_id"@) == Some(call_id),
        output_and_media(JsonView::Text(output)).1.len() == 0,
    ensures
        exists|i: int|
            messages.len() <= i < with_input(
                messages,
                Some(JsonView::Array(items)),
                tools,
            ).len() && answers(
                #[trigger] with_input(messages, Some(JsonView::Array(items)), tools)[i],
                call_id,
                output,
            ),
{
    lemma_message_names();
    let start = opening(messages);
    let before = start.with_items(items, tools, index);
    let after = start.with_items(items, tools, index + 1);
    let end = start.with_items(items, tools, items.len() as int);
    law_outputs_answer_their_calls(before, items[index], tools, output, call_id);
    lemma_items_grow(start, items, tools, 0, index, JsonView::Null);
    lemma_items_grow(start, items, tools, index + 1, items.len() as int, JsonView::Null);
    lemma_flush_all(end, JsonView::Null);
    let all = with_input(messages, Some(JsonView::Array(items)), tools);
    lemma_grown_twice(after.messages, end.messages, all);
    let place = after.messages.len() - 1;
    reveal_strlit("tool");
    reveal_strlit("assistant");
    assert("tool"@.len() != "assistant"@.len());
    assert(all[place] == after.messages[place]);
    assert(answers(all[place], call_id, output));
}

/// Every call of a function in an input is made in a message of the assistant,
/// under its identifier, by the name that the model has for the function, and
/// with its arguments where they are a text.
pub proof fn law_function_calls_reach_the_model(
    messages: Seq<JsonView>,
    items: Seq<JsonView>,
    tools: Seq<ToolView>,
    index: int,
    call_id: Seq<char>,
    name: Seq<char>,
    arguments: Seq<char>,
)
    requires
        0 <= index < items.len(),
        items[index] is Object,
        items[index].get_text("type"@) == Some("function_call"@),
        items[index].get("call_id"@) == Some(JsonView::Text(call_id)),
        items[index].get_text("name"@) == Some(name),
        items[index].get("namespace"@) is None,
        items[index].get("arguments"@) == Some(JsonView::Text(arguments)),
    ensures
        exists|i: int, list: Seq<JsonView>, call: JsonView|
            0 <= i < with_input(messages, Some(JsonView::Array(items)), tools).len()
                && #[trigger] makes(
                with_input(messages, Some(JsonView::Array(items)), tools)[i],
                list,
            ) && #[trigger] list.contains(call) && calls(call, call_id, name, arguments),
{
    broadcast use lemma_entry_field;

    reveal_strlit("id");
    reveal_strlit("type");
    reveal_strlit("function");
    reveal_strlit("name");
    reveal_strlit("arguments");
    assert("id"@.len() == 2);
    assert("type"@.len() == 4);
    assert("function"@.len() == 8);
    assert("name"@.len() == 4);
    assert("arguments"@.len() == 9);
    assert("type"@[0] != "name"@[0]);
    let start = opening(messages);
    let before = start.with_items(items, tools, index);
    let after = start.with_items(items, tools, index + 1);
    let end = start.with_items(items, tools, items.len() as int);
    let call = function_call(call_id, name, arguments);
    let inner = obj().entry("name"@, JsonView::Text(name)).entry(
        "arguments"@,
        JsonView::Text(arguments),
    );
    assert(inner.get("name"@) == Some(JsonView::Text(name)));
    assert(inner.get("arguments"@) == Some(JsonView::Text(arguments)));
    assert(call.get("id"@) == Some(JsonView::Text(call_id)));
    assert(call.get("type"@) == Some(JsonView::Text("function"@)));
    assert(call.get("function"@) == Some(inner));
    assert(calls(call, call_id, name, arguments));
    assert(after == before.with_call(call));
    lemma_call_grows(before, call, call);
    lemma_items_grow(start, items, tools, index + 1, items.len() as int, call);
    lemma_flush_all(end, call);
    let last = end.flush_calls().flush_media().settle_reasoning();
    assert(placed_call(last, call));
    let (i, list) = choose|i: int, list: Seq<JsonView>|
        0 <= i < last.messages.len() && #[trigger] makes(last.messages[i], list) && list.contains(
            call,
        );
    assert(makes(with_input(messages, Some(JsonView::Array(items)), tools)[i], list));
}

/// A message of the input keeps its text and its place behind what was said
/// before. It is said by the assistant or by a tool where it was, by the system
/// where the system or the developer said it, and else by the user.
pub proof fn law_messages_keep_their_speaker_and_text(
    state: InputView,
    item: JsonView,
    tools: Seq<ToolView>,
    role: Seq<char>,
    content: Seq<char>,
)
    requires
        item is Object,
        item.get("type"@) is None || item.get_text("type"@) == Some("message"@),
        item.get_text("role"@) == Some(role),
        item.get("content"@) == Some(JsonView::Text(content)),
    ensures
        ({
            let after = state.with_item(item, tools);
            &&& after.messages.len() > state.messages.len()
            &&& grown(state.messages, after.messages.drop_last())
            &&& after.messages.last().get_text("content"@) == Some(content)
            &&& after.messages.last().get_text("role"@) == Some(
                if role == "assistant"@ || role == "tool"@ {
                    role
                } else if role == "system"@ || role == "developer"@ {
                    "system"@
                } else {
                    "user"@
                },
            )
            &&& after.calls.len() == 0 && after.media.len() == 0
        }),
{
    reveal_strlit("function_call");
    reveal_strlit("custom_tool_call");
    reveal_strlit("tool_search_call");
    reveal_strlit("reasoning");
    reveal_strlit("message");
    reveal_strlit("assistant");
    reveal_strlit("tool");
    reveal_strlit("system");
    reveal_strlit("developer");
    reveal_strlit("user");
    assert("function_call"@.len() == 13);
    assert("custom_tool_call"@.len() == 16);
    assert("tool_search_call"@.len() == 16);
    assert("reasoning"@.len() == 9);
    assert("message"@.len() == 7);
    assert("assistant"@.len() == 9);
    assert("tool"@.len() == 4);
    assert("system"@.len() == 6);
    assert("developer"@.len() == 9);
    assert("user"@.len() == 4);
    assert("custom_tool_call"@[0] != "tool_search_call"@[0]);
    assert("reasoning"@[0] != "assistant"@[0]);
    assert("reasoning"@[0] != "developer"@[0]);
    assert("assistant"@[0] != "developer"@[0]);
    assert("tool"@[0] != "user"@[0]);
    lemma_message_names();
    lemma_flush_all(state, JsonView::Null);
    let flushed = state.flush_calls().flush_media();
    let settled = flushed.settle_reasoning();
    let after = state.with_item(item, tools);
    assert(after == state.with_message(item));
    let spoken = chat_role(Some(role));
    let plain = message(spoken, JsonView::Text(content));
    lemma_message(spoken, JsonView::Text(content));
    if role == "assistant"@ {
        assert(after.messages.drop_last() =~= flushed.messages);
        let pending = with_reasoning(flushed.reasoning, message_reasoning(item));
        if let Some(reasoning) = pending {
            lemma_carrying(plain, reasoning, "role"@);
            lemma_carrying(plain, reasoning, "content"@);
        }
    } else {
        assert(after.messages.drop_last() =~= settled.messages);
    }
}

/// Images that tools returned are shown to the model in a message of the user, in
/// their order, when the next message is added.
pub proof fn law_images_of_tools_are_shown(
    state: InputView,
    item: JsonView,
    tools: Seq<ToolView>,
    said: Seq<char>,
)
    requires
        item == JsonView::Text(said),
        state.media.len() > 0,
        state.calls.len() == 0,
    ensures
        ({
            let after = state.with_item(item, tools);
            &&& after.messages.len() == state.messages.len() + 2
            &&& speaks(after.messages.last(), "user"@, said)
            &&& after.messages[state.messages.len() as int].get_text("role"@) == Some("user"@)
            &&& after.messages[state.messages.len() as int].get("content"@) matches Some(
                JsonView::Array(parts),
            ) && parts.len() == state.media.len() + 1 && parts.drop_first() == state.media
            &&& after.media.len() == 0
        }),
{
    reveal_strlit("user");
    reveal_strlit("assistant");
    assert("user"@.len() != "assistant"@.len());
    lemma_message_names();
    lemma_message("user"@, JsonView::Text(said));
    let flushed = state.flush_calls().flush_media();
    let shown = flushed.messages.last();
    let parts = shown.get("content"@);
    let list = media_message(state.media);
    lemma_message(
        "user"@,
        JsonView::Array(
            seq![
                obj().entry("type"@, JsonView::Text("text"@)).entry(
                    "text"@,
                    JsonView::Text("Images returned by tool calls are attached below."@),
                ),
            ] + state.media,
        ),
    );
    let after = state.with_item(item, tools);
    lemma_settle_reasoning(flushed, JsonView::Null);
    assert(flushed.messages[state.messages.len() as int] == list);
    let settled = flushed.settle_reasoning();
    assert(settled.messages[state.messages.len() as int] == list);
    if let Some(JsonView::Array(parts)) = list.get("content"@) {
        assert(parts.drop_first() =~= state.media);
    }
}

/// Reasoning that came before a message of the assistant is carried by it.
pub proof fn law_reasoning_goes_with_its_message(
    state: InputView,
    item: JsonView,
    tools: Seq<ToolView>,
    reasoning: Seq<char>,
)
    requires
        item is Object,
        item.get("type"@) is None,
        item.get_text("role"@) == Some("assistant"@),
        state.reasoning == Some(reasoning),
        state.calls.len() == 0,
        trim(reasoning) == reasoning,
        reasoning.len() > 0,
        message_reasoning(item) is None,
    ensures
        state.with_item(item, tools).messages.last().get_text("reasoning_content"@) == Some(
            reasoning,
        ),
        state.with_item(item, tools).reasoning is None,
{
    broadcast use lemma_with_field;

    let content = JsonView::Text(
        or_empty(
            match item.get("content"@) {
                Some(content) => content_text(content),
                None => None,
            },
        ),
    );
    lemma_message("assistant"@, content);
    let plain = message("assistant"@, content);
    assert(carrying(plain, reasoning).get("reasoning_content"@) == Some(JsonView::Text(reasoning)));
}

/// A custom tool that was called is called again with its input, and a search for
/// tools with its arguments, each under its identifier.
pub proof fn law_other_calls_reach_the_model(
    state: InputView,
    item: JsonView,
    tools: Seq<ToolView>,
    call_id: Seq<char>,
    name: Seq<char>,
    input: JsonView,
    arguments: Seq<char>,
)
    requires
        item is Object,
        item.get("call_id"@) == Some(JsonView::Text(call_id)),
    ensures
        item.get_text("type"@) == Some("custom_tool_call"@) && item.get_text("name"@) == Some(name)
            && item.get("input"@) == Some(input) ==> calls(
            state.with_item(item, tools).calls.last(),
            call_id,
            name,
            rendered(obj().entry("input"@, input)),
        ),
        item.get_text("type"@) == Some("tool_search_call"@) && item.get("arguments"@) == Some(
            JsonView::Text(arguments),
        ) ==> calls(
            state.with_item(item, tools).calls.last(),
            call_id,
            "tool_search"@,
            arguments,
        ),
{
    reveal_strlit("function_call");
    reveal_strlit("custom_tool_call");
    reveal_strlit("tool_search_call");
    assert("function_call"@.len() == 13);
    assert("custom_tool_call"@.len() == 16);
    assert("tool_search_call"@.len() == 16);
    assert("custom_tool_call"@[0] != "tool_search_call"@[0]);
    lemma_call_fields(call_id, name, rendered(obj().entry("input"@, input)));
    lemma_call_fields(call_id, "tool_search"@, arguments);
}

proof fn lemma_call_fields(call_id: Seq<char>, name: Seq<char>, arguments: Seq<char>)
    ensures
        calls(function_call(call_id, name, arguments), call_id, name, arguments),
{
    broadcast use lemma_entry_field;

    reveal_strlit("id");
    reveal_strlit("type");
    reveal_strlit("function");
    reveal_strlit("name");
    reveal_strlit("arguments");
    assert("id"@.len() == 2);
    assert("type"@.len() == 4);
    assert("function"@.len() == 8);
    assert("name"@.len() == 4);
    assert("arguments"@.len() == 9);
    assert("type"@[0] != "name"@[0]);
    let call = function_call(call_id, name, arguments);
    let inner = obj().entry("name"@, JsonView::Text(name)).entry(
        "arguments"@,
        JsonView::Text(arguments),
    );
    assert(inner.get("name"@) == Some(JsonView::Text(name)));
    assert(inner.get("arguments"@) == Some(JsonView::Text(arguments)));
    assert(call.get("id"@) == Some(JsonView::Text(call_id)));
    assert(call.get("type"@) == Some(JsonView::Text("function"@)));
    assert(call.get("function"@) == Some(inner));
}

/// The parts of a message that have a text make up its text, one to a line, in
/// their order.
pub proof fn law_parts_make_up_the_text(first: JsonView, second: JsonView, one: Seq<char>, two: Seq<char>)
    requires
        first.get("text"@) == Some(JsonView::Text(one)),
        second.get("text"@) == Some(JsonView::Text(two)),
    ensures
        content_text(JsonView::Array(seq![first, second])) == Some(one + "\n"@ + two),
        content_text(JsonView::Array(seq![first])) == Some(one),
        content_text(JsonView::Text(one)) == Some(one),
{
    let parts = seq![first, second];
    assert(part_text(first) == Some(one));
    assert(part_text(second) == Some(two));
    reveal_with_fuel(part_texts, 3);
    assert(part_texts(parts, 0) =~= Seq::<Seq<char>>::empty());
    assert(part_texts(parts, 1) =~= seq![one]);
    assert(part_texts(parts, 2) =~= seq![one, two]);
    assert(part_texts(seq![first], 1) =~= seq![one]);
    reveal_with_fuel(joined, 3);
    assert(seq![one, two].drop_last() =~= seq![one]);
}

/// The text of an output is the content of its message, and its images wait to be
/// shown behind those that wait already.
pub proof fn law_images_of_an_output_wait(
    state: InputView,
    item: JsonView,
    tools: Seq<ToolView>,
    output: JsonView,
)
    requires
        item is Object,
        item.get_text("type"@) == Some("function_call_output"@),
        item.get("output"@) == Some(output),
    ensures
        state.with_item(item, tools).media == state.media + output_and_media(output).1,
        state.with_item(item, tools).messages.last().get_text("content"@) == Some(
            output_and_media(output).0,
        ),
{
    broadcast use lemma_with_field;

    reveal_strlit("function_call");
    reveal_strlit("custom_tool_call");
    reveal_strlit("tool_search_call");
    reveal_strlit("reasoning");
    reveal_strlit("message");
    reveal_strlit("function_call_output");
    assert("function_call"@.len() == 13);
    assert("custom_tool_call"@.len() == 16);
    assert("tool_search_call"@.len() == 16);
    assert("reasoning"@.len() == 9);
    assert("message"@.len() == 7);
    assert("function_call_output"@.len() == 20);
    assert("custom_tool_call"@[0] != "tool_search_call"@[0]);
    lemma_message_names();
    let (content, media) = output_and_media(output);
    lemma_message("tool"@, JsonView::Text(content));
}

/// A text in the input, alone or as a part, is said by the user: it is the last
/// message, exactly as it is.
pub proof fn law_texts_in_the_input_are_said_by_the_user(
    state: InputView,
    item: JsonView,
    tools: Seq<ToolView>,
    said: Seq<char>,
)
    requires
        item == JsonView::Text(said) || (item is Object && (item.get_text("type"@) == Some(
            "input_text"@,
        ) || item.get_text("type"@) == Some("output_text"@)) && item.get_text("text"@) == Some(
            said,
        )),
    ensures
        ({
            let after = state.with_item(item, tools);
            &&& after.messages.len() > state.messages.len()
            &&& grown(state.messages, after.messages.drop_last())
            &&& speaks(after.messages.last(), "user"@, said)
            &&& after.calls.len() == 0 && after.media.len() == 0 && after.reasoning is None
        }),
{
    reveal_strlit("function_call");
    reveal_strlit("custom_tool_call");
    reveal_strlit("tool_search_call");
    reveal_strlit("reasoning");
    reveal_strlit("message");
    reveal_strlit("function_call_output");
    reveal_strlit("custom_tool_call_output");
    reveal_strlit("tool_search_output");
    reveal_strlit("input_text");
    reveal_strlit("output_text");
    assert("function_call"@.len() == 13);
    assert("custom_tool_call"@.len() == 16);
    assert("tool_search_call"@.len() == 16);
    assert("reasoning"@.len() == 9);
    assert("message"@.len() == 7);
    assert("function_call_output"@.len() == 20);
    assert("custom_tool_call_output"@.len() == 23);
    assert("tool_search_output"@.len() == 18);
    assert("input_text"@.len() == 10);
    assert("output_text"@.len() == 11);
    assert("custom_tool_call"@[0] != "tool_search_call"@[0]);
    lemma_message("user"@, JsonView::Text(said));
    lemma_flush_all(state, JsonView::Null);
    let settled = state.flush_calls().flush_media().settle_reasoning();
    let after = state.with_item(item, tools);
    assert(after == state.with_user_text(Some(said)));
    assert(after.messages.drop_last() =~= settled.messages);
}

/// Reasoning that no message follows goes to the last message of the assistant,
/// behind what that carries.
pub proof fn law_trailing_reasoning_goes_to_the_last_answer(
    state: InputView,
    reasoning: Seq<char>,
    index: int,
)
    requires
        state.reasoning == Some(reasoning),
        trim(reasoning) == reasoning,
        reasoning.len() > 0,
        state.last_assistant == Some(index),
        0 <= index < state.messages.len(),
        state.messages[index].get_text("role"@) == Some("assistant"@),
    ensures
        ({
            let after = state.settle_reasoning();
            &&& after.reasoning is None
            &&& state.messages[index].get("reasoning_content"@) is None
                ==> after.messages[index].get_text("reasoning_content"@) == Some(reasoning)
            &&& match state.messages[index].get_text("reasoning_content"@) {
                Some(before) => trim(before).len() > 0 ==> after.messages[index].get_text(
                    "reasoning_content"@,
                ) == Some(before + "\n\n"@ + reasoning),
                None => true,
            }
        }),
{
    broadcast use lemma_with_field;

}

} // verus!
