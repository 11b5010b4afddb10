//! A stream of Chat Completions as a stream of the Responses protocol.
//!
//! The state machine takes the bytes of the upstream stream and queues the
//! events of the stream that the client gets. What the events need of the
//! generated text and of tool calls is kept until the end of the stream, within
//! limits; a stream that exceeds one ends with a failure.
use crate::chat_input::{calls, function_call, function_call_of, makes, message, message_of};
use crate::chat_response::{
    calls_function, chat_usage_to_responses_usage, custom_input, custom_tool_input,
    law_calls_come_back_as_they_were_offered, law_messages_say_their_text, listed_choice,
    listed_choice_of,
    message_item, message_item_of, numbered_call, numbered_call_id, output_text, output_text_of,
    response_id, response_id_from_chat_id, response_tool_call_item, response_usage, stable_id,
    stable_response_id, says_only, tool_call_item,
};
use crate::clock::unix_now;
use crate::history::{ChatHistoryEntry, EntryView};
use crate::json::{
    array, at, copy_all, get_at, integer, integer_view, items_in, no_items, obj, object, parse_json,
    parsed_json, render_json, rendered, seen, str_view, text, text_at, text_in, unsigned, views,
    Json, JsonNumber, JsonView,
};
use crate::limits::{byte_limit_text, display_byte_limit};
use crate::preflight::{append_bytes, drain_front};
use crate::sse::{
    event_data, event_data_of, first_boundary, law_boundary_is_stable, law_data_of_events_is_read,
    lemma_boundary_bounds, lossy_text, next_sse_block_boundary, one_line, sse_frame_limit_reached,
    utf8_lossy, MAX_SSE_FRAME_BYTES,
};
use crate::text::{
    begins, byte_len, concat2, concat3, ends, is_blank, lemma_encode_concat, same, trim, trimmed,
    white_space,
};
use crate::tools::{tool_named, ChatToolContext, ChatToolKind, ToolView};
use std::collections::VecDeque;
use vstd::prelude::*;
use vstd::string::*;
use vstd::utf8::*;

verus! {

/// The most bytes of text and tool calls that are kept of a stream.
pub const MAX_CHAT_SSE_RETAINED_OUTPUT_BYTES: usize = 33554432;

/// The most bytes of events that wait to be sent.
pub const MAX_CHAT_SSE_PENDING_OUTPUT_BYTES: usize = 268435456;

/// The most tool calls of a stream.
pub const MAX_CHAT_SSE_TOOL_CALLS: usize = 512;

/// A tool call that arrives in pieces.
#[derive(Debug)]
pub struct ChatToolCallState {
    pub call_id: String,
    pub name: String,
    pub arguments: String,
}

/// What a `ChatToolCallState` holds.
#[verifier::ext_equal]
pub struct CallView {
    pub call_id: Seq<char>,
    pub name: Seq<char>,
    pub arguments: Seq<char>,
}

impl View for ChatToolCallState {
    type V = CallView;

    open spec fn view(&self) -> CallView {
        CallView {
            call_id: self.call_id@,
            name: self.name@,
            arguments: self.arguments@,
        }
    }
}

impl CallView {
    /// A call of which nothing has arrived.
    pub open spec fn empty() -> CallView {
        CallView { call_id: seq![], name: seq![], arguments: seq![] }
    }

    /// How many bytes are kept of the call.
    pub open spec fn bytes(self) -> nat {
        encode_utf8(self.call_id).len() + encode_utf8(self.name).len() + encode_utf8(
            self.arguments,
        ).len()
    }

    /// The call with a piece added: an identifier and a name replace what is
    /// there, arguments go behind what is there.
    pub open spec fn merged(
        self,
        call_id: Option<Seq<char>>,
        name: Option<Seq<char>>,
        arguments: Option<Seq<char>>,
    ) -> CallView {
        CallView {
            call_id: match call_id {
                Some(call_id) => call_id,
                None => self.call_id,
            },
            name: match name {
                Some(name) => name,
                None => self.name,
            },
            arguments: match arguments {
                Some(arguments) => self.arguments + arguments,
                None => self.arguments,
            },
        }
    }
}

/// What the end of a stream means for the relay.
#[derive(Debug)]
pub enum ChatStreamNotice {
    /// The stream failed; the text says why.
    Failed(String),
    /// The stream was completed; the conversation is to be kept.
    Completed { response_id: String, entry: ChatHistoryEntry },
}

/// What a `ChatStreamNotice` says.
#[verifier::ext_equal]
pub enum NoticeView {
    Failed(Seq<char>),
    Completed { response_id: Seq<char>, entry: EntryView },
}

impl View for ChatStreamNotice {
    type V = NoticeView;

    open spec fn view(&self) -> NoticeView {
        match *self {
            ChatStreamNotice::Failed(detail) => NoticeView::Failed(detail@),
            ChatStreamNotice::Completed { response_id, entry } => NoticeView::Completed {
                response_id: response_id@,
                entry: entry@,
            },
        }
    }
}

/// The call of an index.
pub open spec fn call_at(calls: Seq<(usize, CallView)>, index: usize) -> Option<CallView>
    decreases calls.len(),
{
    if calls.len() == 0 {
        None
    } else if calls[0].0 == index {
        Some(calls[0].1)
    } else {
        call_at(calls.drop_first(), index)
    }
}

/// The calls with that of an index set, in ascending order of indices.
pub open spec fn with_call_at(
    calls: Seq<(usize, CallView)>,
    index: usize,
    call: CallView,
) -> Seq<(usize, CallView)>
    decreases calls.len(),
{
    if calls.len() == 0 {
        seq![(index, call)]
    } else if calls[0].0 == index {
        calls.update(0, (index, call))
    } else if index < calls[0].0 {
        seq![(index, call)] + calls
    } else {
        seq![calls[0]] + with_call_at(calls.drop_first(), index, call)
    }
}

/// The first calls of a list that have a name.
pub open spec fn named_calls(calls: Seq<(usize, CallView)>, count: int) -> Seq<(usize, CallView)>
    decreases count,
{
    if !(0 < count <= calls.len()) {
        seq![]
    } else {
        let before = named_calls(calls, count - 1);
        if trim(calls[count - 1].1.name).len() == 0 {
            before
        } else {
            before.push(calls[count - 1])
        }
    }
}

/// The identifier of a call, by its index where it has none.
pub open spec fn call_identity(call: (usize, CallView)) -> Seq<char> {
    if call.1.call_id.len() == 0 {
        numbered_call(call.0 as nat)
    } else {
        call.1.call_id
    }
}

/// An event as it is sent.
pub open spec fn event_bytes(value: JsonView) -> Seq<u8> {
    encode_utf8("data: "@ + rendered(value) + "\n\n"@)
}

/// An integer from 0 on.
pub open spec fn count_view(value: nat) -> JsonView {
    JsonView::Number(JsonNumber::Unsigned(value as u64))
}

/// The state of the conversion of a stream.
#[verifier::ext_equal]
pub struct ChatStreamView {
    pub buffer: Seq<u8>,
    pub pending: Seq<Seq<u8>>,
    pub pending_bytes: nat,
    pub max_frame_bytes: nat,
    pub max_pending_bytes: nat,
    pub max_retained_bytes: nat,
    pub retained_bytes: nat,
    pub overflowed: bool,
    pub stopped: bool,
    pub response_id: Seq<char>,
    pub model: Seq<char>,
    pub created_at: i64,
    pub text: Seq<char>,
    pub started: bool,
    pub completed: bool,
    pub terminal_seen: bool,
    pub usage: JsonView,
    pub provider_id: Seq<char>,
    pub tools: Seq<ToolView>,
    pub messages: Seq<JsonView>,
    pub calls: Seq<(usize, CallView)>,
    pub notices: Seq<NoticeView>,
}

/// The first output items of the calls of a stream.
pub open spec fn stream_call_items(
    calls: Seq<(usize, CallView)>,
    tools: Seq<ToolView>,
) -> Seq<JsonView> {
    Seq::new(
        calls.len(),
        |i: int|
            tool_call_item(
                call_identity(calls[i]),
                calls[i].1.name,
                calls[i].1.arguments,
                "completed"@,
                tools,
            ),
    )
}

/// The calls of a stream as the assistant made them.
pub open spec fn spoken_calls(calls: Seq<(usize, CallView)>) -> Seq<JsonView> {
    Seq::new(
        calls.len(),
        |i: int| function_call(call_identity(calls[i]), calls[i].1.name, calls[i].1.arguments),
    )
}

impl ChatStreamView {
    /// The calls that have a name.
    pub open spec fn named(self) -> Seq<(usize, CallView)> {
        named_calls(self.calls, self.calls.len() as int)
    }

    /// The message of the assistant, complete.
    pub open spec fn full_message(self) -> JsonView {
        message_item("completed"@, seq![output_text(self.text)])
    }

    /// The response while it is not complete.
    pub open spec fn partial_response(self, status: Seq<char>) -> JsonView {
        obj().entry("id"@, JsonView::Text(self.response_id)).entry(
            "object"@,
            JsonView::Text("response"@),
        ).entry("created_at"@, integer_view(self.created_at)).entry(
            "status"@,
            JsonView::Text(status),
        ).entry("model"@, JsonView::Text(self.model)).entry(
            "output"@,
            JsonView::Array(seq![]),
        ).entry("usage"@, JsonView::Null)
    }

    /// The response, complete.
    pub open spec fn full_response(self) -> JsonView {
        obj().entry("id"@, JsonView::Text(self.response_id)).entry(
            "object"@,
            JsonView::Text("response"@),
        ).entry("created_at"@, integer_view(self.created_at)).entry(
            "status"@,
            JsonView::Text("completed"@),
        ).entry("model"@, JsonView::Text(self.model)).entry(
            "output"@,
            JsonView::Array(
                seq![self.full_message()] + stream_call_items(self.named(), self.tools),
            ),
        ).entry("usage"@, self.usage)
    }

    /// What the identifier of a response without one follows from.
    pub open spec fn identity(self) -> JsonView {
        obj().entry("provider"@, JsonView::Text(self.provider_id)).entry(
            "model"@,
            JsonView::Text(self.model),
        ).entry("messages"@, JsonView::Array(self.messages))
    }

    /// An event is queued.
    pub open spec fn queued(self, value: JsonView) -> ChatStreamView {
        ChatStreamView {
            pending: self.pending.push(event_bytes(value)),
            pending_bytes: self.pending_bytes + event_bytes(value).len(),
            ..self
        }
    }

    /// What is kept of the output is dropped.
    pub open spec fn forgotten(self) -> ChatStreamView {
        ChatStreamView { text: seq![], calls: seq![], retained_bytes: 0, ..self }
    }

    /// The events that wait have reached their limit: they are dropped, and the
    /// stream fails. The failure itself is sent whatever the limit.
    pub open spec fn overflow(self) -> ChatStreamView
        decreases 1int, 0int,
    {
        let cleared = ChatStreamView {
            overflowed: true,
            buffer: seq![],
            stopped: true,
            pending: seq![],
            pending_bytes: 0,
            max_pending_bytes: usize::MAX as nat,
            completed: false,
            ..self.forgotten()
        };
        let failed = cleared.fail(
            "上游 Chat Completions 事件输出达到 "@ + byte_limit_text(self.max_pending_bytes)
                + " 本地排队上限"@,
            true,
        );
        ChatStreamView { max_pending_bytes: self.max_pending_bytes, ..failed }
    }

    /// An event is queued where there is room for it. Where there is none the
    /// stream fails, unless that is what it is doing.
    pub open spec fn emit(self, value: JsonView, failing: bool) -> (ChatStreamView, bool)
        decreases (if failing { 0int } else { 1int }), 1int,
    {
        if self.pending_bytes + event_bytes(value).len() <= self.max_pending_bytes {
            (self.queued(value), true)
        } else if failing {
            (self, false)
        } else {
            (self.overflow(), false)
        }
    }

    /// The stream has begun: the first events are queued, once.
    pub open spec fn start(self, failing: bool) -> (ChatStreamView, bool)
        decreases (if failing { 0int } else { 1int }), 2int,
    {
        if self.started {
            (self, !self.completed)
        } else {
            let begun = ChatStreamView {
                response_id: if self.response_id == "resp_codex_companion"@ {
                    stable_id(self.identity())
                } else {
                    self.response_id
                },
                started: true,
                ..self
            };
            let (first, first_sent) = begun.emit(
                obj().entry("type"@, JsonView::Text("response.created"@)).entry(
                    "response"@,
                    begun.partial_response("in_progress"@),
                ),
                failing,
            );
            if !first_sent {
                (first, false)
            } else {
                let (second, second_sent) = first.emit(
                    obj().entry("type"@, JsonView::Text("response.output_item.added"@)).entry(
                        "output_index"@,
                        count_view(0),
                    ).entry("item"@, message_item("in_progress"@, seq![])),
                    failing,
                );
                if !second_sent {
                    (second, false)
                } else {
                    second.emit(
                        obj().entry(
                            "type"@,
                            JsonView::Text("response.content_part.added"@),
                        ).entry("output_index"@, count_view(0)).entry(
                            "content_index"@,
                            count_view(0),
                        ).entry("part"@, output_text(seq![])),
                        failing,
                    )
                }
            }
        }
    }

    /// The stream fails, unless it has ended.
    pub open spec fn fail(self, detail: Seq<char>, failing: bool) -> ChatStreamView
        decreases (if failing { 0int } else { 1int }), 3int,
    {
        if self.completed {
            self
        } else {
            let (begun, open) = self.start(failing);
            if !open {
                begun
            } else {
                let ended = ChatStreamView { completed: true, ..begun };
                let (told, sent) = ended.emit(
                    obj().entry("type"@, JsonView::Text("response.failed"@)).entry(
                        "response"@,
                        ended.partial_response("failed"@).with(
                            "error"@,
                            obj().entry(
                                "code"@,
                                JsonView::Text("upstream_stream_incomplete"@),
                            ).entry("message"@, JsonView::Text(detail)),
                        ),
                    ),
                    failing,
                );
                if sent {
                    ChatStreamView {
                        notices: told.notices.push(NoticeView::Failed(detail)),
                        ..told
                    }
                } else {
                    told
                }
            }
        }
    }
}

/// An event about an output item.
pub open spec fn item_event(kind: Seq<char>, output_index: nat, item: JsonView) -> JsonView {
    obj().entry("type"@, JsonView::Text(kind)).entry("output_index"@, count_view(output_index)).entry(
        "item"@,
        item,
    )
}

/// An event about a text of an output item.
pub open spec fn call_event(
    kind: Seq<char>,
    item_id: Seq<char>,
    output_index: nat,
    field: Seq<char>,
    content: Seq<char>,
) -> JsonView {
    obj().entry("type"@, JsonView::Text(kind)).entry("item_id"@, JsonView::Text(item_id)).entry(
        "output_index"@,
        count_view(output_index),
    ).entry(field, JsonView::Text(content))
}

/// The events that tell of a call between its first and its last.
pub open spec fn argument_events(
    call: (usize, CallView),
    output_index: nat,
    tools: Seq<ToolView>,
) -> Seq<JsonView> {
    let custom = tool_named(tools, call.1.name) matches Some(tool) && tool.kind is Custom;
    if custom {
        let input = custom_input(call.1.arguments);
        let item_id = "ctc_"@ + call_identity(call);
        let done = call_event(
            "response.custom_tool_call_input.done"@,
            item_id,
            output_index,
            "input"@,
            input,
        );
        if input.len() == 0 {
            seq![].push(done)
        } else {
            seq![].push(
                call_event(
                    "response.custom_tool_call_input.delta"@,
                    item_id,
                    output_index,
                    "delta"@,
                    input,
                ),
            ).push(done)
        }
    } else {
        let item_id = "fc_"@ + call_identity(call);
        seq![].push(
            call_event(
                "response.function_call_arguments.delta"@,
                item_id,
                output_index,
                "delta"@,
                call.1.arguments,
            ),
        ).push(
            call_event(
                "response.function_call_arguments.done"@,
                item_id,
                output_index,
                "arguments"@,
                call.1.arguments,
            ),
        )
    }
}

/// The events that tell of a call: that it was added, its input, and that it is
/// done.
pub open spec fn call_events(
    call: (usize, CallView),
    output_index: nat,
    tools: Seq<ToolView>,
) -> Seq<JsonView> {
    let id = call_identity(call);
    (seq![].push(
        item_event(
            "response.output_item.added"@,
            output_index,
            tool_call_item(id, call.1.name, seq![], "in_progress"@, tools),
        ),
    ) + argument_events(call, output_index, tools)).push(
        item_event(
            "response.output_item.done"@,
            output_index,
            tool_call_item(id, call.1.name, call.1.arguments, "completed"@, tools),
        ),
    )
}

/// The events that tell of the first calls of a list.
pub open spec fn calls_events(
    calls: Seq<(usize, CallView)>,
    tools: Seq<ToolView>,
    count: int,
) -> Seq<JsonView>
    decreases count,
{
    if !(0 < count <= calls.len()) {
        seq![]
    } else {
        calls_events(calls, tools, count - 1) + call_events(
            calls[count - 1],
            count as nat,
            tools,
        )
    }
}

impl ChatStreamView {
    /// The first events of a list are queued, up to one for which there is no
    /// room.
    pub open spec fn emit_all(self, events: Seq<JsonView>, count: int) -> (ChatStreamView, bool)
        decreases count,
    {
        if !(0 < count <= events.len()) {
            (self, true)
        } else {
            let (before, sent) = self.emit_all(events, count - 1);
            if sent {
                before.emit(events[count - 1], before.overflowed)
            } else {
                (before, false)
            }
        }
    }

    /// The events that end a stream that was completed.
    pub open spec fn closing_events(self) -> Seq<JsonView> {
        let text_done = obj().entry("type"@, JsonView::Text("response.output_text.done"@)).entry(
            "output_index"@,
            count_view(0),
        ).entry("content_index"@, count_view(0)).entry("text"@, JsonView::Text(self.text));
        let part_done = obj().entry("type"@, JsonView::Text("response.content_part.done"@)).entry(
            "output_index"@,
            count_view(0),
        ).entry("content_index"@, count_view(0)).entry("part"@, output_text(self.text));
        let item_done = item_event("response.output_item.done"@, 0, self.full_message());
        (seq![].push(text_done).push(part_done).push(item_done) + calls_events(
            self.named(),
            self.tools,
            self.named().len() as int,
        )).push(
            obj().entry("type"@, JsonView::Text("response.completed"@)).entry(
                "response"@,
                self.full_response(),
            ),
        )
    }

    /// The conversation that the stream has ended.
    pub open spec fn conversation(self) -> EntryView {
        let plain = message(
            "assistant"@,
            if self.text.len() > 0 {
                JsonView::Text(self.text)
            } else {
                JsonView::Null
            },
        );
        let calls = spoken_calls(self.named());
        EntryView {
            messages: self.messages.push(
                if calls.len() > 0 {
                    plain.with("tool_calls"@, JsonView::Array(calls))
                } else {
                    plain
                },
            ),
            tools: self.tools,
        }
    }

    /// The stream is completed, unless it has ended.
    pub open spec fn finish(self) -> ChatStreamView {
        if self.completed {
            self
        } else {
            let (begun, open) = self.start(self.overflowed);
            if !open {
                begun
            } else {
                let events = begun.closing_events();
                let (told, sent) = begun.emit_all(events, events.len() as int);
                if sent {
                    ChatStreamView {
                        completed: true,
                        stopped: true,
                        notices: told.notices.push(
                            NoticeView::Completed {
                                response_id: told.response_id,
                                entry: told.conversation(),
                            },
                        ),
                        ..told
                    }
                } else {
                    told
                }
            }
        }
    }

    /// The output that is kept has reached its limit: it is dropped, and the
    /// stream fails.
    pub open spec fn retained_limit(self) -> ChatStreamView {
        (ChatStreamView { buffer: seq![], stopped: true, ..self }).forgotten().fail(
            "上游 Chat Completions 输出达到 "@ + byte_limit_text(self.max_retained_bytes)
                + " 本地转换上限"@,
            self.overflowed,
        )
    }

    /// An event block has reached its limit: the stream fails.
    #[verifier::opaque]
    pub open spec fn oversized(self) -> ChatStreamView {
        (ChatStreamView { buffer: seq![], stopped: true, ..self }).fail(
            "上游 SSE 单帧达到 "@ + byte_limit_text(self.max_frame_bytes) + " 本地转换上限"@,
            self.overflowed,
        )
    }

    /// Room for more output is taken, where there is enough of it.
    pub open spec fn reserve(self, additional: nat) -> (ChatStreamView, bool) {
        if self.retained_bytes + additional > self.max_retained_bytes {
            (self.retained_limit(), false)
        } else {
            (ChatStreamView { retained_bytes: self.retained_bytes + additional, ..self }, true)
        }
    }

    /// A piece of text has arrived.
    pub open spec fn with_delta(self, content: Seq<char>) -> (ChatStreamView, bool) {
        let (begun, open) = self.start(self.overflowed);
        if !open {
            (begun, false)
        } else {
            let (room, reserved) = begun.reserve(encode_utf8(content).len());
            if !reserved {
                (room, false)
            } else {
                (ChatStreamView { text: room.text + content, ..room }).emit(
                    obj().entry("type"@, JsonView::Text("response.output_text.delta"@)).entry(
                        "output_index"@,
                        count_view(0),
                    ).entry("content_index"@, count_view(0)).entry(
                        "delta"@,
                        JsonView::Text(content),
                    ),
                    room.overflowed,
                )
            }
        }
    }

    /// A piece of the call of an index has arrived.
    pub open spec fn with_piece(
        self,
        index: usize,
        call_id: Option<Seq<char>>,
        name: Option<Seq<char>>,
        arguments: Option<Seq<char>>,
    ) -> (ChatStreamView, bool) {
        let existing = call_at(self.calls, index);
        let before = match existing {
            Some(call) => call,
            None => CallView::empty(),
        };
        let after = before.merged(call_id, name, arguments);
        let kept = if self.retained_bytes >= before.bytes() {
            (self.retained_bytes - before.bytes()) as nat
        } else {
            0
        };
        let total = kept + after.bytes();
        if (existing is None && self.calls.len() >= MAX_CHAT_SSE_TOOL_CALLS) || total
            > self.max_retained_bytes {
            (self.retained_limit(), false)
        } else {
            (
                ChatStreamView {
                    calls: with_call_at(self.calls, index, after),
                    retained_bytes: total,
                    ..self
                },
                true,
            )
        }
    }

    /// The index of the call that a piece belongs to; one behind the others
    /// where it names none.
    pub open spec fn piece_index(self, tool_call: JsonView) -> usize {
        match tool_call.get("index"@) {
            Some(value) => match value.unsigned() {
                Some(index) => if index <= usize::MAX {
                    index as usize
                } else {
                    self.calls.len() as usize
                },
                None => self.calls.len() as usize,
            },
            None => self.calls.len() as usize,
        }
    }

    /// A piece of a tool call has arrived.
    pub open spec fn with_call_delta(self, tool_call: JsonView) -> (ChatStreamView, bool) {
        let function = tool_call.get("function"@);
        let call_id = nonempty_text(tool_call.get_text("id"@));
        let name = nonempty_text(text_in(at(function, "name"@)));
        let arguments = text_in(at(function, "arguments"@));
        if call_id is None && name is None && arguments is None {
            (self, true)
        } else {
            self.with_piece(self.piece_index(tool_call), call_id, name, arguments)
        }
    }

    /// The first pieces of tool calls of a list have arrived.
    pub open spec fn with_call_deltas(self, calls: Seq<JsonView>, count: int) -> (
        ChatStreamView,
        bool,
    )
        decreases count,
    {
        if !(0 < count <= calls.len()) {
            (self, true)
        } else {
            let (before, open) = self.with_call_deltas(calls, count - 1);
            if open {
                before.with_call_delta(calls[count - 1])
            } else {
                (before, false)
            }
        }
    }

    /// What an event says of the response as a whole is taken over.
    pub open spec fn with_head(self, value: JsonView) -> ChatStreamView {
        ChatStreamView {
            response_id: match value.get_text("id"@) {
                Some(id) => response_id(id),
                None => self.response_id,
            },
            model: match value.get_text("model"@) {
                Some(model) => model,
                None => self.model,
            },
            created_at: match value.get("created"@) {
                Some(created) => match created.signed() {
                    Some(created) => created,
                    None => self.created_at,
                },
                None => self.created_at,
            },
            usage: match value.get("usage"@) {
                Some(usage) => if usage is Null {
                    self.usage
                } else {
                    response_usage(Some(usage))
                },
                None => self.usage,
            },
            terminal_seen: self.terminal_seen || (at(listed_choice(value), "finish_reason"@) matches Some(
                reason,
            ) && reason !is Null),
            ..self
        }
    }

    /// An event has arrived.
    pub open spec fn with_event(self, value: JsonView) -> ChatStreamView {
        let head = self.with_head(value);
        let delta = at(listed_choice(value), "delta"@);
        let (said, open) = match nonempty_text(text_in(at(delta, "content"@))) {
            Some(content) => head.with_delta(content),
            None => (head, true),
        };
        match items_in(at(delta, "tool_calls"@)) {
            Some(calls) => if open {
                said.with_call_deltas(calls, calls.len() as int).0
            } else {
                said
            },
            None => said,
        }
    }

    /// An event block has arrived. Once the stream has ended it is ignored.
    #[verifier::opaque]
    pub open spec fn with_block(self, block: Seq<char>) -> ChatStreamView {
        let data = event_data(block, false);
        if self.completed || data.len() == 0 {
            self
        } else if trim(data) == "[DONE]"@ {
            (ChatStreamView { terminal_seen: true, ..self }).finish()
        } else {
            match parsed_json(encode_utf8(data)) {
                Ok(value) => self.with_event(value),
                Err(_) => self,
            }
        }
    }
}

/// The text, where there is one and it is not empty.
pub open spec fn nonempty_text(value: Option<Seq<char>>) -> Option<Seq<char>> {
    match value {
        Some(text) => if text.len() > 0 {
            Some(text)
        } else {
            None
        },
        None => None,
    }
}

/// Whether the second state holds back what the first does, or nothing, under
/// the same limit, and has ended if the first has.
pub open spec fn same_or_no_buffer(before: ChatStreamView, after: ChatStreamView) -> bool {
    &&& after.buffer == before.buffer || after.buffer.len() == 0
    &&& after.max_frame_bytes == before.max_frame_bytes
    &&& before.stopped ==> after.stopped
}

/// How many bytes a list of byte strings holds.
pub open spec fn total_bytes(list: Seq<Seq<u8>>) -> nat
    decreases list.len(),
{
    if list.len() == 0 {
        0
    } else {
        total_bytes(list.drop_last()) + list.last().len()
    }
}

/// How many bytes are kept of a list of calls.
pub open spec fn calls_bytes(calls: Seq<(usize, CallView)>) -> nat
    decreases calls.len(),
{
    if calls.len() == 0 {
        0
    } else {
        calls[0].1.bytes() + calls_bytes(calls.drop_first())
    }
}

/// Indices come in ascending order, each once.
pub open spec fn ascending(calls: Seq<(usize, CallView)>) -> bool {
    forall|i: int, j: int| 0 <= i < j < calls.len() ==> (#[trigger] calls[i]).0 < (
    #[trigger] calls[j]).0
}

impl ChatStreamView {
    /// The accounts are right and the limits are kept: the bytes that wait and
    /// the bytes that are kept are counted, and neither exceeds its limit, but
    /// for the failure that is sent when the events that wait had reached
    /// theirs; there are not too many calls, in the order of their indices.
    pub open spec fn accounted(self) -> bool {
        &&& self.pending_bytes == total_bytes(self.pending)
        &&& self.overflowed || self.pending_bytes <= self.max_pending_bytes
        &&& self.retained_bytes == encode_utf8(self.text).len() + calls_bytes(self.calls)
        &&& self.retained_bytes <= self.max_retained_bytes
        &&& self.calls.len() <= MAX_CHAT_SSE_TOOL_CALLS
        &&& ascending(self.calls)
    }

    /// The end of the stream has been told at most once, and only when it has
    /// ended; a stream that has ended has begun.
    pub open spec fn told_once(self) -> bool {
        &&& self.notices.len() == 0 || (self.notices.len() == 1 && self.completed)
        &&& self.completed ==> self.started
    }

    /// Nothing is kept of the output.
    pub open spec fn dropped(self) -> bool {
        self.text.len() == 0 && self.calls.len() == 0 && self.retained_bytes == 0
    }

    /// What holds of the conversion of a stream at any time.
    pub open spec fn well_formed(self) -> bool {
        self.accounted() && self.told_once()
    }
}

proof fn lemma_emit(state: ChatStreamView, value: JsonView, failing: bool)
    ensures
        ({
            let (after, sent) = state.emit(value, failing);
            &&& same_or_no_buffer(state, after)
            &&& state.accounted() ==> after.accounted()
            &&& state.notices.len() == 0 && state.told_once() ==> after.told_once()
            &&& state.dropped() ==> after.dropped()
            &&& sent ==> after == state.queued(value)
            &&& failing ==> after.buffer == state.buffer && after.notices == state.notices
        }),
    decreases (if failing { 0int } else { 1int }), 1int,
{
    assert(state.pending.push(event_bytes(value)).drop_last() =~= state.pending);
    if !failing {
        let cleared = ChatStreamView {
            overflowed: true,
            buffer: seq![],
            stopped: true,
            pending: seq![],
            pending_bytes: 0,
            max_pending_bytes: usize::MAX as nat,
            completed: false,
            ..state.forgotten()
        };
        lemma_fail(
            cleared,
            "上游 Chat Completions 事件输出达到 "@ + byte_limit_text(state.max_pending_bytes)
                + " 本地排队上限"@,
            true,
        );
    }
}

proof fn lemma_start(state: ChatStreamView, failing: bool)
    ensures
        ({
            let (after, open) = state.start(failing);
            &&& same_or_no_buffer(state, after)
            &&& state.accounted() ==> after.accounted()
            &&& state.notices.len() == 0 && state.told_once() ==> after.told_once()
            &&& state.dropped() ==> after.dropped()
            &&& open ==> after.notices == state.notices && !after.completed == !state.completed
            &&& open ==> after.started
            &&& failing ==> after.buffer == state.buffer && after.notices == state.notices
        }),
    decreases (if failing { 0int } else { 1int }), 2int,
{
    if !state.started {
        let begun = ChatStreamView {
            response_id: if state.response_id == "resp_codex_companion"@ {
                stable_id(state.identity())
            } else {
                state.response_id
            },
            started: true,
            ..state
        };
        let created = obj().entry("type"@, JsonView::Text("response.created"@)).entry(
            "response"@,
            begun.partial_response("in_progress"@),
        );
        let added = obj().entry("type"@, JsonView::Text("response.output_item.added"@)).entry(
            "output_index"@,
            count_view(0),
        ).entry("item"@, message_item("in_progress"@, seq![]));
        let part = obj().entry("type"@, JsonView::Text("response.content_part.added"@)).entry(
            "output_index"@,
            count_view(0),
        ).entry("content_index"@, count_view(0)).entry("part"@, output_text(seq![]));
        lemma_emit(begun, created, failing);
        let first = begun.emit(created, failing).0;
        lemma_emit(first, added, failing);
        let second = first.emit(added, failing).0;
        lemma_emit(second, part, failing);
    }
}

proof fn lemma_fail(state: ChatStreamView, detail: Seq<char>, failing: bool)
    ensures
        ({
            let after = state.fail(detail, failing);
            &&& same_or_no_buffer(state, after)
            &&& state.accounted() ==> after.accounted()
            &&& state.told_once() ==> after.told_once()
            &&& state.dropped() ==> after.dropped()
            &&& failing ==> after.buffer == state.buffer
        }),
    decreases (if failing { 0int } else { 1int }), 3int,
{
    if !state.completed {
        lemma_start(state, failing);
        let ended = ChatStreamView { completed: true, ..state.start(failing).0 };
        lemma_emit(
            ended,
            obj().entry("type"@, JsonView::Text("response.failed"@)).entry(
                "response"@,
                ended.partial_response("failed"@).with(
                    "error"@,
                    obj().entry("code"@, JsonView::Text("upstream_stream_incomplete"@)).entry(
                        "message"@,
                        JsonView::Text(detail),
                    ),
                ),
            ),
            failing,
        );
    }
}

proof fn lemma_emit_all(state: ChatStreamView, events: Seq<JsonView>, count: int)
    ensures
        ({
            let (after, sent) = state.emit_all(events, count);
            &&& same_or_no_buffer(state, after)
            &&& state.accounted() ==> after.accounted()
            &&& state.notices.len() == 0 && state.told_once() ==> after.told_once()
            &&& sent ==> after.started == state.started
            &&& sent ==> after.notices == state.notices
        }),
    decreases count,
{
    if 0 < count <= events.len() {
        lemma_emit_all(state, events, count - 1);
        let before = state.emit_all(events, count - 1).0;
        lemma_emit(before, events[count - 1], before.overflowed);
    }
}

proof fn lemma_finish(state: ChatStreamView)
    ensures
        same_or_no_buffer(state, state.finish()),
        state.accounted() ==> state.finish().accounted(),
        state.told_once() ==> state.finish().told_once(),
{
    lemma_start(state, state.overflowed);
    let begun = state.start(state.overflowed).0;
    let events = begun.closing_events();
    lemma_emit_all(begun, events, events.len() as int);
}

proof fn lemma_retained_limit(state: ChatStreamView)
    ensures
        state.retained_limit().buffer.len() == 0,
        state.retained_limit().stopped,
        state.retained_limit().max_frame_bytes == state.max_frame_bytes,
        state.retained_limit().dropped(),
        state.accounted() ==> state.retained_limit().accounted(),
        state.told_once() ==> state.retained_limit().told_once(),
{
    lemma_fail(
        (ChatStreamView { buffer: seq![], stopped: true, ..state }).forgotten(),
        "上游 Chat Completions 输出达到 "@ + byte_limit_text(state.max_retained_bytes)
            + " 本地转换上限"@,
        state.overflowed,
    );
}

proof fn lemma_oversized(state: ChatStreamView)
    ensures
        state.oversized().buffer.len() == 0,
        state.oversized().stopped,
        state.oversized().max_frame_bytes == state.max_frame_bytes,
        state.accounted() ==> state.oversized().accounted(),
        state.told_once() ==> state.oversized().told_once(),
{
    reveal(ChatStreamView::oversized);
    lemma_fail(
        ChatStreamView { buffer: seq![], stopped: true, ..state },
        "上游 SSE 单帧达到 "@ + byte_limit_text(state.max_frame_bytes) + " 本地转换上限"@,
        state.overflowed,
    );
}

proof fn lemma_with_delta(state: ChatStreamView, content: Seq<char>)
    ensures
        ({
            let (after, open) = state.with_delta(content);
            &&& same_or_no_buffer(state, after)
            &&& state.accounted() ==> after.accounted()
            &&& state.told_once() ==> after.told_once()
            &&& open ==> after.notices == state.notices
        }),
{
    lemma_start(state, state.overflowed);
    let begun = state.start(state.overflowed).0;
    lemma_retained_limit(begun);
    lemma_encode_concat(begun.text, content);
    let room = begun.reserve(encode_utf8(content).len()).0;
    lemma_emit(
        ChatStreamView { text: room.text + content, ..room },
        obj().entry("type"@, JsonView::Text("response.output_text.delta"@)).entry(
            "output_index"@,
            count_view(0),
        ).entry("content_index"@, count_view(0)).entry("delta"@, JsonView::Text(content)),
        room.overflowed,
    );
}

/// Setting a call keeps the order of indices, and the bytes kept are those of
/// the other calls and of this one.
proof fn lemma_with_call_at(calls: Seq<(usize, CallView)>, index: usize, call: CallView)
    requires
        ascending(calls),
    ensures
        ascending(with_call_at(calls, index, call)),
        calls_bytes(with_call_at(calls, index, call)) + (match call_at(calls, index) {
            Some(before) => before.bytes(),
            None => 0,
        }) == calls_bytes(calls) + call.bytes(),
        call_at(calls, index) matches Some(before) ==> before.bytes() <= calls_bytes(calls),
        with_call_at(calls, index, call).len() == calls.len() + if call_at(calls, index) is Some {
            0int
        } else {
            1int
        },
        with_call_at(calls, index, call).len() > 0,
        with_call_at(calls, index, call)[0].0 == if calls.len() > 0 && calls[0].0 < index {
            calls[0].0
        } else {
            index
        },
    decreases calls.len(),
{
    let after = with_call_at(calls, index, call);
    if calls.len() == 0 {
        assert(after.drop_first() =~= seq![]);
        reveal_with_fuel(calls_bytes, 2);
    } else {
        let rest = calls.drop_first();
        assert forall|i: int, j: int| 0 <= i < j < rest.len() implies (#[trigger] rest[i]).0 < (
        #[trigger] rest[j]).0 by {
            assert(rest[i] == calls[i + 1] && rest[j] == calls[j + 1]);
        }
        if calls[0].0 == index {
            assert(after.drop_first() =~= rest);
        } else if index < calls[0].0 {
            assert(after.drop_first() =~= calls);
            lemma_smaller_absent(calls, index);
        } else {
            lemma_with_call_at(rest, index, call);
            let later = with_call_at(rest, index, call);
            assert(after.drop_first() =~= later);
            assert forall|i: int, j: int| 0 <= i < j < after.len() implies (#[trigger] after[i]).0
                < (#[trigger] after[j]).0 by {
                assert(after[j] == later[j - 1]);
                if i > 0 {
                    assert(after[i] == later[i - 1]);
                } else {
                    if rest.len() > 0 {
                        assert(calls[0].0 < calls[1].0);
                    }
                    if j > 1 {
                        assert(later[0].0 < later[j - 1].0);
                    }
                }
            }
        }
    }
}

/// An index below all others is not there.
proof fn lemma_smaller_absent(calls: Seq<(usize, CallView)>, index: usize)
    requires
        ascending(calls),
        calls.len() > 0 ==> index < calls[0].0,
    ensures
        call_at(calls, index) is None,
    decreases calls.len(),
{
    if calls.len() > 0 {
        let rest = calls.drop_first();
        assert forall|i: int, j: int| 0 <= i < j < rest.len() implies (#[trigger] rest[i]).0 < (
        #[trigger] rest[j]).0 by {
            assert(rest[i] == calls[i + 1] && rest[j] == calls[j + 1]);
        }
        if rest.len() > 0 {
            assert(calls[0].0 < calls[1].0);
        }
        lemma_smaller_absent(rest, index);
    }
}

proof fn lemma_with_piece(
    state: ChatStreamView,
    index: usize,
    call_id: Option<Seq<char>>,
    name: Option<Seq<char>>,
    arguments: Option<Seq<char>>,
)
    ensures
        ({
            let (after, open) = state.with_piece(index, call_id, name, arguments);
            &&& same_or_no_buffer(state, after)
            &&& state.accounted() ==> after.accounted()
            &&& state.told_once() ==> after.told_once()
            &&& open ==> after.notices == state.notices
        }),
{
    lemma_retained_limit(state);
    let before = match call_at(state.calls, index) {
        Some(call) => call,
        None => CallView::empty(),
    };
    assert(encode_utf8(Seq::<char>::empty()).len() == 0);
    if state.accounted() {
        lemma_with_call_at(state.calls, index, before.merged(call_id, name, arguments));
    }
}

/// The call of an index is the one that was set for it.
proof fn lemma_call_set(
    calls: Seq<(usize, CallView)>,
    index: usize,
    call: CallView,
    other: usize,
)
    requires
        ascending(calls),
    ensures
        call_at(with_call_at(calls, index, call), other) == (if other == index {
            Some(call)
        } else {
            call_at(calls, other)
        }),
    decreases calls.len(),
{
    let after = with_call_at(calls, index, call);
    if calls.len() == 0 {
        assert(after.drop_first() =~= seq![]);
        reveal_with_fuel(call_at, 2);
    } else {
        let rest = calls.drop_first();
        assert forall|i: int, j: int| 0 <= i < j < rest.len() implies (#[trigger] rest[i]).0 < (
        #[trigger] rest[j]).0 by {
            assert(rest[i] == calls[i + 1] && rest[j] == calls[j + 1]);
        }
        if calls[0].0 == index {
            assert(after.drop_first() =~= rest);
        } else if index < calls[0].0 {
            assert(after.drop_first() =~= calls);
        } else {
            lemma_call_set(rest, index, call, other);
            assert(after.drop_first() =~= with_call_at(rest, index, call));
        }
    }
}

/// A piece of a tool call goes to the call of its index: its arguments go behind
/// those that are there, and an identifier or a name that is missing or empty
/// leaves the one that is there. The other calls and the text stay as they are.
/// A piece that is too much has all that is kept of the output dropped and ends
/// the stream. The limits are kept either way.
pub proof fn law_pieces_of_calls_are_merged(state: ChatStreamView, tool_call: JsonView)
    requires
        state.accounted(),
    ensures
        ({
            let (after, open) = state.with_call_delta(tool_call);
            let index = state.piece_index(tool_call);
            let function = tool_call.get("function"@);
            let before = match call_at(state.calls, index) {
                Some(call) => call,
                None => CallView::empty(),
            };
            &&& after.accounted()
            &&& after.calls.len() <= MAX_CHAT_SSE_TOOL_CALLS
            &&& after.retained_bytes <= after.max_retained_bytes
            &&& !open ==> after.dropped() && after.stopped && after.buffer.len() == 0
            &&& open ==> after.text == state.text && after.pending == state.pending
            &&& open && (nonempty_text(tool_call.get_text("id"@)) is Some || nonempty_text(
                text_in(at(function, "name"@)),
            ) is Some || text_in(at(function, "arguments"@)) is Some) ==> call_at(
                after.calls,
                index,
            ) is Some
            &&& open ==> (call_at(after.calls, index) matches Some(call) ==> {
                &&& call.call_id == (match tool_call.get_text("id"@) {
                    Some(id) => if id.len() > 0 {
                        id
                    } else {
                        before.call_id
                    },
                    None => before.call_id,
                })
                &&& call.name == (match text_in(at(function, "name"@)) {
                    Some(name) => if name.len() > 0 {
                        name
                    } else {
                        before.name
                    },
                    None => before.name,
                })
                &&& call.arguments == before.arguments + (match text_in(
                    at(function, "arguments"@),
                ) {
                    Some(arguments) => arguments,
                    None => seq![],
                })
            })
            &&& open ==> forall|other: usize|
                other != index ==> #[trigger] call_at(after.calls, other) == call_at(
                    state.calls,
                    other,
                )
        }),
{
    let function = tool_call.get("function"@);
    let index = state.piece_index(tool_call);
    let call_id = nonempty_text(tool_call.get_text("id"@));
    let name = nonempty_text(text_in(at(function, "name"@)));
    let arguments = text_in(at(function, "arguments"@));
    let before = match call_at(state.calls, index) {
        Some(call) => call,
        None => CallView::empty(),
    };
    lemma_with_piece(state, index, call_id, name, arguments);
    lemma_retained_limit(state);
    let merged = before.merged(call_id, name, arguments);
    assert(before.arguments + Seq::<char>::empty() =~= before.arguments);
    lemma_call_set(state.calls, index, merged, index);
    assert forall|other: usize| other != index implies #[trigger] call_at(
        with_call_at(state.calls, index, merged),
        other,
    ) == call_at(state.calls, other) by {
        lemma_call_set(state.calls, index, merged, other);
    }
}

proof fn lemma_call_deltas(state: ChatStreamView, calls: Seq<JsonView>, count: int)
    ensures
        ({
            let (after, open) = state.with_call_deltas(calls, count);
            &&& same_or_no_buffer(state, after)
            &&& state.accounted() ==> after.accounted()
            &&& state.told_once() ==> after.told_once()
            &&& open ==> after.notices == state.notices
        }),
    decreases count,
{
    if 0 < count <= calls.len() {
        lemma_call_deltas(state, calls, count - 1);
        let before = state.with_call_deltas(calls, count - 1).0;
        let tool_call = calls[count - 1];
        let function = tool_call.get("function"@);
        lemma_with_piece(
            before,
            before.piece_index(tool_call),
            nonempty_text(tool_call.get_text("id"@)),
            nonempty_text(text_in(at(function, "name"@))),
            text_in(at(function, "arguments"@)),
        );
    }
}

proof fn lemma_with_event(state: ChatStreamView, value: JsonView)
    ensures
        same_or_no_buffer(state, state.with_event(value)),
        state.accounted() ==> state.with_event(value).accounted(),
        state.told_once() ==> state.with_event(value).told_once(),
{
    let head = state.with_head(value);
    let delta = at(listed_choice(value), "delta"@);
    let content = nonempty_text(text_in(at(delta, "content"@)));
    if content is Some {
        lemma_with_delta(head, content->0);
    }
    let said = match content {
        Some(content) => head.with_delta(content).0,
        None => head,
    };
    if items_in(at(delta, "tool_calls"@)) is Some {
        let calls = items_in(at(delta, "tool_calls"@))->0;
        lemma_call_deltas(said, calls, calls.len() as int);
    }
}

/// An event block leaves what is held back as it is, or clears it; the accounts
/// stay right, and the end is told at most once.
pub proof fn law_blocks_keep_the_stream_well_formed(state: ChatStreamView, block: Seq<char>)
    ensures
        same_or_no_buffer(state, state.with_block(block)),
        state.well_formed() ==> state.with_block(block).well_formed(),
{
    reveal(ChatStreamView::with_block);
    lemma_finish(ChatStreamView { terminal_seen: true, ..state });
    let data = event_data(block, false);
    if parsed_json(encode_utf8(data)) is Ok {
        lemma_with_event(state, parsed_json(encode_utf8(data))->Ok_0);
    }
}

impl ChatStreamView {
    /// The event blocks that are held back in full are taken out and followed.
    pub open spec fn drain(self, end_of_stream: bool) -> ChatStreamView
        decreases self.buffer.len(),
    {
        match first_boundary(self.buffer, end_of_stream) {
            Some((end, drained)) => if end >= self.max_frame_bytes {
                self.oversized()
            } else {
                let rest = ChatStreamView { buffer: self.buffer.skip(drained), ..self };
                let block = utf8_lossy(self.buffer.take(end));
                proof {
                    lemma_boundary_bounds(self.buffer, 0, end_of_stream);
                    law_blocks_keep_the_stream_well_formed(rest, block);
                }
                rest.with_block(block).drain(end_of_stream)
            },
            None => if self.buffer.len() >= self.max_frame_bytes {
                self.oversized()
            } else {
                self
            },
        }
    }

    /// Bytes have arrived, as long as the stream goes on.
    pub open spec fn push(self, chunk: Seq<u8>) -> ChatStreamView
        decreases chunk.len(),
    {
        let room = self.max_frame_bytes - self.buffer.len();
        if self.stopped || chunk.len() == 0 {
            self
        } else if room <= 0 {
            self.oversized()
        } else {
            let taken = if room <= chunk.len() {
                room
            } else {
                chunk.len() as int
            };
            (ChatStreamView { buffer: self.buffer + chunk.take(taken), ..self }).drain(false).push(
                chunk.skip(taken),
            )
        }
    }

    /// The upstream stream has ended. Without a sign that it was complete that
    /// is a failure.
    pub open spec fn end(self) -> ChatStreamView {
        let drained = self.drain(true);
        let last = if drained.buffer.len() > 0 {
            (ChatStreamView { buffer: seq![], ..drained }).with_block(utf8_lossy(drained.buffer))
        } else {
            drained
        };
        if self.stopped {
            self
        } else if drained.stopped {
            drained
        } else if last.completed {
            last
        } else if last.terminal_seen {
            last.finish()
        } else {
            last.fail("上游流在完成事件前中断"@, last.overflowed)
        }
    }
}

/// What a list of byte strings holds.
pub open spec fn byte_lists(list: Seq<Vec<u8>>) -> Seq<Seq<u8>> {
    Seq::new(list.len(), |i: int| list[i]@)
}

/// What a list of calls holds.
pub open spec fn call_views(calls: Seq<(usize, ChatToolCallState)>) -> Seq<(usize, CallView)> {
    Seq::new(calls.len(), |i: int| (calls[i].0, calls[i].1@))
}

/// What a list of notices says.
pub open spec fn notice_views(notices: Seq<ChatStreamNotice>) -> Seq<NoticeView> {
    Seq::new(notices.len(), |i: int| notices[i]@)
}

/// The conversion of a stream.
#[derive(Debug)]
pub struct ChatSseTransformState {
    buffer: Vec<u8>,
    pending: VecDeque<Vec<u8>>,
    pending_bytes: usize,
    max_frame_bytes: usize,
    max_pending_bytes: usize,
    max_retained_output_bytes: usize,
    retained_output_bytes: usize,
    pending_overflowed: bool,
    stop_upstream: bool,
    response_id: String,
    model: String,
    created_at: i64,
    text: String,
    started: bool,
    completed: bool,
    saw_terminal_signal: bool,
    latest_usage: Json,
    provider_id: String,
    tool_context: ChatToolContext,
    chat_messages: Vec<Json>,
    tools: Vec<(usize, ChatToolCallState)>,
    notices: Vec<ChatStreamNotice>,
}

impl View for ChatSseTransformState {
    type V = ChatStreamView;

    closed spec fn view(&self) -> ChatStreamView {
        ChatStreamView {
            buffer: self.buffer@,
            pending: byte_lists(self.pending@),
            pending_bytes: self.pending_bytes as nat,
            max_frame_bytes: self.max_frame_bytes as nat,
            max_pending_bytes: self.max_pending_bytes as nat,
            max_retained_bytes: self.max_retained_output_bytes as nat,
            retained_bytes: self.retained_output_bytes as nat,
            overflowed: self.pending_overflowed,
            stopped: self.stop_upstream,
            response_id: self.response_id@,
            model: self.model@,
            created_at: self.created_at,
            text: self.text@,
            started: self.started,
            completed: self.completed,
            terminal_seen: self.saw_terminal_signal,
            usage: self.latest_usage@,
            provider_id: self.provider_id@,
            tools: self.tool_context@,
            messages: views(self.chat_messages@),
            calls: call_views(self.tools@),
            notices: notice_views(self.notices@),
        }
    }
}

/// The state before anything has arrived.
pub open spec fn initial_stream(
    provider_id: Seq<char>,
    tools: Seq<ToolView>,
    messages: Seq<JsonView>,
    now: i64,
) -> ChatStreamView {
    ChatStreamView {
        buffer: seq![],
        pending: seq![],
        pending_bytes: 0,
        max_frame_bytes: MAX_SSE_FRAME_BYTES as nat,
        max_pending_bytes: MAX_CHAT_SSE_PENDING_OUTPUT_BYTES as nat,
        max_retained_bytes: MAX_CHAT_SSE_RETAINED_OUTPUT_BYTES as nat,
        retained_bytes: 0,
        overflowed: false,
        stopped: false,
        response_id: "resp_codex_companion"@,
        model: seq![],
        created_at: now,
        text: seq![],
        started: false,
        completed: false,
        terminal_seen: false,
        usage: JsonView::Null,
        provider_id,
        tools,
        messages,
        calls: seq![],
        notices: seq![],
    }
}

impl ChatSseTransformState {
    /// The state before anything has arrived, at a given time.
    pub fn new_at(
        provider_id: String,
        tool_context: ChatToolContext,
        chat_messages: Vec<Json>,
        now: i64,
    ) -> (state: Self)
        ensures
            state@ == initial_stream(provider_id@, tool_context@, views(chat_messages@), now),
    {
        let state = ChatSseTransformState {
            buffer: Vec::new(),
            pending: VecDeque::new(),
            pending_bytes: 0,
            max_frame_bytes: MAX_SSE_FRAME_BYTES,
            max_pending_bytes: MAX_CHAT_SSE_PENDING_OUTPUT_BYTES,
            max_retained_output_bytes: MAX_CHAT_SSE_RETAINED_OUTPUT_BYTES,
            retained_output_bytes: 0,
            pending_overflowed: false,
            stop_upstream: false,
            response_id: "resp_codex_companion".to_owned(),
            model: String::new(),
            created_at: now,
            text: String::new(),
            started: false,
            completed: false,
            saw_terminal_signal: false,
            latest_usage: Json::Null,
            provider_id,
            tool_context,
            chat_messages,
            tools: Vec::new(),
            notices: Vec::new(),
        };
        assert(state@.pending =~= seq![]);
        assert(state@.calls =~= seq![]);
        assert(state@.notices =~= seq![]);
        state
    }

    /// The state before anything has arrived, at the present time.
    pub fn new(provider_id: String, tool_context: ChatToolContext, chat_messages: Vec<Json>) -> (state:
        Self)
        ensures
            exists|now: i64|
                state@ == #[trigger] initial_stream(
                    provider_id@,
                    tool_context@,
                    views(chat_messages@),
                    now,
                ),
    {
        let now: i64 = unix_now();
        ChatSseTransformState::new_at(provider_id, tool_context, chat_messages, now)
    }

    /// The state with another limit for event blocks.
    pub fn with_frame_limit(self, max_frame_bytes: usize) -> (state: Self)
        ensures
            state@ == (ChatStreamView { max_frame_bytes: max_frame_bytes as nat, ..self@ }),
    {
        ChatSseTransformState { max_frame_bytes, ..self }
    }

    /// The state with another limit for the output that is kept.
    pub fn with_retained_output_limit(self, max_retained_output_bytes: usize) -> (state: Self)
        ensures
            state@ == (ChatStreamView {
                max_retained_bytes: max_retained_output_bytes as nat,
                ..self@
            }),
    {
        ChatSseTransformState { max_retained_output_bytes, ..self }
    }

    /// The state with another limit for the events that wait.
    pub fn with_pending_limit(self, max_pending_bytes: usize) -> (state: Self)
        ensures
            state@ == (ChatStreamView { max_pending_bytes: max_pending_bytes as nat, ..self@ }),
    {
        ChatSseTransformState { max_pending_bytes, ..self }
    }
}

impl ChatSseTransformState {
    fn partial_response_object(&self, status: &str) -> (response: Json)
        ensures
            response@ == self@.partial_response(status@),
    {
        object().entry("id", text(&self.response_id)).entry("object", text("response")).entry(
            "created_at",
            integer(self.created_at),
        ).entry("status", text(status)).entry("model", text(&self.model)).entry(
            "output",
            no_items(),
        ).entry("usage", Json::Null)
    }

    fn push_notice(&mut self, notice: ChatStreamNotice)
        ensures
            final(self)@ == (ChatStreamView {
                notices: old(self)@.notices.push(notice@),
                ..old(self)@
            }),
    {
        let ghost added = notice@;
        self.notices.push(notice);
        assert(self@.notices =~= old(self)@.notices.push(added));
    }

    fn clear_retained_output(&mut self)
        ensures
            final(self)@ == old(self)@.forgotten(),
    {
        self.text = String::new();
        self.tools = Vec::new();
        self.retained_output_bytes = 0;
        assert(self@.text =~= seq![]);
        assert(self@.calls =~= seq![]);
    }

    /// Queues an event where there is room for it; else the stream fails.
    fn emit(&mut self, value: &Json) -> (sent: bool)
        ensures
            (final(self)@, sent) == old(self)@.emit(value@, old(self)@.overflowed),
            sent ==> final(self)@ == old(self)@.queued(value@),
        decreases (if old(self)@.overflowed { 0int } else { 1int }), 1int,
    {
        let line = concat3("data: ", &render_json(value), "\n\n");
        let bytes = vstd::slice::slice_to_vec(line.as_str().as_bytes());
        let total = self.pending_bytes.checked_add(bytes.len());
        match total {
            Some(total) => {
                if total <= self.max_pending_bytes {
                    let ghost added = bytes@;
                    self.pending_bytes = total;
                    self.pending.push_back(bytes);
                    assert(self@.pending =~= old(self)@.pending.push(added));
                    return true;
                }
            },
            None => {},
        }
        self.fail_pending_output_limit();
        false
    }

    /// Drops the events that wait, and ends the stream with a failure.
    fn fail_pending_output_limit(&mut self)
        ensures
            final(self)@ == if old(self)@.overflowed {
                old(self)@
            } else {
                old(self)@.overflow()
            },
        decreases (if old(self)@.overflowed { 0int } else { 1int }), 0int,
    {
        if self.pending_overflowed {
            return;
        }
        self.pending_overflowed = true;
        self.buffer = Vec::new();
        self.stop_upstream = true;
        self.pending = VecDeque::new();
        self.pending_bytes = 0;
        self.clear_retained_output();
        let max_pending_bytes: usize = self.max_pending_bytes;
        self.max_pending_bytes = usize::MAX;
        self.completed = false;
        assert(self@.pending =~= seq![]);
        assert(self@.buffer =~= seq![]);
        let detail = concat3(
            "上游 Chat Completions 事件输出达到 ",
            &display_byte_limit(max_pending_bytes),
            " 本地排队上限",
        );
        self.fail_incomplete_with_message(&detail);
        self.max_pending_bytes = max_pending_bytes;
    }

    /// Queues the first events, once. Says whether the stream is open.
    fn ensure_started(&mut self) -> (open: bool)
        ensures
            (final(self)@, open) == old(self)@.start(old(self)@.overflowed),
            open ==> final(self)@.overflowed == old(self)@.overflowed,
        decreases (if old(self)@.overflowed { 0int } else { 1int }), 2int,
    {
        if self.started {
            return !self.completed;
        }
        if same(&self.response_id, "resp_codex_companion") {
            let identity = object().entry("provider", text(&self.provider_id)).entry(
                "model",
                text(&self.model),
            ).entry("messages", array(copy_all(&self.chat_messages)));
            self.response_id = stable_response_id(&identity);
        }
        self.started = true;
        let created = object().entry("type", text("response.created")).entry(
            "response",
            self.partial_response_object("in_progress"),
        );
        if !self.emit(&created) {
            return false;
        }
        let added = object().entry("type", text("response.output_item.added")).entry(
            "output_index",
            unsigned(0),
        ).entry("item", message_item_of(None));
        if !self.emit(&added) {
            return false;
        }
        proof {
            reveal_strlit("");
            assert(""@ =~= seq![]);
        }
        let part = object().entry("type", text("response.content_part.added")).entry(
            "output_index",
            unsigned(0),
        ).entry("content_index", unsigned(0)).entry("part", output_text_of(""));
        self.emit(&part)
    }

    /// Ends the stream with a failure, unless it has ended.
    pub fn fail_incomplete_with_message(&mut self, detail: &str)
        ensures
            final(self)@ == old(self)@.fail(detail@, old(self)@.overflowed),
        decreases (if old(self)@.overflowed { 0int } else { 1int }), 3int,
    {
        if self.completed {
            return;
        }
        if !self.ensure_started() {
            return;
        }
        self.completed = true;
        let error = object().entry("code", text("upstream_stream_incomplete")).entry(
            "message",
            text(detail),
        );
        let response = self.partial_response_object("failed").with("error", error);
        let event = object().entry("type", text("response.failed")).entry("response", response);
        if !self.emit(&event) {
            return;
        }
        self.push_notice(ChatStreamNotice::Failed(detail.to_owned()));
    }
}

/// An integer from 0 on.
fn count_of(value: usize) -> (json: Json)
    ensures
        json@ == count_view(value as nat),
{
    unsigned(value as u64)
}

fn item_event_of(kind: &str, output_index: usize, item: Json) -> (event: Json)
    ensures
        event@ == item_event(kind@, output_index as nat, item@),
{
    object().entry("type", text(kind)).entry("output_index", count_of(output_index)).entry(
        "item",
        item,
    )
}

fn call_event_of(kind: &str, item_id: &str, output_index: usize, field: &str, content: &str) -> (event:
    Json)
    ensures
        event@ == call_event(kind@, item_id@, output_index as nat, field@, content@),
{
    object().entry("type", text(kind)).entry("item_id", text(item_id)).entry(
        "output_index",
        count_of(output_index),
    ).entry(field, text(content))
}

fn push_event(events: &mut Vec<Json>, event: Json)
    ensures
        views(final(events)@) == views(old(events)@).push(event@),
{
    let ghost before = views(events@);
    let ghost added = event@;
    events.push(event);
    assert(views(events@) =~= before.push(added));
}

/// What a call with its index holds.
pub open spec fn indexed_call(call: (usize, ChatToolCallState)) -> (usize, CallView) {
    (call.0, call.1@)
}

fn call_identity_of(index: usize, call: &ChatToolCallState) -> (id: String)
    ensures
        id@ == call_identity((index, call@)),
{
    if call.call_id.as_str().is_empty() {
        numbered_call_id(index)
    } else {
        call.call_id.clone()
    }
}

fn push_call_events(
    events: &mut Vec<Json>,
    index: usize,
    call: &ChatToolCallState,
    output_index: usize,
    tool_context: &ChatToolContext,
)
    ensures
        views(final(events)@) == views(old(events)@) + call_events(
            (index, call@),
            output_index as nat,
            tool_context@,
        ),
{
    let ghost before = views(events@);
    let ghost tools = tool_context@;
    let id = call_identity_of(index, call);
    proof {
        reveal_strlit("");
        assert(""@ =~= seq![]);
    }
    push_event(
        events,
        item_event_of(
            "response.output_item.added",
            output_index,
            response_tool_call_item(&id, &call.name, "", "in_progress", tool_context),
        ),
    );
    let custom = match tool_context.lookup(&call.name) {
        Some(tool) => match tool.spec.kind {
            ChatToolKind::Custom => true,
            _ => false,
        },
        None => false,
    };
    if custom {
        let input = custom_tool_input(&call.arguments);
        let item_id = concat2("ctc_", &id);
        if !input.as_str().is_empty() {
            push_event(
                events,
                call_event_of(
                    "response.custom_tool_call_input.delta",
                    &item_id,
                    output_index,
                    "delta",
                    &input,
                ),
            );
        }
        push_event(
            events,
            call_event_of(
                "response.custom_tool_call_input.done",
                &item_id,
                output_index,
                "input",
                &input,
            ),
        );
    } else {
        let item_id = concat2("fc_", &id);
        push_event(
            events,
            call_event_of(
                "response.function_call_arguments.delta",
                &item_id,
                output_index,
                "delta",
                &call.arguments,
            ),
        );
        push_event(
            events,
            call_event_of(
                "response.function_call_arguments.done",
                &item_id,
                output_index,
                "arguments",
                &call.arguments,
            ),
        );
    }
    push_event(
        events,
        item_event_of(
            "response.output_item.done",
            output_index,
            response_tool_call_item(&id, &call.name, &call.arguments, "completed", tool_context),
        ),
    );
    assert(views(events@) =~= before + call_events((index, call@), output_index as nat, tools));
}

/// The events of the first calls do not depend on those behind them.
proof fn lemma_calls_events_prefix(
    calls: Seq<(usize, CallView)>,
    more: Seq<(usize, CallView)>,
    tools: Seq<ToolView>,
    count: int,
)
    requires
        0 <= count <= calls.len() <= more.len(),
        calls == more.take(calls.len() as int),
    ensures
        calls_events(calls, tools, count) == calls_events(more, tools, count),
    decreases count,
{
    if count > 0 {
        lemma_calls_events_prefix(calls, more, tools, count - 1);
        assert(calls[count - 1] == more[count - 1]);
    }
}

impl ChatSseTransformState {
    /// Queues the events that tell of the calls, behind others.
    fn push_completed_tools(&self, events: &mut Vec<Json>)
        ensures
            views(final(events)@) == views(old(events)@) + calls_events(
                self@.named(),
                self@.tools,
                self@.named().len() as int,
            ),
    {
        let ghost before = views(events@);
        let ghost calls = self@.calls;
        let ghost tools = self@.tools;
        assert(before + calls_events(named_calls(calls, 0), tools, 0) =~= before);
        let mut output_index: usize = 0;
        let mut index: usize = 0;
        while index < self.tools.len()
            invariant
                index <= self.tools@.len(),
                output_index <= index,
                calls == self@.calls,
                tools == self@.tools,
                output_index == named_calls(calls, index as int).len(),
                views(events@) == before + calls_events(
                    named_calls(calls, index as int),
                    tools,
                    output_index as int,
                ),
            decreases self.tools@.len() - index,
        {
            assert(calls[index as int] == indexed_call(self.tools@[index as int]));
            let ghost named = named_calls(calls, index as int);
            if !is_blank(&self.tools[index].1.name) {
                output_index += 1;
                push_call_events(
                    events,
                    self.tools[index].0,
                    &self.tools[index].1,
                    output_index,
                    &self.tool_context,
                );
                proof {
                    let next = named.push(calls[index as int]);
                    assert(named =~= next.take(named.len() as int));
                    lemma_calls_events_prefix(named, next, tools, named.len() as int);
                    assert(calls_events(next, tools, output_index as int) == calls_events(
                        next,
                        tools,
                        output_index - 1,
                    ) + call_events(calls[index as int], output_index as nat, tools));
                    assert(views(events@) =~= before + calls_events(
                        next,
                        tools,
                        output_index as int,
                    ));
                }
            }
            index += 1;
        }
    }

    /// The response, complete.
    fn full_response_object(&self) -> (response: Json)
        ensures
            response@ == self@.full_response(),
    {
        let mut output: Vec<Json> = Vec::new();
        let ghost tools = self@.tools;
        let ghost calls = self@.calls;
        output.push(message_item_of(Some(self.text.as_str())));
        assert(views(output@) =~= seq![self@.full_message()] + stream_call_items(
            named_calls(calls, 0),
            tools,
        ));
        let mut index: usize = 0;
        while index < self.tools.len()
            invariant
                index <= self.tools@.len(),
                calls == self@.calls,
                tools == self@.tools,
                views(output@) == seq![self@.full_message()] + stream_call_items(
                    named_calls(calls, index as int),
                    tools,
                ),
            decreases self.tools@.len() - index,
        {
            assert(calls[index as int] == indexed_call(self.tools@[index as int]));
            let ghost named = named_calls(calls, index as int);
            if !is_blank(&self.tools[index].1.name) {
                let id = call_identity_of(self.tools[index].0, &self.tools[index].1);
                let item = response_tool_call_item(
                    &id,
                    &self.tools[index].1.name,
                    &self.tools[index].1.arguments,
                    "completed",
                    &self.tool_context,
                );
                let ghost before = views(output@);
                let ghost added = item@;
                output.push(item);
                assert(views(output@) =~= before.push(added));
                assert(stream_call_items(named.push(calls[index as int]), tools)
                    =~= stream_call_items(named, tools).push(added));
                assert(views(output@) =~= seq![self@.full_message()] + stream_call_items(
                    named.push(calls[index as int]),
                    tools,
                ));
            }
            index += 1;
        }
        object().entry("id", text(&self.response_id)).entry("object", text("response")).entry(
            "created_at",
            integer(self.created_at),
        ).entry("status", text("completed")).entry("model", text(&self.model)).entry(
            "output",
            array(output),
        ).entry("usage", self.latest_usage.copy())
    }

    fn closing_events_of(&self) -> (events: Vec<Json>)
        ensures
            views(events@) == self@.closing_events(),
    {
        let mut events: Vec<Json> = Vec::new();
        assert(views(events@) =~= seq![]);
        push_event(
            &mut events,
            object().entry("type", text("response.output_text.done")).entry(
                "output_index",
                count_of(0),
            ).entry("content_index", count_of(0)).entry("text", text(&self.text)),
        );
        push_event(
            &mut events,
            object().entry("type", text("response.content_part.done")).entry(
                "output_index",
                count_of(0),
            ).entry("content_index", count_of(0)).entry("part", output_text_of(&self.text)),
        );
        push_event(
            &mut events,
            item_event_of(
                "response.output_item.done",
                0,
                message_item_of(Some(self.text.as_str())),
            ),
        );
        self.push_completed_tools(&mut events);
        push_event(
            &mut events,
            object().entry("type", text("response.completed")).entry(
                "response",
                self.full_response_object(),
            ),
        );
        events
    }

    fn conversation_of(&self) -> (entry: ChatHistoryEntry)
        ensures
            entry@ == self@.conversation(),
    {
        let mut calls: Vec<Json> = Vec::new();
        let ghost all = self@.calls;
        assert(views(calls@) =~= spoken_calls(named_calls(all, 0)));
        let mut index: usize = 0;
        while index < self.tools.len()
            invariant
                index <= self.tools@.len(),
                all == self@.calls,
                views(calls@) == spoken_calls(named_calls(all, index as int)),
            decreases self.tools@.len() - index,
        {
            assert(all[index as int] == indexed_call(self.tools@[index as int]));
            let ghost named = named_calls(all, index as int);
            if !is_blank(&self.tools[index].1.name) {
                let id = call_identity_of(self.tools[index].0, &self.tools[index].1);
                push_event(
                    &mut calls,
                    function_call_of(
                        &id,
                        &self.tools[index].1.name,
                        &self.tools[index].1.arguments,
                    ),
                );
                assert(views(calls@) =~= spoken_calls(named.push(all[index as int])));
            }
            index += 1;
        }
        let content = if self.text.as_str().is_empty() {
            Json::Null
        } else {
            text(&self.text)
        };
        let plain = message_of("assistant", content);
        let said = if calls.len() > 0 {
            plain.with("tool_calls", array(calls))
        } else {
            plain
        };
        let mut messages = copy_all(&self.chat_messages);
        push_event(&mut messages, said);
        ChatHistoryEntry { messages, tool_context: self.tool_context.copy() }
    }

    /// Ends the stream as completed, unless it has ended.
    pub fn finish(&mut self)
        ensures
            final(self)@ == old(self)@.finish(),
    {
        if self.completed {
            return;
        }
        if !self.ensure_started() {
            return;
        }
        let ghost begun = self@;
        let events = self.closing_events_of();
        let ghost all = views(events@);
        let mut index: usize = 0;
        while index < events.len()
            invariant
                index <= events@.len(),
                all == views(events@),
                all == begun.closing_events(),
                old(self)@.start(old(self)@.overflowed) == (begun, true),
                !old(self)@.completed,
                (self@, true) == begun.emit_all(all, index as int),
            decreases events@.len() - index,
        {
            assert(all[index as int] == events@[index as int]@);
            if !self.emit(&events[index]) {
                proof {
                    lemma_emit_all_stops(begun, all, index + 1, all.len() as int);
                }
                return;
            }
            index += 1;
        }
        let response_id = self.response_id.clone();
        let entry = self.conversation_of();
        self.completed = true;
        self.stop_upstream = true;
        self.push_notice(ChatStreamNotice::Completed { response_id, entry });
    }
}

/// Once there was no room for an event, none behind it is queued.
proof fn lemma_emit_all_stops(
    state: ChatStreamView,
    events: Seq<JsonView>,
    count: int,
    more: int,
)
    requires
        0 <= count <= more <= events.len(),
        !state.emit_all(events, count).1,
    ensures
        state.emit_all(events, more) == state.emit_all(events, count),
    decreases more,
{
    if count < more {
        lemma_emit_all_stops(state, events, count, more - 1);
    }
}

proof fn lemma_call_found(
    calls: Seq<(usize, CallView)>,
    index: usize,
    position: int,
    call: CallView,
)
    requires
        0 <= position < calls.len(),
        calls[position].0 == index,
        forall|i: int| 0 <= i < position ==> (#[trigger] calls[i]).0 < index,
    ensures
        call_at(calls, index) == Some(calls[position].1),
        with_call_at(calls, index, call) == calls.update(position, (index, call)),
    decreases calls.len(),
{
    if position > 0 {
        let rest = calls.drop_first();
        assert forall|i: int| 0 <= i < position - 1 implies (#[trigger] rest[i]).0 < index by {
            assert(rest[i] == calls[i + 1]);
        }
        lemma_call_found(rest, index, position - 1, call);
        assert(seq![calls[0]] + rest.update(position - 1, (index, call)) =~= calls.update(
            position,
            (index, call),
        ));
    }
}

proof fn lemma_call_absent(
    calls: Seq<(usize, CallView)>,
    index: usize,
    position: int,
    call: CallView,
)
    requires
        0 <= position <= calls.len(),
        forall|i: int| 0 <= i < position ==> (#[trigger] calls[i]).0 < index,
        forall|i: int| position <= i < calls.len() ==> (#[trigger] calls[i]).0 > index,
    ensures
        call_at(calls, index) is None,
        with_call_at(calls, index, call) == calls.insert(position, (index, call)),
    decreases calls.len(),
{
    if calls.len() > 0 {
        let rest = calls.drop_first();
        let next = if position > 0 {
            position - 1
        } else {
            0
        };
        assert forall|i: int| 0 <= i < next implies (#[trigger] rest[i]).0 < index by {
            assert(rest[i] == calls[i + 1]);
        }
        assert forall|i: int| next <= i < rest.len() implies (#[trigger] rest[i]).0 > index by {
            assert(rest[i] == calls[i + 1]);
        }
        lemma_call_absent(rest, index, next, call);
        if position > 0 {
            assert(seq![calls[0]] + rest.insert(position - 1, (index, call)) =~= calls.insert(
                position,
                (index, call),
            ));
        } else {
            assert(seq![(index, call)] + calls =~= calls.insert(0, (index, call)));
        }
    } else {
        assert(seq![(index, call)] =~= calls.insert(0, (index, call)));
    }
}

/// The first position from which on no index is smaller.
fn call_position(calls: &Vec<(usize, ChatToolCallState)>, index: usize) -> (position: usize)
    requires
        ascending(call_views(calls@)),
    ensures
        position <= calls@.len(),
        forall|i: int| 0 <= i < position ==> (#[trigger] call_views(calls@)[i]).0 < index,
        position < calls@.len() && calls@[position as int].0 == index
            || (forall|i: int|
            position <= i < calls@.len() ==> (#[trigger] call_views(calls@)[i]).0 > index),
{
    let ghost all = call_views(calls@);
    let mut position: usize = 0;
    while position < calls.len() && calls[position].0 < index
        invariant
            position <= calls@.len(),
            all == call_views(calls@),
            forall|i: int| 0 <= i < position ==> (#[trigger] all[i]).0 < index,
        decreases calls@.len() - position,
    {
        assert(all[position as int].0 == calls@[position as int].0);
        position += 1;
    }
    if position < calls.len() && calls[position].0 != index {
        assert(all[position as int].0 > index);
        assert forall|i: int| position <= i < calls@.len() implies (#[trigger] all[i]).0
            > index by {
            if i > position {
                assert(all[position as int].0 < all[i].0);
            }
        }
    }
    position
}

/// A text that is not empty.
fn nonempty_text_of<'a>(value: Option<&'a str>) -> (result: Option<&'a str>)
    ensures
        str_view(result) == nonempty_text(str_view(value)),
{
    match value {
        Some(content) => if content.is_empty() {
            None
        } else {
            Some(content)
        },
        None => None,
    }
}

/// Three numbers added up, or nothing where the sum is too large.
fn sum3(a: usize, b: usize, c: usize) -> (sum: Option<usize>)
    ensures
        match sum {
            Some(sum) => sum == a + b + c,
            None => a + b + c > usize::MAX,
        },
{
    match a.checked_add(b) {
        Some(ab) => ab.checked_add(c),
        None => None,
    }
}

/// A call with a piece added.
fn merge_call(
    call: &ChatToolCallState,
    call_id: Option<&str>,
    name: Option<&str>,
    arguments: Option<&str>,
) -> (merged: ChatToolCallState)
    ensures
        merged@ == call@.merged(str_view(call_id), str_view(name), str_view(arguments)),
{
    ChatToolCallState {
        call_id: match call_id {
            Some(call_id) => call_id.to_owned(),
            None => call.call_id.clone(),
        },
        name: match name {
            Some(name) => name.to_owned(),
            None => call.name.clone(),
        },
        arguments: match arguments {
            Some(arguments) => concat2(&call.arguments, arguments),
            None => call.arguments.clone(),
        },
    }
}

impl ChatSseTransformState {
    /// Drops the output that is kept, and ends the stream with a failure.
    fn fail_retained_output_limit(&mut self)
        ensures
            final(self)@ == old(self)@.retained_limit(),
    {
        self.buffer = Vec::new();
        self.stop_upstream = true;
        assert(self@.buffer =~= seq![]);
        self.clear_retained_output();
        let detail = concat3(
            "上游 Chat Completions 输出达到 ",
            &display_byte_limit(self.max_retained_output_bytes),
            " 本地转换上限",
        );
        self.fail_incomplete_with_message(&detail);
    }

    /// Ends the stream with a failure because of an event block.
    fn fail_oversized_frame(&mut self)
        ensures
            final(self)@ == old(self)@.oversized(),
    {
        proof {
            reveal(ChatStreamView::oversized);
        }
        self.buffer = Vec::new();
        self.stop_upstream = true;
        assert(self@.buffer =~= seq![]);
        let detail = concat3(
            "上游 SSE 单帧达到 ",
            &display_byte_limit(self.max_frame_bytes),
            " 本地转换上限",
        );
        self.fail_incomplete_with_message(&detail);
    }

    /// Takes room for more output.
    fn reserve_retained_output_bytes(&mut self, additional_bytes: usize) -> (reserved: bool)
        ensures
            (final(self)@, reserved) == old(self)@.reserve(additional_bytes as nat),
    {
        match self.retained_output_bytes.checked_add(additional_bytes) {
            Some(total) => {
                if total <= self.max_retained_output_bytes {
                    self.retained_output_bytes = total;
                    return true;
                }
            },
            None => {},
        }
        self.fail_retained_output_limit();
        false
    }

    /// Follows a piece of text.
    fn append_text_delta(&mut self, content: &str) -> (open: bool)
        ensures
            (final(self)@, open) == old(self)@.with_delta(content@),
    {
        if !self.ensure_started() {
            return false;
        }
        if !self.reserve_retained_output_bytes(byte_len(content)) {
            return false;
        }
        self.text.append(content);
        let event = object().entry("type", text("response.output_text.delta")).entry(
            "output_index",
            count_of(0),
        ).entry("content_index", count_of(0)).entry("delta", text(content));
        self.emit(&event)
    }

    /// The call of an index with a piece added, where it is and whether it was
    /// there, and how many bytes are kept then.
    fn merged_call(
        &self,
        index: usize,
        call_id: Option<&str>,
        name: Option<&str>,
        arguments: Option<&str>,
    ) -> (result: (ChatToolCallState, usize, bool, Option<usize>))
        requires
            ascending(self@.calls),
        ensures
            ({
                let (merged, position, known, total) = result;
                let before = match call_at(self@.calls, index) {
                    Some(call) => call,
                    None => CallView::empty(),
                };
                let kept = if self@.retained_bytes >= before.bytes() {
                    self@.retained_bytes - before.bytes()
                } else {
                    0
                };
                &&& known == (call_at(self@.calls, index) is Some)
                &&& merged@ == before.merged(
                    str_view(call_id),
                    str_view(name),
                    str_view(arguments),
                )
                &&& position <= self.tools@.len()
                &&& known ==> position < self.tools@.len() && with_call_at(
                    self@.calls,
                    index,
                    merged@,
                ) == self@.calls.update(position as int, (index, merged@))
                &&& !known ==> with_call_at(self@.calls, index, merged@) == self@.calls.insert(
                    position as int,
                    (index, merged@),
                )
                &&& match total {
                    Some(total) => total == kept + merged@.bytes(),
                    None => kept + merged@.bytes() > usize::MAX,
                }
            }),
    {
        let ghost calls = self@.calls;
        let position: usize = call_position(&self.tools, index);
        if position < self.tools.len() && self.tools[position].0 == index {
            let call = &self.tools[position].1;
            let merged = merge_call(call, call_id, name, arguments);
            let kept: usize = match sum3(
                byte_len(&call.call_id),
                byte_len(&call.name),
                byte_len(&call.arguments),
            ) {
                Some(previous) => self.retained_output_bytes.saturating_sub(previous),
                None => 0,
            };
            let next = sum3(
                byte_len(&merged.call_id),
                byte_len(&merged.name),
                byte_len(&merged.arguments),
            );
            let total = match next {
                Some(next) => kept.checked_add(next),
                None => None,
            };
            proof {
                assert(calls[position as int] == (index, call@));
                lemma_call_found(calls, index, position as int, merged@);
            }
            (merged, position, true, total)
        } else {
            let none = ChatToolCallState {
                call_id: String::new(),
                name: String::new(),
                arguments: String::new(),
            };
            assert(none@ =~= CallView::empty());
            let merged = merge_call(&none, call_id, name, arguments);
            let next = sum3(
                byte_len(&merged.call_id),
                byte_len(&merged.name),
                byte_len(&merged.arguments),
            );
            let total = match next {
                Some(next) => self.retained_output_bytes.checked_add(next),
                None => None,
            };
            proof {
                assert(encode_utf8(Seq::<char>::empty()).len() == 0);
                lemma_call_absent(calls, index, position as int, merged@);
            }
            (merged, position, false, total)
        }
    }

    /// Follows a piece of the call of an index.
    fn append_piece(
        &mut self,
        index: usize,
        call_id: Option<&str>,
        name: Option<&str>,
        arguments: Option<&str>,
    ) -> (open: bool)
        requires
            ascending(old(self)@.calls),
        ensures
            (final(self)@, open) == old(self)@.with_piece(
                index,
                str_view(call_id),
                str_view(name),
                str_view(arguments),
            ),
    {
        let (merged, position, known, total) = self.merged_call(index, call_id, name, arguments);
        if known || self.tools.len() < MAX_CHAT_SSE_TOOL_CALLS {
            if let Some(total) = total {
                if total <= self.max_retained_output_bytes {
                    let ghost calls = self@.calls;
                    let ghost after = merged@;
                    if known {
                        self.tools.set(position, (index, merged));
                        assert(self@.calls =~= calls.update(position as int, (index, after)));
                    } else {
                        self.tools.insert(position, (index, merged));
                        assert(self@.calls =~= calls.insert(position as int, (index, after)));
                    }
                    self.retained_output_bytes = total;
                    return true;
                }
            }
        }
        self.fail_retained_output_limit();
        false
    }

    /// Follows a piece of a tool call.
    fn append_tool_call_delta(&mut self, tool_call: &Json) -> (open: bool)
        requires
            ascending(old(self)@.calls),
        ensures
            (final(self)@, open) == old(self)@.with_call_delta(tool_call@),
    {
        let named_index = match tool_call.get("index") {
            Some(value) => value.as_u64(),
            None => None,
        };
        let index: usize = match named_index {
            Some(index) => if index <= usize::MAX as u64 {
                index as usize
            } else {
                self.tools.len()
            },
            None => self.tools.len(),
        };
        let function = tool_call.get("function");
        let call_id = nonempty_text_of(tool_call.get_text("id"));
        let name = nonempty_text_of(text_at(get_at(function, "name")));
        let arguments = text_at(get_at(function, "arguments"));
        if call_id.is_none() && name.is_none() && arguments.is_none() {
            return true;
        }
        self.append_piece(index, call_id, name, arguments)
    }
}

proof fn lemma_drain(state: ChatStreamView, end_of_stream: bool)
    ensures
        state.well_formed() ==> state.drain(end_of_stream).well_formed(),
        state.drain(end_of_stream).buffer.len() <= state.buffer.len(),
    decreases state.buffer.len(),
{
    lemma_oversized(state);
    if first_boundary(state.buffer, end_of_stream) is Some {
        lemma_boundary_bounds(state.buffer, 0, end_of_stream);
        let (end, drained) = first_boundary(state.buffer, end_of_stream)->0;
        let rest = ChatStreamView { buffer: state.buffer.skip(drained), ..state };
        let block = utf8_lossy(state.buffer.take(end));
        law_blocks_keep_the_stream_well_formed(rest, block);
        if end < state.max_frame_bytes {
            lemma_drain(rest.with_block(block), end_of_stream);
        }
    }
}

/// Whatever bytes arrive, the accounts of a stream stay right, its limits are
/// kept, and its end is told at most once.
pub proof fn law_chunks_keep_the_stream_well_formed(state: ChatStreamView, chunk: Seq<u8>)
    requires
        state.well_formed(),
    ensures
        state.push(chunk).well_formed(),
    decreases chunk.len(),
{
    let room = state.max_frame_bytes - state.buffer.len();
    if !state.stopped && chunk.len() > 0 {
        if room <= 0 {
            lemma_oversized(state);
        } else {
            let taken = if room <= chunk.len() {
                room
            } else {
                chunk.len() as int
            };
            let filled = ChatStreamView { buffer: state.buffer + chunk.take(taken), ..state };
            lemma_drain(filled, false);
            law_chunks_keep_the_stream_well_formed(filled.drain(false), chunk.skip(taken));
        }
    }
}

/// When the upstream stream ends, the accounts are right, the limits are kept,
/// and the end is told at most once.
pub proof fn law_the_end_keeps_the_stream_well_formed(state: ChatStreamView)
    requires
        state.well_formed(),
    ensures
        state.end().well_formed(),
{
    lemma_drain(state, true);
    let drained = state.drain(true);
    let rest = ChatStreamView { buffer: seq![], ..drained };
    law_blocks_keep_the_stream_well_formed(rest, utf8_lossy(drained.buffer));
    let last = if drained.buffer.len() > 0 {
        rest.with_block(utf8_lossy(drained.buffer))
    } else {
        drained
    };
    lemma_finish(last);
    lemma_fail(last, "上游流在完成事件前中断"@, last.overflowed);
}

/// A stream that has not begun is well formed, whatever its limits.
pub proof fn law_new_streams_are_well_formed(
    provider_id: Seq<char>,
    tools: Seq<ToolView>,
    messages: Seq<JsonView>,
    now: i64,
    max_frame_bytes: nat,
    max_pending_bytes: nat,
    max_retained_bytes: nat,
)
    ensures
        (ChatStreamView {
            max_frame_bytes,
            max_pending_bytes,
            max_retained_bytes,
            ..initial_stream(provider_id, tools, messages, now)
        }).well_formed(),
        initial_stream(provider_id, tools, messages, now).conclusive(),
{
    assert(encode_utf8(Seq::<char>::empty()).len() == 0);
}

proof fn lemma_drain_silent(state: ChatStreamView, end_of_stream: bool)
    requires
        state.completed,
    ensures
        ({
            let after = state.drain(end_of_stream);
            &&& after.completed
            &&& after.pending == state.pending
            &&& after.notices == state.notices
        }),
    decreases state.buffer.len(),
{
    reveal(ChatStreamView::with_block);
    reveal(ChatStreamView::oversized);
    if first_boundary(state.buffer, end_of_stream) is Some {
        lemma_boundary_bounds(state.buffer, 0, end_of_stream);
        let (end, drained) = first_boundary(state.buffer, end_of_stream)->0;
        let rest = ChatStreamView { buffer: state.buffer.skip(drained), ..state };
        if end < state.max_frame_bytes {
            lemma_drain_silent(rest, end_of_stream);
        }
    }
}

/// Once a stream has ended, nothing that arrives adds an event or tells of
/// another end.
pub proof fn law_ended_streams_are_silent(state: ChatStreamView, chunk: Seq<u8>)
    requires
        state.completed,
    ensures
        state.push(chunk).pending == state.pending,
        state.push(chunk).notices == state.notices,
        state.push(chunk).completed,
        state.end().pending == state.pending,
        state.end().notices == state.notices,
    decreases chunk.len(),
{
    reveal(ChatStreamView::with_block);
    reveal(ChatStreamView::oversized);
    lemma_drain_silent(state, true);
    let room = state.max_frame_bytes - state.buffer.len();
    if !state.stopped && chunk.len() > 0 && room > 0 {
        let taken = if room <= chunk.len() {
            room
        } else {
            chunk.len() as int
        };
        let filled = ChatStreamView { buffer: state.buffer + chunk.take(taken), ..state };
        lemma_drain_silent(filled, false);
        law_ended_streams_are_silent(filled.drain(false), chunk.skip(taken));
    }
}

impl ChatSseTransformState {
    /// Takes over what an event says of the response as a whole.
    fn apply_head(&mut self, value: &Json)
        ensures
            final(self)@ == old(self)@.with_head(value@),
    {
        if let Some(id) = value.get_text("id") {
            self.response_id = response_id_from_chat_id(id);
        }
        if let Some(model) = value.get_text("model") {
            self.model = model.to_owned();
        }
        if let Some(created) = value.get("created") {
            if let Some(created) = created.as_i64() {
                self.created_at = created;
            }
        }
        if let Some(usage) = value.get("usage") {
            if !usage.is_null() {
                self.latest_usage = chat_usage_to_responses_usage(Some(usage));
            }
        }
        if let Some(reason) = get_at(listed_choice_of(value), "finish_reason") {
            if !reason.is_null() {
                self.saw_terminal_signal = true;
            }
        }
    }

    /// Follows pieces of tool calls, up to one that is too much.
    fn append_tool_call_deltas(&mut self, calls: &Vec<Json>)
        requires
            old(self)@.accounted(),
        ensures
            final(self)@ == old(self)@.with_call_deltas(views(calls@), calls@.len() as int).0,
    {
        let ghost all = views(calls@);
        let ghost said = self@;
        let mut index: usize = 0;
        while index < calls.len()
            invariant
                index <= calls@.len(),
                all == views(calls@),
                said == old(self)@,
                said.accounted(),
                (self@, true) == said.with_call_deltas(all, index as int),
            decreases calls@.len() - index,
        {
            assert(all[index as int] == calls@[index as int]@);
            proof {
                lemma_call_deltas(said, all, index as int);
            }
            if !self.append_tool_call_delta(&calls[index]) {
                proof {
                    lemma_call_deltas_stop(said, all, index + 1, all.len() as int);
                }
                return;
            }
            index += 1;
        }
    }

    /// Follows an event.
    pub fn process_event(&mut self, value: &Json)
        requires
            old(self)@.well_formed(),
        ensures
            final(self)@ == old(self)@.with_event(value@),
            final(self)@.well_formed(),
    {
        proof {
            lemma_with_event(self@, value@);
        }
        self.apply_head(value);
        let ghost head = self@;
        let delta = get_at(listed_choice_of(value), "delta");
        let content = nonempty_text_of(text_at(get_at(delta, "content")));
        if let Some(content) = content {
            proof {
                lemma_with_delta(head, content@);
            }
            if !self.append_text_delta(content) {
                return;
            }
        }
        if let Some(calls) = get_at(delta, "tool_calls") {
            if let Some(calls) = calls.as_array() {
                self.append_tool_call_deltas(calls);
            }
        }
    }

    /// Follows an event block.
    pub fn process_block(&mut self, block: &str)
        requires
            old(self)@.well_formed(),
        ensures
            final(self)@ == old(self)@.with_block(block@),
            final(self)@.well_formed(),
    {
        proof {
            reveal(ChatStreamView::with_block);
        }
        proof {
            law_blocks_keep_the_stream_well_formed(self@, block@);
        }
        if self.completed {
            return;
        }
        let data = event_data_of(block, false);
        if data.as_str().is_empty() {
            return;
        }
        if same(&trimmed(&data), "[DONE]") {
            self.saw_terminal_signal = true;
            self.finish();
            return;
        }
        match parse_json(data.as_str().as_bytes()) {
            Ok(value) => {
                self.process_event(&value);
            },
            Err(_) => {},
        }
    }

    fn process_buffered_blocks(&mut self, end_of_stream: bool)
        requires
            old(self)@.well_formed(),
        ensures
            final(self)@ == old(self)@.drain(end_of_stream),
            final(self)@.well_formed(),
    {
        proof {
            lemma_drain(self@, end_of_stream);
        }
        loop
            invariant
                self@.well_formed(),
                old(self)@.drain(end_of_stream) == self@.drain(end_of_stream),
                old(self)@.drain(end_of_stream).well_formed(),
            decreases self@.buffer.len(),
        {
            match next_sse_block_boundary(self.buffer.as_slice(), end_of_stream) {
                None => {
                    if sse_frame_limit_reached(self.buffer.len(), self.max_frame_bytes) {
                        self.fail_oversized_frame();
                    }
                    return;
                },
                Some(boundary) => {
                    if sse_frame_limit_reached(boundary.block_end, self.max_frame_bytes) {
                        self.fail_oversized_frame();
                        return;
                    }
                    let block = lossy_text(
                        vstd::slice::slice_subrange(self.buffer.as_slice(), 0, boundary.block_end),
                    );
                    assert(self.buffer@.subrange(0, boundary.block_end as int)
                        =~= self.buffer@.take(boundary.block_end as int));
                    let ghost before = self@;
                    drain_front(&mut self.buffer, boundary.drain_len);
                    let ghost rest = self@;
                    assert(rest == (ChatStreamView {
                        buffer: before.buffer.skip(boundary.drain_len as int),
                        ..before
                    }));
                    proof {
                        law_blocks_keep_the_stream_well_formed(rest, block@);
                    }
                    self.process_block(&block);
                },
            }
        }
    }

    /// Follows bytes that have arrived.
    pub fn push_chunk(&mut self, chunk: &[u8])
        requires
            old(self)@.well_formed(),
        ensures
            final(self)@ == old(self)@.push(chunk@),
            final(self)@.well_formed(),
    {
        let mut position: usize = 0;
        assert(chunk@.skip(0) =~= chunk@);
        while position < chunk.len() && !self.stop_upstream
            invariant
                position <= chunk@.len(),
                self@.well_formed(),
                old(self)@.push(chunk@) == self@.push(chunk@.skip(position as int)),
            decreases chunk@.len() - position,
        {
            let ghost rest = chunk@.skip(position as int);
            let room: usize = self.max_frame_bytes.saturating_sub(self.buffer.len());
            if room == 0 {
                proof {
                    lemma_oversized(self@);
                }
                self.fail_oversized_frame();
                return;
            }
            let take: usize = if room <= chunk.len() - position {
                room
            } else {
                chunk.len() - position
            };
            let part = vstd::slice::slice_subrange(chunk, position, position + take);
            assert(part@ =~= rest.take(take as int));
            assert(rest.skip(take as int) =~= chunk@.skip(position + take));
            let ghost before = self@;
            append_bytes(&mut self.buffer, part);
            assert(self@ == (ChatStreamView { buffer: before.buffer + part@, ..before }));
            self.process_buffered_blocks(false);
            position += take;
        }
    }

    /// Follows the end of the upstream stream.
    pub fn finish_stream(&mut self)
        requires
            old(self)@.well_formed(),
        ensures
            final(self)@ == old(self)@.end(),
            final(self)@.well_formed(),
    {
        proof {
            law_the_end_keeps_the_stream_well_formed(self@);
        }
        if self.stop_upstream {
            return;
        }
        self.process_buffered_blocks(true);
        if self.stop_upstream {
            return;
        }
        if self.buffer.len() > 0 {
            let block = lossy_text(self.buffer.as_slice());
            let ghost before = self@;
            self.buffer = Vec::new();
            assert(self@ == (ChatStreamView { buffer: seq![], ..before }));
            self.process_block(&block);
        }
        if self.completed {
            return;
        }
        if self.saw_terminal_signal {
            self.finish();
        } else {
            self.fail_incomplete_with_message("上游流在完成事件前中断");
        }
    }

    /// Takes the next event that waits.
    pub fn take_pending(&mut self) -> (bytes: Option<Vec<u8>>)
        requires
            old(self)@.well_formed(),
        ensures
            match bytes {
                Some(bytes) => old(self)@.pending.len() > 0 && bytes@ == old(self)@.pending[0]
                    && final(self)@ == (ChatStreamView {
                    pending: old(self)@.pending.drop_first(),
                    pending_bytes: (old(self)@.pending_bytes - bytes@.len()) as nat,
                    ..old(self)@
                }),
                None => old(self)@.pending.len() == 0 && final(self)@ == old(self)@,
            },
            bytes matches Some(first) ==> seq![first@] + final(self)@.pending
                == old(self)@.pending,
            final(self)@.well_formed(),
    {
        proof {
            lemma_total_front(self@.pending);
        }
        match self.pending.pop_front() {
            Some(bytes) => {
                assert(old(self)@.pending[0] == bytes@);
                self.pending_bytes = self.pending_bytes.saturating_sub(bytes.len());
                assert(self@.pending =~= old(self)@.pending.drop_first());
                assert(seq![bytes@] + self@.pending =~= old(self)@.pending);
                Some(bytes)
            },
            None => None,
        }
    }

    /// Takes what is to be told of the end of the stream.
    pub fn take_notices(&mut self) -> (notices: Vec<ChatStreamNotice>)
        requires
            old(self)@.well_formed(),
        ensures
            notice_views(notices@) == old(self)@.notices,
            final(self)@ == (ChatStreamView { notices: seq![], ..old(self)@ }),
            final(self)@.well_formed(),
    {
        let mut notices: Vec<ChatStreamNotice> = Vec::new();
        core::mem::swap(&mut notices, &mut self.notices);
        assert(self@.notices =~= seq![]);
        notices
    }

    /// Whether no more of the upstream stream is needed.
    pub fn stops_upstream(&self) -> (stopped: bool)
        ensures
            stopped == self@.stopped,
    {
        self.stop_upstream
    }

    /// Whether the stream has ended.
    pub fn is_completed(&self) -> (completed: bool)
        ensures
            completed == self@.completed,
    {
        self.completed
    }

    /// How many bytes of events wait.
    pub fn pending_bytes(&self) -> (bytes: usize)
        ensures
            bytes == self@.pending_bytes,
    {
        self.pending_bytes
    }

    /// How many bytes of output are kept.
    pub fn retained_output_bytes(&self) -> (bytes: usize)
        ensures
            bytes == self@.retained_bytes,
    {
        self.retained_output_bytes
    }

    /// The text that has arrived and is kept.
    pub fn retained_text(&self) -> (text: &str)
        ensures
            text@ == self@.text,
    {
        self.text.as_str()
    }

    /// How many tool calls are kept.
    pub fn retained_calls(&self) -> (count: usize)
        ensures
            count == self@.calls.len(),
    {
        self.tools.len()
    }
}

/// The first of some byte strings counts in their total.
proof fn lemma_total_front(list: Seq<Seq<u8>>)
    ensures
        list.len() > 0 ==> total_bytes(list) == list[0].len() + total_bytes(list.drop_first()),
    decreases list.len(),
{
    if list.len() > 1 {
        lemma_total_front(list.drop_last());
        assert(list.drop_last().drop_first() =~= list.drop_first().drop_last());
        assert(list.drop_first().last() == list.last());
    } else if list.len() == 1 {
        assert(list.drop_last() =~= list.drop_first());
        assert(total_bytes(list.drop_first()) == 0);
    }
}

/// Once a piece of a call was too much, none behind it is followed.
proof fn lemma_call_deltas_stop(
    state: ChatStreamView,
    calls: Seq<JsonView>,
    count: int,
    more: int,
)
    requires
        0 <= count <= more <= calls.len(),
        !state.with_call_deltas(calls, count).1,
    ensures
        state.with_call_deltas(calls, more) == state.with_call_deltas(calls, count),
    decreases more,
{
    if count < more {
        lemma_call_deltas_stop(state, calls, count, more - 1);
    }
}

/// The state with something else held back.
pub open spec fn holding(state: ChatStreamView, buffer: Seq<u8>) -> ChatStreamView {
    ChatStreamView { buffer, ..state }
}

/// Whether what one state became and what the same state with something else held
/// back became agree: each holds back what it did, or both hold back nothing and
/// have ended.
spec fn in_step(
    before: ChatStreamView,
    after: ChatStreamView,
    other: ChatStreamView,
    buffer: Seq<u8>,
) -> bool {
    ||| after.buffer == before.buffer && other == holding(after, buffer) && (after.stopped
        ==> before.stopped || after.completed)
    ||| after == other && after.buffer.len() == 0 && after.stopped
}

proof fn lemma_emit_in_step(
    state: ChatStreamView,
    value: JsonView,
    failing: bool,
    buffer: Seq<u8>,
)
    ensures
        ({
            let (after, sent) = state.emit(value, failing);
            let (other, other_sent) = holding(state, buffer).emit(value, failing);
            sent == other_sent && in_step(state, after, other, buffer)
        }),
        state.emit(value, failing).1 ==> state.emit(value, failing).0.buffer == state.buffer
            && state.emit(value, failing).0.stopped == state.stopped,
{
    let other = holding(state, buffer);
    assert(other.queued(value) == holding(state.queued(value), buffer));
    assert(other.forgotten() == holding(state.forgotten(), buffer));
    let cleared = ChatStreamView {
        overflowed: true,
        buffer: seq![],
        stopped: true,
        pending: seq![],
        pending_bytes: 0,
        max_pending_bytes: usize::MAX as nat,
        completed: false,
        ..state.forgotten()
    };
    let detail = "上游 Chat Completions 事件输出达到 "@ + byte_limit_text(state.max_pending_bytes)
        + " 本地排队上限"@;
    lemma_fail(cleared, detail, true);
    assert(state.overflow() == other.overflow());
}

proof fn lemma_start_in_step(state: ChatStreamView, failing: bool, buffer: Seq<u8>)
    ensures
        ({
            let (after, open) = state.start(failing);
            let (other, other_open) = holding(state, buffer).start(failing);
            open == other_open && in_step(state, after, other, buffer)
        }),
        state.start(failing).1 ==> state.start(failing).0.buffer == state.buffer && state.start(
            failing,
        ).0.stopped == state.stopped,
{
    if !state.started {
        let begun = ChatStreamView {
            response_id: if state.response_id == "resp_codex_companion"@ {
                stable_id(state.identity())
            } else {
                state.response_id
            },
            started: true,
            ..state
        };
        let other = holding(state, buffer);
        assert(other.identity() == state.identity());
        let created = obj().entry("type"@, JsonView::Text("response.created"@)).entry(
            "response"@,
            begun.partial_response("in_progress"@),
        );
        assert(holding(begun, buffer).partial_response("in_progress"@) == begun.partial_response(
            "in_progress"@,
        ));
        let added = obj().entry("type"@, JsonView::Text("response.output_item.added"@)).entry(
            "output_index"@,
            count_view(0),
        ).entry("item"@, message_item("in_progress"@, seq![]));
        let part = obj().entry("type"@, JsonView::Text("response.content_part.added"@)).entry(
            "output_index"@,
            count_view(0),
        ).entry("content_index"@, count_view(0)).entry("part"@, output_text(seq![]));
        lemma_emit_in_step(begun, created, failing, buffer);
        let first = begun.emit(created, failing).0;
        lemma_emit_in_step(first, added, failing, buffer);
        let second = first.emit(added, failing).0;
        lemma_emit_in_step(second, part, failing, buffer);
    }
}

proof fn lemma_emit_all_in_step(
    state: ChatStreamView,
    events: Seq<JsonView>,
    count: int,
    buffer: Seq<u8>,
)
    ensures
        ({
            let (after, sent) = state.emit_all(events, count);
            let (other, other_sent) = holding(state, buffer).emit_all(events, count);
            sent == other_sent && in_step(state, after, other, buffer)
        }),
        state.emit_all(events, count).1 ==> state.emit_all(events, count).0.buffer == state.buffer
            && state.emit_all(events, count).0.stopped == state.stopped && holding(
            state,
            buffer,
        ).emit_all(events, count).0 == holding(state.emit_all(events, count).0, buffer),
    decreases count,
{
    if 0 < count <= events.len() {
        lemma_emit_all_in_step(state, events, count - 1, buffer);
        let before = state.emit_all(events, count - 1).0;
        lemma_emit_in_step(before, events[count - 1], before.overflowed, buffer);
    }
}

proof fn lemma_finish_in_step(state: ChatStreamView, buffer: Seq<u8>)
    ensures
        in_step(state, state.finish(), holding(state, buffer).finish(), buffer),
{
    lemma_start_in_step(state, state.overflowed, buffer);
    let begun = state.start(state.overflowed).0;
    let events = begun.closing_events();
    assert(holding(begun, buffer).closing_events() == events);
    lemma_emit_all_in_step(begun, events, events.len() as int, buffer);
    let told = begun.emit_all(events, events.len() as int).0;
    assert(holding(told, buffer).conversation() == told.conversation());
}

proof fn lemma_delta_in_step(state: ChatStreamView, content: Seq<char>, buffer: Seq<u8>)
    ensures
        ({
            let (after, open) = state.with_delta(content);
            let (other, other_open) = holding(state, buffer).with_delta(content);
            open == other_open && in_step(state, after, other, buffer)
        }),
        state.with_delta(content).1 ==> state.with_delta(content).0.buffer == state.buffer
            && state.with_delta(content).0.stopped == state.stopped && holding(
            state,
            buffer,
        ).with_delta(content).0 == holding(state.with_delta(content).0, buffer),
{
    lemma_start_in_step(state, state.overflowed, buffer);
    let begun = state.start(state.overflowed).0;
    lemma_retained_limit(begun);
    assert(holding(begun, buffer).retained_limit() == begun.retained_limit());
    let room = begun.reserve(encode_utf8(content).len()).0;
    lemma_emit_in_step(
        ChatStreamView { text: room.text + content, ..room },
        obj().entry("type"@, JsonView::Text("response.output_text.delta"@)).entry(
            "output_index"@,
            count_view(0),
        ).entry("content_index"@, count_view(0)).entry("delta"@, JsonView::Text(content)),
        room.overflowed,
        buffer,
    );
}

proof fn lemma_call_deltas_in_step(
    state: ChatStreamView,
    calls: Seq<JsonView>,
    count: int,
    buffer: Seq<u8>,
)
    ensures
        ({
            let (after, open) = state.with_call_deltas(calls, count);
            let (other, other_open) = holding(state, buffer).with_call_deltas(calls, count);
            open == other_open && in_step(state, after, other, buffer)
        }),
        state.with_call_deltas(calls, count).1 ==> state.with_call_deltas(calls, count).0.buffer
            == state.buffer && state.with_call_deltas(calls, count).0.stopped == state.stopped
            && holding(state, buffer).with_call_deltas(calls, count).0 == holding(
            state.with_call_deltas(calls, count).0,
            buffer,
        ),
    decreases count,
{
    if 0 < count <= calls.len() {
        lemma_call_deltas_in_step(state, calls, count - 1, buffer);
        let before = state.with_call_deltas(calls, count - 1).0;
        lemma_retained_limit(before);
        assert(holding(before, buffer).retained_limit() == before.retained_limit());
    }
}

#[verifier::spinoff_prover]
#[verifier::rlimit(40)]
proof fn lemma_event_in_step(state: ChatStreamView, value: JsonView, buffer: Seq<u8>)
    ensures
        in_step(state, state.with_event(value), holding(state, buffer).with_event(value), buffer),
{
    let head = state.with_head(value);
    assert(holding(state, buffer).with_head(value) == holding(head, buffer));
    let delta = at(listed_choice(value), "delta"@);
    let content = nonempty_text(text_in(at(delta, "content"@)));
    if content is Some {
        lemma_delta_in_step(head, content->0, buffer);
    }
    let said = match content {
        Some(content) => head.with_delta(content).0,
        None => head,
    };
    if items_in(at(delta, "tool_calls"@)) is Some {
        let calls = items_in(at(delta, "tool_calls"@))->0;
        lemma_call_deltas_in_step(said, calls, calls.len() as int, buffer);
    }
}

#[verifier::spinoff_prover]
#[verifier::rlimit(40)]
proof fn lemma_block_in_step(state: ChatStreamView, block: Seq<char>, buffer: Seq<u8>)
    ensures
        in_step(state, state.with_block(block), holding(state, buffer).with_block(block), buffer),
{
    reveal(ChatStreamView::with_block);
    let seen = ChatStreamView { terminal_seen: true, ..state };
    assert(ChatStreamView { terminal_seen: true, ..holding(state, buffer) } == holding(
        seen,
        buffer,
    ));
    let data = event_data(block, false);
    if state.completed || data.len() == 0 {
    } else if trim(data) == "[DONE]"@ {
        lemma_finish_in_step(seen, buffer);
    } else if parsed_json(encode_utf8(data)) is Ok {
        lemma_event_in_step(state, parsed_json(encode_utf8(data))->Ok_0, buffer);
    }
}

/// What a stream has come to, without what is held back of one that has ended.
pub open spec fn settled(state: ChatStreamView) -> ChatStreamView {
    if state.stopped {
        holding(state, seq![])
    } else {
        state
    }
}

proof fn lemma_ended_drain(state: ChatStreamView, end_of_stream: bool)
    requires
        state.completed,
        state.stopped,
    ensures
        holding(state.drain(end_of_stream), seq![]) == holding(state, seq![]),
    decreases state.buffer.len(),
{
    reveal(ChatStreamView::with_block);
    reveal(ChatStreamView::oversized);
    if first_boundary(state.buffer, end_of_stream) is Some {
        let (end, drained) = first_boundary(state.buffer, end_of_stream)->0;
        lemma_boundary_bounds(state.buffer, 0, end_of_stream);
        if end < state.max_frame_bytes {
            lemma_ended_drain(holding(state, state.buffer.skip(drained)), end_of_stream);
        }
    }
}

proof fn lemma_stream_drain_bound(state: ChatStreamView)
    requires
        state.max_frame_bytes > 0,
    ensures
        ({
            let after = state.drain(false);
            &&& after.stopped || after.buffer.len() < after.max_frame_bytes
            &&& after.max_frame_bytes == state.max_frame_bytes
            &&& after.buffer.len() <= state.buffer.len()
        }),
    decreases state.buffer.len(),
{
    if first_boundary(state.buffer, false) is Some {
        let (end, drained) = first_boundary(state.buffer, false)->0;
        lemma_boundary_bounds(state.buffer, 0, false);
        let rest = holding(state, state.buffer.skip(drained));
        let block = utf8_lossy(state.buffer.take(end));
        law_blocks_keep_the_stream_well_formed(rest, block);
        if end < state.max_frame_bytes {
            lemma_stream_drain_bound(rest.with_block(block));
        } else {
            lemma_oversized(state);
        }
    } else {
        lemma_oversized(state);
    }
}

/// Taking event blocks out of what is held back, and then out of what is left
/// with more behind it, is taking them out of all of it, until the stream ends.
#[verifier::spinoff_prover]
#[verifier::rlimit(40)]
proof fn lemma_stream_drain_in_steps(state: ChatStreamView, more: Seq<u8>)
    requires
        more.len() > 0,
        state.buffer.len() + more.len() <= state.max_frame_bytes,
        !state.stopped,
    ensures
        ({
            let first = state.drain(false);
            let whole = holding(state, state.buffer + more).drain(false);
            if first.stopped {
                whole.stopped && settled(whole) == settled(first)
            } else {
                whole == holding(first, first.buffer + more).drain(false)
            }
        }),
    decreases state.buffer.len(),
{
    let all = holding(state, state.buffer + more);
    if first_boundary(state.buffer, false) is Some {
        let (end, drained) = first_boundary(state.buffer, false)->0;
        lemma_boundary_bounds(state.buffer, 0, false);
        law_boundary_is_stable(state.buffer, more, 0);
        let rest = state.buffer.skip(drained);
        let block = utf8_lossy(state.buffer.take(end));
        assert(all.buffer.take(end) =~= state.buffer.take(end));
        assert(all.buffer.skip(drained) =~= rest + more);
        let next = holding(state, rest).with_block(block);
        let next_all = holding(state, rest + more).with_block(block);
        lemma_block_in_step(holding(state, rest), block, rest + more);
        law_blocks_keep_the_stream_well_formed(holding(state, rest), block);
        assert(holding(holding(state, rest), rest + more) == holding(state, rest + more));
        if next.stopped && next.completed && next.buffer == rest && next_all == holding(
            next,
            rest + more,
        ) {
            lemma_ended_drain(next, false);
            lemma_ended_drain(next_all, false);
        } else if next.stopped {
            assert(next == next_all);
            assert(next.buffer =~= seq![]);
            assert(first_boundary(next.buffer, false) is None);
        } else {
            lemma_stream_drain_in_steps(next, more);
        }
    }
}

proof fn lemma_idle_push(state: ChatStreamView, chunk: Seq<u8>)
    requires
        state.stopped || chunk.len() == 0,
    ensures
        state.push(chunk) == state,
{
}

proof fn lemma_filling_push(state: ChatStreamView, chunk: Seq<u8>, taken: int)
    requires
        !state.stopped,
        state.buffer.len() < state.max_frame_bytes,
        0 < taken <= chunk.len(),
        taken == state.max_frame_bytes - state.buffer.len() || (taken == chunk.len() && taken
            <= state.max_frame_bytes - state.buffer.len()),
    ensures
        state.push(chunk) == holding(state, state.buffer + chunk.take(taken)).drain(false).push(
            chunk.skip(taken),
        ),
{
}

/// A chunk that is taken in two steps, the first of which fits.
#[verifier::spinoff_prover]
#[verifier::rlimit(40)]
proof fn lemma_two_pushes(
    state: ChatStreamView,
    first: Seq<u8>,
    part: Seq<u8>,
    rest: Seq<u8>,
)
    requires
        !state.stopped,
        state.buffer.len() < state.max_frame_bytes,
        0 < first.len(),
        0 < part.len(),
        state.buffer.len() + first.len() + part.len() <= state.max_frame_bytes,
        rest.len() == 0 || state.buffer.len() + first.len() + part.len() == state.max_frame_bytes,
    ensures
        ({
            let after = state.push(first);
            let whole = state.push(first + part + rest);
            &&& after.max_frame_bytes == state.max_frame_bytes
            &&& after.stopped || after.buffer.len() < after.max_frame_bytes
            &&& if after.stopped {
                whole.stopped && settled(whole) == settled(after)
            } else {
                whole == after.push(part).push(rest)
            }
        }),
{
    let all = first + part + rest;
    let taken = (first.len() + part.len()) as int;
    assert(first.take(first.len() as int) =~= first);
    assert(first.skip(first.len() as int) =~= seq![]);
    assert(all.take(taken) =~= first + part);
    assert(all.skip(taken) =~= rest);
    let filled = holding(state, state.buffer + first);
    let after = filled.drain(false);
    lemma_filling_push(state, first, first.len() as int);
    lemma_idle_push(after, seq![]);
    assert(state.push(first) == after);
    lemma_stream_drain_bound(filled);
    lemma_stream_drain_in_steps(filled, part);
    assert(state.buffer + all.take(taken) =~= filled.buffer + part);
    let whole = holding(filled, filled.buffer + part).drain(false);
    assert(holding(filled, filled.buffer + part) == holding(
        state,
        state.buffer + all.take(taken),
    ));
    lemma_filling_push(state, all, taken);
    assert(state.push(all) == whole.push(rest));
    if after.stopped {
        lemma_idle_push(whole, rest);
    } else {
        assert(part.take(part.len() as int) =~= part);
        assert(part.skip(part.len() as int) =~= seq![]);
        lemma_filling_push(after, part, part.len() as int);
        lemma_idle_push(whole, seq![]);
        assert(after.push(part) == whole);
    }
}

/// How a stream is cut into chunks has no influence on what it is converted to.
#[verifier::spinoff_prover]
#[verifier::rlimit(40)]
pub proof fn law_conversion_ignores_chunking(
    state: ChatStreamView,
    first: Seq<u8>,
    second: Seq<u8>,
)
    requires
        state.stopped || state.buffer.len() < state.max_frame_bytes,
    ensures
        settled(state.push(first + second)) == settled(state.push(first).push(second)),
    decreases first.len() + second.len(),
{
    if state.stopped || first.len() == 0 {
        lemma_idle_push(state, first);
        if state.stopped {
            lemma_idle_push(state, first + second);
            lemma_idle_push(state, second);
        } else {
            assert(first + second =~= second);
        }
    } else if second.len() == 0 {
        assert(first + second =~= first);
        lemma_idle_push(state.push(first), second);
    } else {
        let room = state.max_frame_bytes - state.buffer.len();
        let all = first + second;
        if room <= first.len() {
            assert(all.take(room) =~= first.take(room));
            assert(all.skip(room) =~= first.skip(room) + second);
            let filled = holding(state, state.buffer + first.take(room));
            lemma_filling_push(state, all, room);
            lemma_filling_push(state, first, room);
            lemma_stream_drain_bound(filled);
            law_conversion_ignores_chunking(filled.drain(false), first.skip(room), second);
        } else {
            let count = if room <= all.len() {
                room - first.len()
            } else {
                second.len() as int
            };
            let part = second.take(count);
            let rest = second.skip(count);
            assert(part + rest =~= second);
            assert(first + part + rest =~= all);
            lemma_two_pushes(state, first, part, rest);
            let after = state.push(first);
            if after.stopped {
                lemma_idle_push(after, second);
            } else {
                law_conversion_ignores_chunking(after, part, rest);
            }
        }
    }
}

impl ChatStreamView {
    /// The event that says that the stream has failed.
    pub open spec fn failed_event(self, detail: Seq<char>) -> JsonView {
        obj().entry("type"@, JsonView::Text("response.failed"@)).entry(
            "response"@,
            self.partial_response("failed"@).with(
                "error"@,
                obj().entry("code"@, JsonView::Text("upstream_stream_incomplete"@)).entry(
                    "message"@,
                    JsonView::Text(detail),
                ),
            ),
        )
    }

    /// What is said when the events that wait have reached their limit.
    pub open spec fn overflow_detail(self) -> Seq<char> {
        "上游 Chat Completions 事件输出达到 "@ + byte_limit_text(self.max_pending_bytes)
            + " 本地排队上限"@
    }

    /// The event that says that the events that wait have reached their limit is
    /// too long for any machine to send.
    pub open spec fn unsendable(self) -> bool {
        event_bytes(self.failed_event(self.overflow_detail())).len() > usize::MAX
    }

    /// The event that says that the stream was completed.
    pub open spec fn completed_event(self) -> JsonView {
        obj().entry("type"@, JsonView::Text("response.completed"@)).entry(
            "response"@,
            self.full_response(),
        )
    }

    /// The last event that waits says what was told last of the end of the stream.
    pub open spec fn last_word(self) -> bool {
        &&& self.notices.len() > 0
        &&& self.pending.len() > 0
        &&& self.pending.last() == event_bytes(
            match self.notices.last() {
                NoticeView::Failed(detail) => self.failed_event(detail),
                NoticeView::Completed { .. } => self.completed_event(),
            },
        )
    }

    /// Only a stream that has ended reads no more, or has had no room for its
    /// events, and it has begun before.
    pub open spec fn conclusive(self) -> bool {
        &&& self.completed ==> self.started
        &&& self.overflowed ==> self.completed
        &&& self.stopped ==> self.completed
    }

    /// The end of a stream has been told since an earlier state, once, if it has
    /// come since then, to the relay and by a last event to the client, but for an
    /// event that no machine can send.
    pub open spec fn told_since(self, before: ChatStreamView) -> bool {
        if before.completed || !self.completed {
            self.completed == before.completed && self.notices == before.notices
        } else {
            ||| self.notices.len() == before.notices.len() + 1 && self.notices.drop_last()
                == before.notices && self.last_word()
            ||| self.overflowed && self.unsendable() && self.notices == before.notices
        }
    }
}

/// Whether a stream that has ended, or had no room, has begun before.
spec fn in_order(state: ChatStreamView) -> bool {
    &&& state.completed ==> state.started
    &&& state.overflowed ==> state.completed
}

/// Whether one state of a stream follows another: it stays ended once it has
/// ended, its end is told once, when it comes, and only a stream that has ended
/// is stopped.
spec fn goes_on(before: ChatStreamView, after: ChatStreamView) -> bool {
    &&& in_order(after)
    &&& after.told_since(before)
    &&& before.completed ==> {
        &&& after.unsendable() == before.unsendable()
        &&& after.overflowed == before.overflowed
        &&& before.last_word() ==> after.last_word()
    }
    &&& after.stopped ==> before.stopped || after.completed
}

/// Whether two states agree in what is told of the end of a stream.
spec fn as_open(before: ChatStreamView, after: ChatStreamView) -> bool {
    &&& after.completed == before.completed
    &&& after.notices == before.notices
    &&& after.stopped == before.stopped
    &&& after.overflowed == before.overflowed
    &&& after.started == before.started
}

/// Whether a stream has ended for want of room.
spec fn cut_short(before: ChatStreamView, after: ChatStreamView) -> bool {
    &&& after.overflowed
    &&& after.completed
    &&& after.started
    &&& {
        ||| after.notices.len() == before.notices.len() + 1 && after.notices.drop_last()
            == before.notices && after.last_word()
        ||| after.unsendable() && after.notices == before.notices
    }
}

proof fn lemma_emit_goes_on(state: ChatStreamView, value: JsonView)
    requires
        state.started,
    ensures
        ({
            let (after, sent) = state.emit(value, false);
            &&& sent ==> as_open(state, after)
            &&& !sent ==> cut_short(state, after)
        }),
{
    let cleared = ChatStreamView {
        overflowed: true,
        buffer: seq![],
        stopped: true,
        pending: seq![],
        pending_bytes: 0,
        max_pending_bytes: usize::MAX as nat,
        completed: false,
        ..state.forgotten()
    };
    let detail = state.overflow_detail();
    assert(state.overflow() == (ChatStreamView {
        max_pending_bytes: state.max_pending_bytes,
        ..cleared.fail(detail, true)
    }));
    assert(cleared.start(true) == (cleared, true));
    let ended = ChatStreamView { completed: true, ..cleared };
    let event = ended.failed_event(detail);
    assert(event == state.failed_event(detail));
    assert(ended.notices.push(NoticeView::Failed(detail)).drop_last() =~= ended.notices);
    assert(ended.emit(event, true).0 == if event_bytes(event).len() <= usize::MAX {
        ended.queued(event)
    } else {
        ended
    });
}

proof fn lemma_start_goes_on(state: ChatStreamView)
    requires
        state.completed ==> state.started,
    ensures
        ({
            let (after, open) = state.start(false);
            &&& open ==> !state.completed && as_open(
                ChatStreamView { started: true, ..state },
                after,
            )
            &&& !open ==> (if state.completed {
                after == state
            } else {
                cut_short(state, after)
            })
        }),
{
    if !state.started {
        let begun = ChatStreamView {
            response_id: if state.response_id == "resp_codex_companion"@ {
                stable_id(state.identity())
            } else {
                state.response_id
            },
            started: true,
            ..state
        };
        let created = obj().entry("type"@, JsonView::Text("response.created"@)).entry(
            "response"@,
            begun.partial_response("in_progress"@),
        );
        let added = obj().entry("type"@, JsonView::Text("response.output_item.added"@)).entry(
            "output_index"@,
            count_view(0),
        ).entry("item"@, message_item("in_progress"@, seq![]));
        let part = obj().entry("type"@, JsonView::Text("response.content_part.added"@)).entry(
            "output_index"@,
            count_view(0),
        ).entry("content_index"@, count_view(0)).entry("part"@, output_text(seq![]));
        lemma_emit_goes_on(begun, created);
        let (first, first_sent) = begun.emit(created, false);
        if first_sent {
            assert(first == begun.queued(created));
            lemma_emit_goes_on(first, added);
            let (second, second_sent) = first.emit(added, false);
            if second_sent {
                assert(second == first.queued(added));
                lemma_emit_goes_on(second, part);
            }
        }
    }
}

proof fn lemma_fail_goes_on(state: ChatStreamView, detail: Seq<char>)
    requires
        in_order(state),
    ensures
        ({
            let after = state.fail(detail, state.overflowed);
            &&& goes_on(ChatStreamView { stopped: false, ..state }, after)
            &&& after.completed
        }),
{
    if !state.completed {
        lemma_start_goes_on(state);
        let (begun, open) = state.start(false);
        if open {
            let ended = ChatStreamView { completed: true, ..begun };
            let event = ended.failed_event(detail);
            lemma_emit_goes_on(ended, event);
            let told = ended.emit(event, false).0;
            assert(told.notices.push(NoticeView::Failed(detail)).drop_last() =~= told.notices);
        }
    }
}

proof fn lemma_emit_all_goes_on(state: ChatStreamView, events: Seq<JsonView>, count: int)
    requires
        state.started,
        !state.overflowed,
    ensures
        ({
            let (after, sent) = state.emit_all(events, count);
            &&& sent ==> as_open(state, after)
            &&& !sent ==> cut_short(state, after)
        }),
    decreases count,
{
    if 0 < count <= events.len() {
        lemma_emit_all_goes_on(state, events, count - 1);
        let (before, sent) = state.emit_all(events, count - 1);
        if sent {
            lemma_emit_goes_on(before, events[count - 1]);
        }
    }
}

/// Events that were queued change nothing else, and the last of them comes last.
proof fn lemma_emit_all_last(state: ChatStreamView, events: Seq<JsonView>, count: int)
    ensures
        ({
            let (after, sent) = state.emit_all(events, count);
            sent ==> {
                &&& after == ChatStreamView {
                    pending: after.pending,
                    pending_bytes: after.pending_bytes,
                    ..state
                }
                &&& 0 < count <= events.len() ==> after.pending.len() > 0 && after.pending.last()
                    == event_bytes(events[count - 1])
            }
        }),
    decreases count,
{
    if 0 < count <= events.len() {
        lemma_emit_all_last(state, events, count - 1);
        let (before, sent) = state.emit_all(events, count - 1);
        lemma_emit(before, events[count - 1], before.overflowed);
    }
}

proof fn lemma_finish_goes_on(state: ChatStreamView)
    requires
        in_order(state),
    ensures
        goes_on(state, state.finish()),
        state.finish().completed,
{
    if !state.completed {
        lemma_start_goes_on(state);
        let (begun, open) = state.start(false);
        if open {
            let events = begun.closing_events();
            lemma_emit_all_goes_on(begun, events, events.len() as int);
            let told = begun.emit_all(events, events.len() as int).0;
            let notice = NoticeView::Completed {
                response_id: told.response_id,
                entry: told.conversation(),
            };
            assert(told.notices.push(notice).drop_last() =~= told.notices);
            lemma_emit_all_last(begun, events, events.len() as int);
        }
    }
}

proof fn lemma_retained_limit_goes_on(state: ChatStreamView)
    requires
        in_order(state),
        !state.completed,
    ensures
        goes_on(state, state.retained_limit()),
        state.retained_limit().completed,
{
    lemma_fail_goes_on(
        (ChatStreamView { buffer: seq![], stopped: true, ..state }).forgotten(),
        "上游 Chat Completions 输出达到 "@ + byte_limit_text(state.max_retained_bytes)
            + " 本地转换上限"@,
    );
}

proof fn lemma_oversized_goes_on(state: ChatStreamView)
    requires
        in_order(state),
    ensures
        goes_on(state, state.oversized()),
        state.oversized().completed,
{
    reveal(ChatStreamView::oversized);
    lemma_fail_goes_on(
        ChatStreamView { buffer: seq![], stopped: true, ..state },
        "上游 SSE 单帧达到 "@ + byte_limit_text(state.max_frame_bytes) + " 本地转换上限"@,
    );
}

proof fn lemma_delta_goes_on(state: ChatStreamView, content: Seq<char>)
    requires
        in_order(state),
        !state.completed,
    ensures
        goes_on(state, state.with_delta(content).0),
        state.with_delta(content).1 ==> !state.with_delta(content).0.completed,
{
    lemma_start_goes_on(state);
    let (begun, open) = state.start(false);
    if open {
        lemma_retained_limit_goes_on(begun);
        let (room, reserved) = begun.reserve(encode_utf8(content).len());
        if reserved {
            lemma_emit_goes_on(
                ChatStreamView { text: room.text + content, ..room },
                obj().entry("type"@, JsonView::Text("response.output_text.delta"@)).entry(
                    "output_index"@,
                    count_view(0),
                ).entry("content_index"@, count_view(0)).entry("delta"@, JsonView::Text(content)),
            );
        }
    }
}

proof fn lemma_call_deltas_goes_on(state: ChatStreamView, calls: Seq<JsonView>, count: int)
    requires
        in_order(state),
        !state.completed,
    ensures
        goes_on(state, state.with_call_deltas(calls, count).0),
        state.with_call_deltas(calls, count).1 ==> !state.with_call_deltas(
            calls,
            count,
        ).0.completed,
    decreases count,
{
    if 0 < count <= calls.len() {
        lemma_call_deltas_goes_on(state, calls, count - 1);
        let (before, open) = state.with_call_deltas(calls, count - 1);
        if open {
            lemma_retained_limit_goes_on(before);
        }
    }
}

#[verifier::spinoff_prover]
#[verifier::rlimit(40)]
proof fn lemma_event_goes_on(state: ChatStreamView, value: JsonView)
    requires
        in_order(state),
        !state.completed,
    ensures
        goes_on(state, state.with_event(value)),
{
    let head = state.with_head(value);
    let delta = at(listed_choice(value), "delta"@);
    let content = nonempty_text(text_in(at(delta, "content"@)));
    if content is Some {
        lemma_delta_goes_on(head, content->0);
    }
    let said = match content {
        Some(content) => head.with_delta(content).0,
        None => head,
    };
    if items_in(at(delta, "tool_calls"@)) is Some && !said.completed {
        let calls = items_in(at(delta, "tool_calls"@))->0;
        lemma_call_deltas_goes_on(said, calls, calls.len() as int);
    }
}

#[verifier::spinoff_prover]
#[verifier::rlimit(40)]
proof fn lemma_block_goes_on(state: ChatStreamView, block: Seq<char>)
    requires
        in_order(state),
    ensures
        goes_on(state, state.with_block(block)),
{
    reveal(ChatStreamView::with_block);
    let data = event_data(block, false);
    if state.completed || data.len() == 0 {
    } else if trim(data) == "[DONE]"@ {
        lemma_finish_goes_on(ChatStreamView { terminal_seen: true, ..state });
    } else if parsed_json(encode_utf8(data)) is Ok {
        lemma_event_goes_on(state, parsed_json(encode_utf8(data))->Ok_0);
    }
}

proof fn lemma_drain_goes_on(state: ChatStreamView, end_of_stream: bool)
    requires
        in_order(state),
    ensures
        goes_on(state, state.drain(end_of_stream)),
    decreases state.buffer.len(),
{
    if first_boundary(state.buffer, end_of_stream) is Some {
        let (end, drained) = first_boundary(state.buffer, end_of_stream)->0;
        lemma_boundary_bounds(state.buffer, 0, end_of_stream);
        let rest = holding(state, state.buffer.skip(drained));
        let block = utf8_lossy(state.buffer.take(end));
        law_blocks_keep_the_stream_well_formed(rest, block);
        lemma_block_goes_on(rest, block);
        if end < state.max_frame_bytes {
            lemma_drain_goes_on(rest.with_block(block), end_of_stream);
        } else {
            lemma_oversized_goes_on(state);
        }
    } else {
        lemma_oversized_goes_on(state);
    }
}

/// While bytes arrive, a stream that ends tells its client so, once, and only
/// then stops: also where its events had no room, when it tells of that. An event
/// that is too long for any machine to send is excepted.
pub proof fn law_ends_are_told_while_bytes_arrive(state: ChatStreamView, chunk: Seq<u8>)
    requires
        state.conclusive(),
    ensures
        state.push(chunk).conclusive(),
        state.push(chunk).told_since(state),
        state.completed ==> {
            &&& state.push(chunk).unsendable() == state.unsendable()
            &&& state.push(chunk).overflowed == state.overflowed
            &&& state.last_word() ==> state.push(chunk).last_word()
        },
    decreases chunk.len(),
{
    let room = state.max_frame_bytes - state.buffer.len();
    if !state.stopped && chunk.len() > 0 {
        if room <= 0 {
            lemma_oversized_goes_on(state);
        } else {
            let taken = if room <= chunk.len() {
                room
            } else {
                chunk.len() as int
            };
            let filled = holding(state, state.buffer + chunk.take(taken));
            lemma_drain_goes_on(filled, false);
            law_ends_are_told_while_bytes_arrive(filled.drain(false), chunk.skip(taken));
        }
    }
}

/// When the upstream stream ends, the client has been told how its response
/// ended: by an event that says that it was completed or that it failed, and this
/// once. Where its events had no room it is told of that. An event that is too
/// long for any machine to send is excepted.
#[verifier::spinoff_prover]
#[verifier::rlimit(40)]
pub proof fn law_conversions_are_terminated(state: ChatStreamView)
    requires
        state.conclusive(),
    ensures
        state.end().completed,
        state.end().conclusive(),
        state.end().told_since(state),
{
    let drained = state.drain(true);
    lemma_drain_goes_on(state, true);
    let bare = holding(drained, seq![]);
    lemma_block_goes_on(bare, utf8_lossy(drained.buffer));
    let last = if drained.buffer.len() > 0 {
        bare.with_block(utf8_lossy(drained.buffer))
    } else {
        drained
    };
    lemma_finish_goes_on(last);
    lemma_fail_goes_on(last, "上游流在完成事件前中断"@);
}

/// What an event adds to the text that the client shows.
pub open spec fn shown_by(event: JsonView) -> Seq<char> {
    match (event.get_text("type"@), event.get_text("delta"@)) {
        (Some(kind), Some(delta)) => if kind == "response.output_text.delta"@ {
            delta
        } else {
            seq![]
        },
        _ => seq![],
    }
}

/// The text that a client shows that joins what the events add.
pub open spec fn shown_text(events: Seq<JsonView>) -> Seq<char>
    decreases events.len(),
{
    if events.len() == 0 {
        seq![]
    } else {
        shown_text(events.drop_last()) + shown_by(events.last())
    }
}

/// Events as they are sent.
pub open spec fn sent_as(events: Seq<JsonView>) -> Seq<Seq<u8>> {
    Seq::new(events.len(), |i: int| event_bytes(events[i]))
}

/// Whether the events that were queued between two states add a text to what the
/// client shows.
pub open spec fn shows(before: ChatStreamView, after: ChatStreamView, said: Seq<char>) -> bool {
    exists|events: Seq<JsonView>| #[trigger]
        shown_text(events) == said && after.pending == before.pending + sent_as(events)
}

/// The piece of text that an upstream event brings: the content of the first
/// choice's delta.
pub open spec fn said_by(value: JsonView) -> Seq<char> {
    match value.get("choices"@) {
        Some(JsonView::Array(choices)) => if choices.len() > 0 {
            match choices[0].get("delta"@) {
                Some(delta) => match delta.get("content"@) {
                    Some(JsonView::Text(content)) => content,
                    _ => seq![],
                },
                None => seq![],
            }
        } else {
            seq![]
        },
        _ => seq![],
    }
}

proof fn lemma_shown_together(first: Seq<JsonView>, second: Seq<JsonView>)
    ensures
        shown_text(first + second) == shown_text(first) + shown_text(second),
        sent_as(first + second) == sent_as(first) + sent_as(second),
    decreases second.len(),
{
    assert(sent_as(first + second) =~= sent_as(first) + sent_as(second));
    if second.len() == 0 {
        assert(first + second =~= first);
        assert(shown_text(first) + seq![] =~= shown_text(first));
    } else {
        lemma_shown_together(first, second.drop_last());
        assert((first + second).drop_last() =~= first + second.drop_last());
        assert((first + second).last() == second.last());
        assert(shown_text(first) + shown_text(second.drop_last()) + shown_by(second.last())
            =~= shown_text(first) + shown_text(second));
    }
}

/// Events of which none adds text add none together.
proof fn lemma_nothing_shown(events: Seq<JsonView>)
    requires
        forall|i: int| 0 <= i < events.len() ==> shown_by(#[trigger] events[i]).len() == 0,
    ensures
        shown_text(events) == Seq::<char>::empty(),
    decreases events.len(),
{
    if events.len() > 0 {
        let front = events.drop_last();
        assert forall|i: int| 0 <= i < front.len() implies shown_by(
            #[trigger] front[i],
        ).len() == 0 by {
            assert(front[i] == events[i]);
        }
        lemma_nothing_shown(front);
        assert(shown_by(events.last()).len() == 0);
        assert(shown_text(events) =~= Seq::<char>::empty());
    }
}

/// An event of another kind adds no text.
proof fn lemma_not_shown(event: JsonView, kind: Seq<char>)
    requires
        event.get("type"@) == Some(JsonView::Text(kind)),
        kind != "response.output_text.delta"@,
    ensures
        shown_by(event).len() == 0,
{
}

proof fn lemma_show_in_turn(
    before: ChatStreamView,
    between: ChatStreamView,
    after: ChatStreamView,
    first: Seq<char>,
    second: Seq<char>,
)
    requires
        shows(before, between, first),
        shows(between, after, second),
    ensures
        shows(before, after, first + second),
{
    let one = choose|events: Seq<JsonView>| #[trigger]
        shown_text(events) == first && between.pending == before.pending + sent_as(events);
    let two = choose|events: Seq<JsonView>| #[trigger]
        shown_text(events) == second && after.pending == between.pending + sent_as(events);
    lemma_shown_together(one, two);
    assert(after.pending =~= before.pending + sent_as(one + two));
    assert(shown_text(one + two) == first + second);
}

/// A stream that begins queues events that add no text, and changes nothing of
/// what is kept.
proof fn lemma_start_shows(state: ChatStreamView) -> (events: Seq<JsonView>)
    requires
        in_order(state),
        !state.completed,
    ensures
        ({
            let (after, open) = state.start(false);
            open ==> {
                &&& shown_text(events) == Seq::<char>::empty()
                &&& after.pending == state.pending + sent_as(events)
                &&& after == (ChatStreamView {
                    started: true,
                    response_id: after.response_id,
                    pending: after.pending,
                    pending_bytes: after.pending_bytes,
                    ..state
                })
            }
        }),
{
    broadcast use crate::json::lemma_entry_field;

    reveal_strlit("response.output_text.delta");
    reveal_strlit("response.created");
    reveal_strlit("response.output_item.added");
    reveal_strlit("response.content_part.added");
    assert("response.output_text.delta"@.len() == 26 && "response.created"@.len() == 16);
    assert("response.output_item.added"@.len() == 26 && "response.content_part.added"@.len() == 27);
    assert("response.output_text.delta"@[16] != "response.output_item.added"@[16]);
    if state.started {
        let none = Seq::<JsonView>::empty();
        assert(state.pending + sent_as(none) =~= state.pending);
        none
    } else {
        let begun = ChatStreamView {
            response_id: if state.response_id == "resp_codex_companion"@ {
                stable_id(state.identity())
            } else {
                state.response_id
            },
            started: true,
            ..state
        };
        let created = obj().entry("type"@, JsonView::Text("response.created"@)).entry(
            "response"@,
            begun.partial_response("in_progress"@),
        );
        let added = obj().entry("type"@, JsonView::Text("response.output_item.added"@)).entry(
            "output_index"@,
            count_view(0),
        ).entry("item"@, message_item("in_progress"@, seq![]));
        let part = obj().entry("type"@, JsonView::Text("response.content_part.added"@)).entry(
            "output_index"@,
            count_view(0),
        ).entry("content_index"@, count_view(0)).entry("part"@, output_text(seq![]));
        lemma_not_shown(created, "response.created"@);
        lemma_not_shown(added, "response.output_item.added"@);
        lemma_not_shown(part, "response.content_part.added"@);
        let events = seq![created, added, part];
        lemma_nothing_shown(events);
        assert(state.pending + sent_as(events) =~= state.pending.push(event_bytes(created)).push(
            event_bytes(added),
        ).push(event_bytes(part)));
        events
    }
}

/// Where a piece of text does not end the stream, the events that are queued add
/// exactly this piece to what the client shows, and it goes behind the text that
/// is kept.
pub proof fn law_pieces_of_text_are_shown_once(state: ChatStreamView, content: Seq<char>)
    requires
        state.conclusive(),
        !state.completed,
        !state.with_delta(content).0.completed,
    ensures
        shows(state, state.with_delta(content).0, content),
        state.with_delta(content).0.text == state.text + content,
        state.with_delta(content).0.calls == state.calls,
        state.with_delta(content).1,
{
    broadcast use crate::json::lemma_entry_field;

    reveal_strlit("type");
    reveal_strlit("output_index");
    reveal_strlit("content_index");
    reveal_strlit("delta");
    assert("type"@.len() == 4);
    assert("output_index"@.len() == 12);
    assert("content_index"@.len() == 13);
    assert("delta"@.len() == 5);
    lemma_start_goes_on(state);
    let (begun, open) = state.start(false);
    let opening = lemma_start_shows(state);
    assert(open);
    lemma_retained_limit_goes_on(begun);
    let (room, reserved) = begun.reserve(encode_utf8(content).len());
    assert(reserved);
    let kept = ChatStreamView { text: room.text + content, ..room };
    let event = obj().entry("type"@, JsonView::Text("response.output_text.delta"@)).entry(
        "output_index"@,
        count_view(0),
    ).entry("content_index"@, count_view(0)).entry("delta"@, JsonView::Text(content));
    lemma_emit_goes_on(kept, event);
    let after = state.with_delta(content).0;
    assert(event.get("type"@) == Some(JsonView::Text("response.output_text.delta"@)));
    assert(event.get("delta"@) == Some(JsonView::Text(content)));
    assert(after == kept.queued(event));
    let last = seq![event];
    assert(last.drop_last() =~= seq![]);
    assert(shown_text(last.drop_last()) =~= seq![]);
    assert(shown_text(last) =~= content);
    lemma_shown_together(opening, last);
    let events = opening + last;
    assert(after.pending =~= state.pending + sent_as(events));
    assert(shown_text(events) =~= content);
}

proof fn lemma_calls_show_nothing(state: ChatStreamView, calls: Seq<JsonView>, count: int)
    requires
        in_order(state),
        !state.completed,
    ensures
        ({
            let (after, open) = state.with_call_deltas(calls, count);
            &&& open == !after.completed
            &&& open ==> after.pending == state.pending && after.text == state.text
        }),
    decreases count,
{
    if 0 < count <= calls.len() {
        lemma_calls_show_nothing(state, calls, count - 1);
        lemma_call_deltas_goes_on(state, calls, count - 1);
        let (before, open) = state.with_call_deltas(calls, count - 1);
        if open {
            lemma_retained_limit_goes_on(before);
        }
    }
}

/// Where an upstream event does not end the stream, the events that are queued
/// add exactly the content of its delta to what the client shows.
#[verifier::spinoff_prover]
#[verifier::rlimit(40)]
pub proof fn law_events_show_what_was_said(state: ChatStreamView, value: JsonView)
    requires
        state.conclusive(),
        !state.completed,
        !state.with_event(value).completed,
    ensures
        shows(state, state.with_event(value), said_by(value)),
        state.with_event(value).text == state.text + said_by(value),
        state.with_event(value).conclusive(),
{
    let head = state.with_head(value);
    let delta = at(listed_choice(value), "delta"@);
    let content = nonempty_text(text_in(at(delta, "content"@)));
    lemma_event_goes_on(state, value);
    let none = Seq::<JsonView>::empty();
    if content is Some {
        let said = content->0;
        assert(said == said_by(value));
        lemma_delta_goes_on(head, said);
        let (after, open) = head.with_delta(said);
        if after.completed {
            assert(!open);
        }
        assert(!after.completed);
        law_pieces_of_text_are_shown_once(head, said);
        let events = choose|events: Seq<JsonView>| #[trigger]
            shown_text(events) == said && after.pending == head.pending + sent_as(events);
        assert(shown_text(events) == said && after.pending == state.pending + sent_as(events));
        assert(shows(state, after, said));
        if items_in(at(delta, "tool_calls"@)) is Some {
            let calls = items_in(at(delta, "tool_calls"@))->0;
            lemma_calls_show_nothing(after, calls, calls.len() as int);
        }
    } else {
        assert(said_by(value) =~= seq![]);
        assert(shown_text(none) =~= said_by(value));
        assert(state.text + said_by(value) =~= state.text);
        assert(state.pending + sent_as(none) =~= state.pending);
        assert(shows(state, head, said_by(value)));
        if items_in(at(delta, "tool_calls"@)) is Some {
            let calls = items_in(at(delta, "tool_calls"@))->0;
            lemma_calls_show_nothing(head, calls, calls.len() as int);
        }
    }
}

/// The piece of text that an event block brings.
pub open spec fn said_in(block: Seq<char>) -> Seq<char> {
    let data = event_data(block, false);
    if data.len() == 0 {
        seq![]
    } else {
        match parsed_json(encode_utf8(data)) {
            Ok(value) => said_by(value),
            Err(_) => seq![],
        }
    }
}

/// The text that the first event blocks of a list bring, piece by piece.
pub open spec fn said_in_all(blocks: Seq<Seq<char>>, count: int) -> Seq<char>
    decreases count,
{
    if !(0 < count <= blocks.len()) {
        seq![]
    } else {
        said_in_all(blocks, count - 1) + said_in(blocks[count - 1])
    }
}

/// A stream after the first event blocks of a list.
pub open spec fn after_blocks(
    state: ChatStreamView,
    blocks: Seq<Seq<char>>,
    count: int,
) -> ChatStreamView
    decreases count,
{
    if !(0 < count <= blocks.len()) {
        state
    } else {
        after_blocks(state, blocks, count - 1).with_block(blocks[count - 1])
    }
}

/// While a stream goes on, what the client shows of it is what was said: the
/// pieces of text that the event blocks brought, joined in their order, and this
/// is the text that is kept.
pub proof fn law_streams_show_what_was_said(
    state: ChatStreamView,
    blocks: Seq<Seq<char>>,
    count: int,
)
    requires
        state.conclusive(),
        !state.completed,
        0 <= count <= blocks.len(),
        forall|i: int|
            0 <= i < blocks.len() ==> trim(event_data(#[trigger] blocks[i], false)) != "[DONE]"@,
        !after_blocks(state, blocks, count).completed,
    ensures
        shows(state, after_blocks(state, blocks, count), said_in_all(blocks, count)),
        after_blocks(state, blocks, count).text == state.text + said_in_all(blocks, count),
        after_blocks(state, blocks, count).conclusive(),
    decreases count,
{
    if count == 0 {
        let none = Seq::<JsonView>::empty();
        assert(state.pending + sent_as(none) =~= state.pending);
        assert(shown_text(none) =~= said_in_all(blocks, count));
        assert(state.text + said_in_all(blocks, 0) =~= state.text);
    } else {
        reveal(ChatStreamView::with_block);
        let before = after_blocks(state, blocks, count - 1);
        let block = blocks[count - 1];
        let after = before.with_block(block);
        assert(trim(event_data(block, false)) != "[DONE]"@);
        if before.completed {
            assert(after == before);
        }
        law_streams_show_what_was_said(state, blocks, count - 1);
        let data = event_data(block, false);
        if data.len() > 0 && parsed_json(encode_utf8(data)) is Ok {
            law_events_show_what_was_said(before, parsed_json(encode_utf8(data))->Ok_0);
        } else {
            let none = Seq::<JsonView>::empty();
            assert(before.pending + sent_as(none) =~= before.pending);
            assert(shown_text(none) =~= said_in(block));
            assert(before.text + said_in(block) =~= before.text);
            assert(shows(before, after, said_in(block)));
        }
        lemma_show_in_turn(
            state,
            before,
            after,
            said_in_all(blocks, count - 1),
            said_in(block),
        );
        assert(state.text + said_in_all(blocks, count - 1) + said_in(block) =~= state.text
            + said_in_all(blocks, count));
    }
}

/// Whether an event says that the text of the response is complete, and which
/// text that is.
pub open spec fn completes_text(event: JsonView, said: Seq<char>) -> bool {
    event.get_text("type"@) == Some("response.output_text.done"@) && event.get_text("text"@)
        == Some(said)
}

/// Whether an event says that the response is complete, with a message that says
/// a text in front of its output.
pub open spec fn completes_response(event: JsonView, said: Seq<char>) -> bool {
    &&& event.get_text("type"@) == Some("response.completed"@)
    &&& event.get("response"@) matches Some(response) && response.get_text("status"@) == Some(
        "completed"@,
    ) && (response.get("output"@) matches Some(JsonView::Array(output)) && output.len() > 0
        && says_only(output[0], said))
}

/// Whether events end a stream whose text is complete: they add none to it, name
/// it in full, and the last of them says that the response is complete.
pub open spec fn close(events: Seq<JsonView>, said: Seq<char>) -> bool {
    &&& shown_text(events) == Seq::<char>::empty()
    &&& events.len() > 0
    &&& completes_response(events.last(), said)
    &&& exists|i: int| 0 <= i < events.len() && completes_text(#[trigger] events[i], said)
}

proof fn lemma_queued_all(state: ChatStreamView, events: Seq<JsonView>, count: int)
    requires
        state.started,
        !state.overflowed,
        0 <= count <= events.len(),
        state.emit_all(events, count).1,
    ensures
        state.emit_all(events, count).0.pending == state.pending + sent_as(events.take(count)),
    decreases count,
{
    if count == 0 {
        assert(state.pending + sent_as(events.take(0)) =~= state.pending);
    } else {
        let (before, sent) = state.emit_all(events, count - 1);
        lemma_queued_all(state, events, count - 1);
        lemma_emit_all_goes_on(state, events, count - 1);
        assert(state.pending + sent_as(events.take(count)) =~= (state.pending + sent_as(
            events.take(count - 1),
        )).push(event_bytes(events[count - 1])));
    }
}

/// The events that tell of calls add no text.
proof fn lemma_calls_events_hidden(
    calls: Seq<(usize, CallView)>,
    tools: Seq<ToolView>,
    count: int,
)
    ensures
        forall|i: int|
            0 <= i < calls_events(calls, tools, count).len() ==> shown_by(
                #[trigger] calls_events(calls, tools, count)[i],
            ).len() == 0,
    decreases count,
{
    if 0 < count <= calls.len() {
        lemma_calls_events_hidden(calls, tools, count - 1);
        let before = calls_events(calls, tools, count - 1);
        let more = call_events(calls[count - 1], count as nat, tools);
        lemma_call_events_hidden(calls[count - 1], count as nat, tools);
        let all = calls_events(calls, tools, count);
        assert forall|i: int| 0 <= i < all.len() implies shown_by(#[trigger] all[i]).len() == 0 by {
            if i < before.len() {
                assert(all[i] == before[i]);
            } else {
                assert(all[i] == more[i - before.len()]);
            }
        }
    }
}

#[verifier::spinoff_prover]
proof fn lemma_call_events_hidden(
    call: (usize, CallView),
    output_index: nat,
    tools: Seq<ToolView>,
)
    ensures
        forall|i: int|
            0 <= i < call_events(call, output_index, tools).len() ==> shown_by(
                #[trigger] call_events(call, output_index, tools)[i],
            ).len() == 0,
{
    broadcast use crate::json::lemma_entry_field;

    reveal_strlit("response.output_text.delta");
    reveal_strlit("response.output_item.added");
    reveal_strlit("response.output_item.done");
    reveal_strlit("response.custom_tool_call_input.done");
    reveal_strlit("response.custom_tool_call_input.delta");
    reveal_strlit("response.function_call_arguments.delta");
    reveal_strlit("response.function_call_arguments.done");
    assert("response.output_text.delta"@.len() == 26);
    assert("response.output_item.added"@.len() == 26);
    assert("response.output_item.done"@.len() == 25);
    assert("response.custom_tool_call_input.done"@.len() == 36);
    assert("response.custom_tool_call_input.delta"@.len() == 37);
    assert("response.function_call_arguments.delta"@.len() == 38);
    assert("response.function_call_arguments.done"@.len() == 37);
    assert("response.output_text.delta"@[16] != "response.output_item.added"@[16]);
    assert("response.custom_tool_call_input.delta"@[9] != "response.function_call_arguments.done"@[9]);
    let all = call_events(call, output_index, tools);
    let inner = argument_events(call, output_index, tools);
    assert forall|i: int| 0 <= i < inner.len() implies shown_by(#[trigger] inner[i]).len() == 0 by {
        assert(inner[i].get("type"@) is Some);
        assert(inner[i].get("type"@) != Some(JsonView::Text("response.output_text.delta"@)));
    }
    assert forall|i: int| 0 <= i < all.len() implies shown_by(#[trigger] all[i]).len() == 0 by {
        if i == 0 {
            lemma_not_shown(all[i], "response.output_item.added"@);
        } else if i <= inner.len() {
            assert(all[i] == inner[i - 1]);
        } else {
            lemma_not_shown(all[i], "response.output_item.done"@);
        }
    }
}

/// A stream that is completed names the text that is kept of it in full, adds
/// none to what the client shows, and ends with the complete response, whose
/// first output item says this text.
#[verifier::spinoff_prover]
pub proof fn law_completed_streams_name_their_text(state: ChatStreamView)
    requires
        state.conclusive(),
        !state.completed,
        !state.finish().overflowed,
    ensures
        state.finish().completed,
        exists|events: Seq<JsonView>| #[trigger]
            close(events, state.text) && state.finish().pending == state.pending + sent_as(events),
{
    broadcast use crate::json::lemma_entry_field;

    reveal_strlit("type");
    reveal_strlit("output_index");
    reveal_strlit("content_index");
    reveal_strlit("text");
    reveal_strlit("part");
    reveal_strlit("item");
    reveal_strlit("response");
    reveal_strlit("id");
    reveal_strlit("object");
    reveal_strlit("created_at");
    reveal_strlit("status");
    reveal_strlit("model");
    reveal_strlit("output");
    reveal_strlit("usage");
    assert("type"@.len() == 4);
    assert("output_index"@.len() == 12);
    assert("content_index"@.len() == 13);
    assert("text"@.len() == 4);
    assert("part"@.len() == 4);
    assert("item"@.len() == 4);
    assert("response"@.len() == 8);
    assert("id"@.len() == 2);
    assert("object"@.len() == 6);
    assert("created_at"@.len() == 10);
    assert("status"@.len() == 6);
    assert("model"@.len() == 5);
    assert("output"@.len() == 6);
    assert("usage"@.len() == 5);
    assert("type"@[1] != "text"@[1]);
    assert("type"@[0] != "part"@[0]);
    assert("type"@[0] != "item"@[0]);
    assert("text"@[0] != "part"@[0]);
    assert("text"@[0] != "item"@[0]);
    assert("part"@[0] != "item"@[0]);
    assert("object"@[0] != "status"@[0]);
    assert("object"@[1] != "output"@[1]);
    assert("status"@[0] != "output"@[0]);
    assert("model"@[0] != "usage"@[0]);
    reveal_strlit("response.output_text.delta");
    reveal_strlit("response.output_text.done");
    reveal_strlit("response.content_part.done");
    reveal_strlit("response.output_item.done");
    reveal_strlit("response.completed");
    assert("response.output_text.delta"@.len() == 26);
    assert("response.output_text.done"@.len() == 25);
    assert("response.content_part.done"@.len() == 26);
    assert("response.output_item.done"@.len() == 25);
    assert("response.completed"@.len() == 18);
    assert("response.output_text.delta"@[9] != "response.content_part.done"@[9]);
    assert("response.output_text.done"@[16] != "response.output_item.done"@[16]);
    lemma_start_goes_on(state);
    let (begun, open) = state.start(false);
    let opening = lemma_start_shows(state);
    assert(open);
    let closing = begun.closing_events();
    lemma_emit_all_goes_on(begun, closing, closing.len() as int);
    lemma_queued_all(begun, closing, closing.len() as int);
    assert(closing.take(closing.len() as int) =~= closing);
    let named = begun.named();
    let told = calls_events(named, begun.tools, named.len() as int);
    lemma_calls_events_hidden(named, begun.tools, named.len() as int);
    let last = begun.completed_event();
    assert(closing.last() == last);
    assert forall|i: int| 0 <= i < closing.len() implies shown_by(
        #[trigger] closing[i],
    ).len() == 0 by {
        if i == 0 {
            lemma_not_shown(closing[i], "response.output_text.done"@);
        } else if i == 1 {
            lemma_not_shown(closing[i], "response.content_part.done"@);
        } else if i == 2 {
            lemma_not_shown(closing[i], "response.output_item.done"@);
        } else if i < 3 + told.len() {
            assert(closing[i] == told[i - 3]);
        } else {
            lemma_not_shown(closing[i], "response.completed"@);
        }
    }
    lemma_nothing_shown(closing);
    lemma_shown_together(opening, closing);
    let events = opening + closing;
    assert(shown_text(events) =~= Seq::<char>::empty());
    let done = closing[0];
    assert(done.get("text"@) == Some(JsonView::Text(state.text)));
    assert(done.get("type"@) == Some(JsonView::Text("response.output_text.done"@)));
    assert(events[opening.len() as int] == done);
    assert(completes_text(events[opening.len() as int], state.text));
    let response = begun.full_response();
    assert(last.get("response"@) == Some(response));
    assert(last.get("type"@) == Some(JsonView::Text("response.completed"@)));
    assert(response.get("status"@) == Some(JsonView::Text("completed"@)));
    let output = seq![begun.full_message()] + stream_call_items(named, begun.tools);
    assert(response.get("output"@) == Some(JsonView::Array(output)));
    law_messages_say_their_text(state.text);
    assert(output[0] == begun.full_message());
    assert(events.last() == last);
    assert(state.finish().pending =~= state.pending + sent_as(events));
    assert(close(events, state.text));
}

/// What a client shows of a stream that is completed is what was said: the pieces
/// of text that the event blocks brought, joined in their order, are what the
/// events add, what the event names that completes the text, and what the message
/// of the complete response says.
pub proof fn law_completed_streams_show_what_was_said(
    state: ChatStreamView,
    blocks: Seq<Seq<char>>,
)
    requires
        state.conclusive(),
        !state.completed,
        state.text.len() == 0,
        forall|i: int|
            0 <= i < blocks.len() ==> trim(event_data(#[trigger] blocks[i], false)) != "[DONE]"@,
        !after_blocks(state, blocks, blocks.len() as int).completed,
        !after_blocks(state, blocks, blocks.len() as int).finish().overflowed,
    ensures
        ({
            let said = said_in_all(blocks, blocks.len() as int);
            let before = after_blocks(state, blocks, blocks.len() as int);
            &&& shows(state, before, said)
            &&& shows(state, before.finish(), said)
            &&& exists|events: Seq<JsonView>| #[trigger]
                close(events, said) && before.finish().pending == before.pending + sent_as(events)
        }),
{
    let said = said_in_all(blocks, blocks.len() as int);
    let before = after_blocks(state, blocks, blocks.len() as int);
    law_streams_show_what_was_said(state, blocks, blocks.len() as int);
    assert(state.text + said =~= said);
    law_completed_streams_name_their_text(before);
    let events = choose|events: Seq<JsonView>| #[trigger]
        close(events, said) && before.finish().pending == before.pending + sent_as(events);
    assert(shown_text(events) == Seq::<char>::empty());
    assert(shows(before, before.finish(), Seq::<char>::empty()));
    lemma_show_in_turn(state, before, before.finish(), said, Seq::<char>::empty());
    assert(said + Seq::<char>::empty() =~= said);
}

proof fn lemma_named_kept(calls: Seq<(usize, CallView)>, count: int, index: int) -> (place: int)
    requires
        0 <= index < count <= calls.len(),
        trim(calls[index].1.name).len() > 0,
    ensures
        0 <= place < named_calls(calls, count).len(),
        named_calls(calls, count)[place] == calls[index],
    decreases count,
{
    if index == count - 1 {
        named_calls(calls, count).len() - 1
    } else {
        lemma_named_kept(calls, count - 1, index)
    }
}

proof fn lemma_named_only(calls: Seq<(usize, CallView)>, count: int)
    ensures
        named_calls(calls, count).len() <= calls.len(),
        named_calls(calls, count).len() <= count || count < 0,
        forall|i: int|
            0 <= i < named_calls(calls, count).len() ==> calls.contains(
                #[trigger] named_calls(calls, count)[i],
            ) && trim(named_calls(calls, count)[i].1.name).len() > 0,
    decreases count,
{
    if 0 < count <= calls.len() {
        lemma_named_only(calls, count - 1);
        let all = named_calls(calls, count);
        let before = named_calls(calls, count - 1);
        assert forall|i: int| 0 <= i < all.len() implies calls.contains(#[trigger] all[i]) && trim(
            all[i].1.name,
        ).len() > 0 by {
            if i < before.len() {
                assert(all[i] == before[i]);
            } else {
                assert(all[i] == calls[count - 1]);
            }
        }
    }
}

/// Every call that was made in a stream and has a name is an output item of the
/// complete response, under its own identifier, by its name and with the
/// arguments that arrived for it; the response has no other output but the
/// message.
pub proof fn law_completed_responses_hold_every_call(state: ChatStreamView, index: int)
    requires
        0 <= index < state.calls.len(),
        trim(state.calls[index].1.name).len() > 0,
        state.calls[index].1.call_id.len() > 0,
    ensures
        ({
            let call = state.calls[index].1;
            let response = state.full_response();
            &&& response.get("output"@) matches Some(JsonView::Array(output)) && output.len()
                <= state.calls.len() + 1 && exists|i: int|
                {
                    &&& 0 < i < output.len()
                    &&& (#[trigger] output[i]).get_text("call_id"@) == Some(call.call_id)
                    &&& tool_named(state.tools, call.name) is None ==> calls_function(
                        output[i],
                        call.call_id,
                        call.name,
                        call.arguments,
                    )
                    &&& (tool_named(state.tools, call.name) matches Some(tool)
                        && tool.kind is Function) ==> calls_function(
                        output[i],
                        call.call_id,
                        tool_named(state.tools, call.name)->0.name,
                        call.arguments,
                    )
                }
        }),
{
    broadcast use crate::json::lemma_entry_field;

    reveal_strlit("id");
    reveal_strlit("object");
    reveal_strlit("created_at");
    reveal_strlit("status");
    reveal_strlit("model");
    reveal_strlit("output");
    reveal_strlit("usage");
    assert("id"@.len() == 2);
    assert("object"@.len() == 6);
    assert("created_at"@.len() == 10);
    assert("status"@.len() == 6);
    assert("model"@.len() == 5);
    assert("output"@.len() == 6);
    assert("usage"@.len() == 5);
    assert("object"@[0] != "status"@[0]);
    assert("object"@[1] != "output"@[1]);
    assert("status"@[0] != "output"@[0]);
    assert("model"@[0] != "usage"@[0]);
    let call = state.calls[index].1;
    let named = state.named();
    lemma_named_only(state.calls, state.calls.len() as int);
    let place = lemma_named_kept(state.calls, state.calls.len() as int, index);
    let items = stream_call_items(named, state.tools);
    let output = seq![state.full_message()] + items;
    let response = state.full_response();
    assert(response.get("output"@) == Some(JsonView::Array(output)));
    law_calls_come_back_as_they_were_offered(
        call.call_id,
        call.name,
        call.arguments,
        "completed"@,
        state.tools,
    );
    let item = tool_call_item(
        call.call_id,
        call.name,
        call.arguments,
        "completed"@,
        state.tools,
    );
    assert(named[place] == state.calls[index]);
    assert(items[place] == item);
    assert(output[place + 1] == item);
    assert(output.len() <= state.calls.len() + 1);
}

/// The events that tell of the call of a function say that it was added and that
/// it is done, and the arguments that they bring are those that arrived for it,
/// once in pieces and once in full.
#[verifier::spinoff_prover]
pub proof fn law_events_bring_the_arguments_of_calls(
    call: (usize, CallView),
    output_index: nat,
    tools: Seq<ToolView>,
)
    requires
        call.1.call_id.len() > 0,
        !(tool_named(tools, call.1.name) matches Some(tool) && tool.kind is Custom),
    ensures
        ({
            let events = call_events(call, output_index, tools);
            let item_id = "fc_"@ + call.1.call_id;
            &&& events.len() == 4
            &&& events[0].get_text("type"@) == Some("response.output_item.added"@)
            &&& events[1].get_text("type"@) == Some("response.function_call_arguments.delta"@)
            &&& events[1].get_text("item_id"@) == Some(item_id)
            &&& events[1].get_text("delta"@) == Some(call.1.arguments)
            &&& events[2].get_text("type"@) == Some("response.function_call_arguments.done"@)
            &&& events[2].get_text("item_id"@) == Some(item_id)
            &&& events[2].get_text("arguments"@) == Some(call.1.arguments)
            &&& events[3].get_text("type"@) == Some("response.output_item.done"@)
            &&& events[3].get("item"@) matches Some(item) && item.get_text("call_id"@) == Some(
                call.1.call_id,
            )
        }),
{
    broadcast use crate::json::lemma_entry_field;

    reveal_strlit("type");
    reveal_strlit("item_id");
    reveal_strlit("output_index");
    reveal_strlit("delta");
    reveal_strlit("arguments");
    reveal_strlit("item");
    assert("type"@.len() == 4);
    assert("item_id"@.len() == 7);
    assert("output_index"@.len() == 12);
    assert("delta"@.len() == 5);
    assert("arguments"@.len() == 9);
    assert("item"@.len() == 4);
    assert("type"@[0] != "item"@[0]);
    law_calls_come_back_as_they_were_offered(
        call.1.call_id,
        call.1.name,
        call.1.arguments,
        "completed"@,
        tools,
    );
    let events = call_events(call, output_index, tools);
    let inner = argument_events(call, output_index, tools);
    assert(inner.len() == 2);
    assert(events[1] == inner[0] && events[2] == inner[1]);
    assert(events[0].get("type"@) == Some(JsonView::Text("response.output_item.added"@)));
    assert(events[1].get("type"@) == Some(
        JsonView::Text("response.function_call_arguments.delta"@),
    ));
    assert(events[1].get("item_id"@) == Some(JsonView::Text("fc_"@ + call.1.call_id)));
    assert(events[1].get("delta"@) == Some(JsonView::Text(call.1.arguments)));
    assert(events[2].get("type"@) == Some(
        JsonView::Text("response.function_call_arguments.done"@),
    ));
    assert(events[2].get("item_id"@) == Some(JsonView::Text("fc_"@ + call.1.call_id)));
    assert(events[2].get("arguments"@) == Some(JsonView::Text(call.1.arguments)));
    assert(events[3].get("type"@) == Some(JsonView::Text("response.output_item.done"@)));
    assert(events[3].get("item"@) is Some);
}

/// A custom tool gets its input: the event that completes it names the text
/// `input` of the arguments, or the arguments where they hold none.
pub proof fn law_events_bring_the_input_of_custom_tools(
    call: (usize, CallView),
    output_index: nat,
    tools: Seq<ToolView>,
)
    requires
        call.1.call_id.len() > 0,
        tool_named(tools, call.1.name) matches Some(tool) && tool.kind is Custom,
    ensures
        ({
            let done = argument_events(call, output_index, tools).last();
            &&& done.get_text("type"@) == Some("response.custom_tool_call_input.done"@)
            &&& done.get_text("item_id"@) == Some("ctc_"@ + call.1.call_id)
            &&& match parsed_json(encode_utf8(call.1.arguments)) {
                Ok(value) => value.get_text("input"@) is Some ==> done.get_text("input"@)
                    == value.get_text("input"@),
                Err(_) => done.get_text("input"@) == Some(call.1.arguments),
            }
        }),
{
    broadcast use crate::json::lemma_entry_field;

    reveal_strlit("type");
    reveal_strlit("item_id");
    reveal_strlit("output_index");
    reveal_strlit("input");
    assert("type"@.len() == 4);
    assert("item_id"@.len() == 7);
    assert("output_index"@.len() == 12);
    assert("input"@.len() == 5);
    let done = argument_events(call, output_index, tools).last();
    assert(done.get("type"@) == Some(JsonView::Text("response.custom_tool_call_input.done"@)));
    assert(done.get("item_id"@) == Some(JsonView::Text("ctc_"@ + call.1.call_id)));
    assert(done.get("input"@) is Some);
}

/// The conversation that a stream ends goes on with what was said in it: the
/// messages of the request, and behind them one of the assistant with the text
/// and the calls that arrived.
pub proof fn law_streamed_conversations_end_with_the_answer(state: ChatStreamView, index: int)
    ensures
        ({
            let entry = state.conversation();
            let last = entry.messages.last();
            &&& entry.tools == state.tools
            &&& entry.messages.len() == state.messages.len() + 1
            &&& entry.messages.drop_last() == state.messages
            &&& last.get_text("role"@) == Some("assistant"@)
            &&& state.text.len() > 0 ==> last.get_text("content"@) == Some(state.text)
            &&& (0 <= index < state.calls.len() && trim(state.calls[index].1.name).len() > 0
                && state.calls[index].1.call_id.len() > 0) ==> exists|list: Seq<JsonView>, i: int|
                #[trigger] makes(last, list) && 0 <= i < list.len() && calls(
                    #[trigger] list[i],
                    state.calls[index].1.call_id,
                    state.calls[index].1.name,
                    state.calls[index].1.arguments,
                )
            &&& state.calls.len() == 0 ==> last.get("tool_calls"@) is None
        }),
{
    broadcast use {crate::json::lemma_entry_field, crate::json::lemma_with_field};

    reveal_strlit("role");
    reveal_strlit("content");
    reveal_strlit("tool_calls");
    reveal_strlit("id");
    reveal_strlit("type");
    reveal_strlit("function");
    reveal_strlit("name");
    reveal_strlit("arguments");
    assert("role"@.len() == 4);
    assert("content"@.len() == 7);
    assert("tool_calls"@.len() == 10);
    assert("id"@.len() == 2);
    assert("type"@.len() == 4);
    assert("function"@.len() == 8);
    assert("name"@.len() == 4);
    assert("arguments"@.len() == 9);
    assert("role"@[0] != "type"@[0]);
    assert("role"@[0] != "name"@[0]);
    assert("type"@[0] != "name"@[0]);
    let entry = state.conversation();
    assert(entry.messages.drop_last() =~= state.messages);
    lemma_named_only(state.calls, state.calls.len() as int);
    let content = if state.text.len() > 0 {
        JsonView::Text(state.text)
    } else {
        JsonView::Null
    };
    let plain = message("assistant"@, content);
    assert(plain.get("role"@) == Some(JsonView::Text("assistant"@)));
    assert(plain.get("content"@) == Some(content));
    assert(plain.get("tool_calls"@) is None);
    let list = spoken_calls(state.named());
    let called = plain.with("tool_calls"@, JsonView::Array(list));
    let last = entry.messages.last();
    assert(last == if list.len() > 0 {
        called
    } else {
        plain
    });
    assert(state.text.len() > 0 ==> last.get_text("content"@) == Some(state.text));
    assert(last.get_text("role"@) == Some("assistant"@));
    assert(state.calls.len() == 0 ==> last.get("tool_calls"@) is None);
    assert(called.get("role"@) == Some(JsonView::Text("assistant"@)));
    assert(called.get("content"@) == Some(content));
    if 0 <= index < state.calls.len() && trim(state.calls[index].1.name).len() > 0
        && state.calls[index].1.call_id.len() > 0 {
        let call = state.calls[index].1;
        let place = lemma_named_kept(state.calls, state.calls.len() as int, index);
        let made = function_call(call.call_id, call.name, call.arguments);
        let inner = obj().entry("name"@, JsonView::Text(call.name)).entry(
            "arguments"@,
            JsonView::Text(call.arguments),
        );
        assert(inner.get("name"@) == Some(JsonView::Text(call.name)));
        assert(inner.get("arguments"@) == Some(JsonView::Text(call.arguments)));
        assert(made.get("id"@) == Some(JsonView::Text(call.call_id)));
        assert(made.get("type"@) == Some(JsonView::Text("function"@)));
        assert(made.get("function"@) == Some(inner));
        assert(list[place] == made);
        assert(entry.messages.last() == called);
        assert(called.get("tool_calls"@) == Some(JsonView::Array(list)));
        assert(makes(last, list));
        assert(calls(list[place], call.call_id, call.name, call.arguments));
    }
}

/// What an upstream event says of the response as a whole is taken over: its
/// identifier, its model, its time, its counts of tokens, and that it is coming to
/// an end. What it does not say stays.
pub proof fn law_heads_are_taken_over(state: ChatStreamView, value: JsonView)
    ensures
        ({
            let after = state.with_head(value);
            &&& value.get_text("id"@) matches Some(id) ==> ends(after.response_id, id) && begins(
                after.response_id,
                "resp_"@,
            )
            &&& value.get("id"@) is None ==> after.response_id == state.response_id
            &&& after.model == (match value.get_text("model"@) {
                Some(model) => model,
                None => state.model,
            })
            &&& match value.get("created"@) {
                Some(created) => created.signed() is Some ==> Some(after.created_at)
                    == created.signed(),
                None => after.created_at == state.created_at,
            }
            &&& value.get("usage"@) is None || value.get("usage"@) == Some(JsonView::Null)
                ==> after.usage == state.usage
            &&& (value.get("usage"@) matches Some(usage) && usage is Object) ==> after.usage
                == response_usage(value.get("usage"@))
            &&& state.terminal_seen ==> after.terminal_seen
            &&& (value.get("choices"@) matches Some(JsonView::Array(choices)) && choices.len() > 0
                && choices[0].get_text("finish_reason"@) is Some) ==> after.terminal_seen
            &&& value.get("choices"@) is None ==> after.terminal_seen == state.terminal_seen
            &&& after.text == state.text && after.calls == state.calls && after.pending
                == state.pending
        }),
{
    reveal_strlit("resp_");
    if let Some(id) = value.get_text("id"@) {
        let made = response_id(id);
        assert(made.skip(made.len() - id.len()) =~= id);
        assert(made.take(5) =~= "resp_"@);
    }
}

/// The complete response names the identifier, the model, the time and the counts
/// of tokens that were taken over.
pub proof fn law_complete_responses_hold_their_head(state: ChatStreamView)
    ensures
        ({
            let response = state.full_response();
            &&& response.get_text("id"@) == Some(state.response_id)
            &&& response.get_text("object"@) == Some("response"@)
            &&& response.get_text("model"@) == Some(state.model)
            &&& response.get("created_at"@) matches Some(time) && time.signed() == Some(
                state.created_at,
            )
            &&& response.get("usage"@) == Some(state.usage)
        }),
{
    broadcast use crate::json::lemma_entry_field;

    reveal_strlit("id");
    reveal_strlit("object");
    reveal_strlit("created_at");
    reveal_strlit("status");
    reveal_strlit("model");
    reveal_strlit("output");
    reveal_strlit("usage");
    assert("id"@.len() == 2);
    assert("object"@.len() == 6);
    assert("created_at"@.len() == 10);
    assert("status"@.len() == 6);
    assert("model"@.len() == 5);
    assert("output"@.len() == 6);
    assert("usage"@.len() == 5);
    assert("object"@[0] != "status"@[0]);
    assert("object"@[1] != "output"@[1]);
    assert("status"@[0] != "output"@[0]);
    assert("model"@[0] != "usage"@[0]);
    let response = state.full_response();
    assert(response.get("id"@) == Some(JsonView::Text(state.response_id)));
    assert(response.get("object"@) == Some(JsonView::Text("response"@)));
    assert(response.get("model"@) == Some(JsonView::Text(state.model)));
    assert(response.get("created_at"@) == Some(integer_view(state.created_at)));
}

/// A stream that fails says so to the client, with the reason, and the response
/// that it names has failed and is not complete.
pub proof fn law_failures_name_their_reason(state: ChatStreamView, detail: Seq<char>)
    ensures
        ({
            let event = state.failed_event(detail);
            &&& event.get_text("type"@) == Some("response.failed"@)
            &&& event.get("response"@) matches Some(response) && response.get_text("status"@)
                == Some("failed"@) && response.get_text("id"@) == Some(state.response_id) && (
            response.get("error"@) matches Some(error) && error.get_text("message"@) == Some(detail)
                && error.get_text("code"@) == Some("upstream_stream_incomplete"@))
        }),
{
    broadcast use {crate::json::lemma_entry_field, crate::json::lemma_with_field};

    reveal_strlit("type");
    reveal_strlit("response");
    reveal_strlit("id");
    reveal_strlit("object");
    reveal_strlit("created_at");
    reveal_strlit("status");
    reveal_strlit("model");
    reveal_strlit("output");
    reveal_strlit("usage");
    reveal_strlit("error");
    reveal_strlit("code");
    reveal_strlit("message");
    assert("type"@.len() == 4);
    assert("response"@.len() == 8);
    assert("id"@.len() == 2);
    assert("object"@.len() == 6);
    assert("created_at"@.len() == 10);
    assert("status"@.len() == 6);
    assert("model"@.len() == 5);
    assert("output"@.len() == 6);
    assert("usage"@.len() == 5);
    assert("error"@.len() == 5);
    assert("code"@.len() == 4);
    assert("message"@.len() == 7);
    assert("type"@[0] != "code"@[0]);
    assert("object"@[0] != "status"@[0]);
    assert("object"@[1] != "output"@[1]);
    assert("status"@[0] != "output"@[0]);
    assert("model"@[0] != "usage"@[0]);
    assert("model"@[0] != "error"@[0]);
    assert("usage"@[0] != "error"@[0]);
    let partial = state.partial_response("failed"@);
    assert(partial.get("status"@) == Some(JsonView::Text("failed"@)));
    assert(partial.get("id"@) == Some(JsonView::Text(state.response_id)));
    let error = obj().entry("code"@, JsonView::Text("upstream_stream_incomplete"@)).entry(
        "message"@,
        JsonView::Text(detail),
    );
    assert(error.get("message"@) == Some(JsonView::Text(detail)));
    assert(error.get("code"@) == Some(JsonView::Text("upstream_stream_incomplete"@)));
    let event = state.failed_event(detail);
    assert(event.get("response"@) == Some(partial.with("error"@, error)));
    assert(event.get("type"@) == Some(JsonView::Text("response.failed"@)));
}

/// A stream that ends without a sign that it was complete has failed; one that
/// ends after such a sign is completed.
pub proof fn law_cut_streams_fail(state: ChatStreamView)
    requires
        state.conclusive(),
        !state.completed,
        state.buffer.len() == 0,
        state.max_frame_bytes > 0,
        !state.end().overflowed,
    ensures
        state.end().notices.last() is Completed <==> state.terminal_seen,
        state.end().notices.last() is Failed <==> !state.terminal_seen,
{
    if first_boundary(state.buffer, true) is Some {
        lemma_boundary_bounds(state.buffer, 0, true);
    }
    assert(state.drain(true) == state);
    if state.terminal_seen {
        lemma_start_goes_on(state);
        let (begun, open) = state.start(false);
        if open {
            let events = begun.closing_events();
            lemma_emit_all_goes_on(begun, events, events.len() as int);
        }
    } else {
        let detail = "上游流在完成事件前中断"@;
        lemma_start_goes_on(state);
        let (begun, open) = state.start(false);
        if open {
            let ended = ChatStreamView { completed: true, ..begun };
            lemma_emit_goes_on(ended, ended.failed_event(detail));
        }
    }
}

/// The mark that a stream is done completes it.
pub proof fn law_done_streams_are_completed(state: ChatStreamView, block: Seq<char>)
    requires
        state.conclusive(),
        !state.completed,
        trim(event_data(block, false)) == "[DONE]"@,
        event_data(block, false).len() > 0,
        !state.with_block(block).overflowed,
    ensures
        state.with_block(block).completed,
        state.with_block(block).notices.len() == state.notices.len() + 1,
        state.with_block(block).notices.last() is Completed,
        exists|events: Seq<JsonView>| #[trigger]
            close(events, state.text) && state.with_block(block).pending == state.pending + sent_as(
                events,
            ),
{
    reveal(ChatStreamView::with_block);
    let marked = ChatStreamView { terminal_seen: true, ..state };
    assert(state.with_block(block) == marked.finish());
    lemma_start_goes_on(marked);
    let (begun, open) = marked.start(false);
    if open {
        let events = begun.closing_events();
        lemma_emit_all_goes_on(begun, events, events.len() as int);
    }
    law_completed_streams_name_their_text(marked);
    let events = choose|events: Seq<JsonView>| #[trigger]
        close(events, marked.text) && marked.finish().pending == marked.pending + sent_as(events);
    assert(close(events, state.text));
}

/// An event block that arrives in full is followed at once, and nothing of it is
/// held back.
pub proof fn law_blocks_that_arrive_are_followed(state: ChatStreamView, chunk: Seq<u8>, end: int)
    requires
        state.buffer.len() == 0,
        !state.stopped,
        first_boundary(chunk, false) == Some((end, chunk.len() as int)),
        chunk.len() < state.max_frame_bytes,
    ensures
        state.push(chunk) == state.with_block(utf8_lossy(chunk.take(end))),
{
    lemma_boundary_bounds(chunk, 0, false);
    let block = utf8_lossy(chunk.take(end));
    let none = Seq::<u8>::empty();
    assert(state.buffer =~= none);
    assert(state.buffer + chunk.take(chunk.len() as int) =~= chunk);
    assert(chunk.skip(chunk.len() as int) =~= none);
    assert(holding(state, none) == state);
    lemma_filling_push(state, chunk, chunk.len() as int);
    let filled = holding(state, chunk);
    law_blocks_keep_the_stream_well_formed(state, block);
    let after = state.with_block(block);
    assert(after.buffer.len() == 0);
    assert(first_boundary(after.buffer, false) is None);
    assert(after.drain(false) == after);
    assert(filled.drain(false) == after);
    lemma_idle_push(after, none);
}

/// Whether events announce a response, the message in it and the text in that,
/// each under way and empty.
pub open spec fn announce(events: Seq<JsonView>, id: Seq<char>, model: Seq<char>) -> bool {
    &&& events.len() == 3
    &&& events[0].get_text("type"@) == Some("response.created"@)
    &&& events[0].get("response"@) matches Some(response) && response.get_text("id"@) == Some(id)
        && response.get_text("status"@) == Some("in_progress"@) && response.get_text("model"@)
        == Some(model)
    &&& events[1].get_text("type"@) == Some("response.output_item.added"@)
    &&& events[1].get("item"@) matches Some(item) && item.get_text("type"@) == Some("message"@)
        && item.get_text("status"@) == Some("in_progress"@)
    &&& events[2].get_text("type"@) == Some("response.content_part.added"@)
    &&& events[2].get("part"@) matches Some(inner) && inner.get_text("text"@) == Some(
        Seq::<char>::empty(),
    )
}

/// A stream begins with the announcement of its response, of the message in it and
/// of the text in that, before anything else; each is under way and empty.
pub proof fn law_streams_begin_with_an_announcement(state: ChatStreamView)
    requires
        state.conclusive(),
        !state.completed,
        !state.started,
        state.start(false).1,
    ensures
        exists|events: Seq<JsonView>| #[trigger]
            announce(events, state.start(false).0.response_id, state.model) && state.start(
                false,
            ).0.pending == state.pending + sent_as(events),
{
    broadcast use crate::json::lemma_entry_field;

    reveal_strlit("type");
    reveal_strlit("response");
    reveal_strlit("id");
    reveal_strlit("object");
    reveal_strlit("created_at");
    reveal_strlit("status");
    reveal_strlit("model");
    reveal_strlit("output");
    reveal_strlit("usage");
    reveal_strlit("output_index");
    reveal_strlit("item");
    reveal_strlit("role");
    reveal_strlit("content");
    reveal_strlit("content_index");
    reveal_strlit("part");
    reveal_strlit("text");
    reveal_strlit("annotations");
    assert("type"@.len() == 4);
    assert("response"@.len() == 8);
    assert("id"@.len() == 2);
    assert("object"@.len() == 6);
    assert("created_at"@.len() == 10);
    assert("status"@.len() == 6);
    assert("model"@.len() == 5);
    assert("output"@.len() == 6);
    assert("usage"@.len() == 5);
    assert("output_index"@.len() == 12);
    assert("item"@.len() == 4);
    assert("role"@.len() == 4);
    assert("content"@.len() == 7);
    assert("content_index"@.len() == 13);
    assert("part"@.len() == 4);
    assert("text"@.len() == 4);
    assert("annotations"@.len() == 11);
    assert("type"@[0] != "item"@[0]);
    assert("type"@[0] != "role"@[0]);
    assert("type"@[0] != "part"@[0]);
    assert("type"@[1] != "text"@[1]);
    assert("object"@[0] != "status"@[0]);
    assert("object"@[1] != "output"@[1]);
    assert("status"@[0] != "output"@[0]);
    assert("model"@[0] != "usage"@[0]);
    assert("item"@[0] != "role"@[0]);
    assert("item"@[0] != "part"@[0]);
    assert("item"@[0] != "text"@[0]);
    assert("role"@[0] != "part"@[0]);
    assert("role"@[0] != "text"@[0]);
    assert("part"@[0] != "text"@[0]);
    let begun = ChatStreamView {
        response_id: if state.response_id == "resp_codex_companion"@ {
            stable_id(state.identity())
        } else {
            state.response_id
        },
        started: true,
        ..state
    };
    let partial = begun.partial_response("in_progress"@);
    let created = obj().entry("type"@, JsonView::Text("response.created"@)).entry(
        "response"@,
        partial,
    );
    let item = message_item("in_progress"@, seq![]);
    let added = obj().entry("type"@, JsonView::Text("response.output_item.added"@)).entry(
        "output_index"@,
        count_view(0),
    ).entry("item"@, item);
    let inner = output_text(seq![]);
    let part = obj().entry("type"@, JsonView::Text("response.content_part.added"@)).entry(
        "output_index"@,
        count_view(0),
    ).entry("content_index"@, count_view(0)).entry("part"@, inner);
    lemma_emit_goes_on(begun, created);
    let first = begun.emit(created, false).0;
    lemma_emit_goes_on(first, added);
    let second = first.emit(added, false).0;
    lemma_emit_goes_on(second, part);
    assert(partial.get("id"@) == Some(JsonView::Text(begun.response_id)));
    assert(partial.get("status"@) == Some(JsonView::Text("in_progress"@)));
    assert(partial.get("model"@) == Some(JsonView::Text(state.model)));
    assert(created.get("type"@) == Some(JsonView::Text("response.created"@)));
    assert(created.get("response"@) == Some(partial));
    assert(item.get("type"@) == Some(JsonView::Text("message"@)));
    assert(item.get("status"@) == Some(JsonView::Text("in_progress"@)));
    assert(added.get("type"@) == Some(JsonView::Text("response.output_item.added"@)));
    assert(added.get("item"@) == Some(item));
    assert(inner.get("text"@) == Some(JsonView::Text(Seq::<char>::empty())));
    assert(part.get("type"@) == Some(JsonView::Text("response.content_part.added"@)));
    assert(part.get("part"@) == Some(inner));
    let events = seq![created, added, part];
    let after = state.start(false).0;
    assert(after == begun.queued(created).queued(added).queued(part));
    assert(after.response_id == begun.response_id);
    assert(announce(events, after.response_id, state.model));
    assert(after.pending =~= state.pending + sent_as(events));
}

/// A piece of a tool call reaches the call that it belongs to: what an upstream
/// event brings of a call goes behind what came before, and is told of when the
/// stream is completed.
pub proof fn law_calls_are_gathered(
    state: ChatStreamView,
    value: JsonView,
    choices: Seq<JsonView>,
    delta: JsonView,
    tool_call: JsonView,
    index: usize,
)
    requires
        state.accounted(),
        state.conclusive(),
        !state.completed,
        value.get("choices"@) == Some(JsonView::Array(choices)),
        choices.len() > 0,
        choices[0].get("delta"@) == Some(delta),
        delta.get("content"@) is None,
        delta.get("tool_calls"@) == Some(JsonView::Array(seq![tool_call])),
        tool_call.get("index"@) matches Some(number) && number.unsigned() == Some(index as u64),
        tool_call.get("function"@) matches Some(function) && function.get_text("arguments"@) is Some,
        !state.with_event(value).completed,
    ensures
        ({
            let before = match call_at(state.calls, index) {
                Some(call) => call.arguments,
                None => Seq::<char>::empty(),
            };
            &&& call_at(state.with_event(value).calls, index) matches Some(call)
                && call.arguments == before + tool_call.get("function"@)->0.get_text(
                "arguments"@,
            )->0
        }),
{
    let head = state.with_head(value);
    let calls = seq![tool_call];
    assert(items_in(at(at(listed_choice(value), "delta"@), "tool_calls"@)) == Some(calls));
    assert(head.accounted());
    assert(head.with_call_deltas(calls, 0) == (head, true));
    let (after, open) = head.with_call_deltas(calls, 1);
    assert((after, open) == head.with_call_delta(calls[0])) by {
        reveal_with_fuel(ChatStreamView::with_call_deltas, 2);
    }
    assert(state.with_event(value) == after);
    lemma_calls_show_nothing(head, calls, 1);
    law_pieces_of_calls_are_merged(head, tool_call);
    assert(head.piece_index(tool_call) == index);
}

/// A block with one line of data is the event that the line reads as, as long as
/// the stream goes on.
pub proof fn law_blocks_of_a_conversion_are_their_events(
    state: ChatStreamView,
    data: Seq<char>,
    value: JsonView,
)
    requires
        !state.completed,
        one_line(data),
        data.len() > 0,
        !white_space(data[0]),
        trim(data) != "[DONE]"@,
        parsed_json(encode_utf8(data)) matches Ok(read) && read == value,
    ensures
        state.with_block("data: "@ + data) == state.with_event(value),
{
    reveal(ChatStreamView::with_block);
    law_data_of_events_is_read(data, data, false);
}

/// The events of every call are told of in full, one call behind the other, in
/// the order of the calls; the first call is the output item behind the message.
pub proof fn law_calls_are_told_of_in_order(
    calls: Seq<(usize, CallView)>,
    tools: Seq<ToolView>,
    count: int,
    index: int,
) -> (offset: int)
    requires
        0 <= index < count <= calls.len(),
    ensures
        0 <= offset,
        offset == calls_events(calls, tools, index).len(),
        offset + call_events(calls[index], (index + 1) as nat, tools).len() <= calls_events(
            calls,
            tools,
            count,
        ).len(),
        calls_events(calls, tools, count).subrange(
            offset,
            offset + call_events(calls[index], (index + 1) as nat, tools).len(),
        ) == call_events(calls[index], (index + 1) as nat, tools),
    decreases count,
{
    let all = calls_events(calls, tools, count);
    let own = call_events(calls[index], (index + 1) as nat, tools);
    if index == count - 1 {
        let offset = calls_events(calls, tools, index).len() as int;
        assert(all.subrange(offset, offset + own.len()) =~= own);
        offset
    } else {
        let offset = law_calls_are_told_of_in_order(calls, tools, count - 1, index);
        let before = calls_events(calls, tools, count - 1);
        assert(all.subrange(offset, offset + own.len()) =~= before.subrange(
            offset,
            offset + own.len(),
        ));
        offset
    }
}

/// A stream that is completed tells of its text before its calls, of its calls
/// before the response, and of nothing after that.
pub proof fn law_completed_streams_tell_in_order(state: ChatStreamView)
    ensures
        ({
            let events = state.closing_events();
            let told = calls_events(state.named(), state.tools, state.named().len() as int);
            &&& events.len() == told.len() + 4
            &&& events.subrange(3, 3int + told.len()) == told
            &&& completes_text(events[0], state.text)
            &&& events.last().get_text("type"@) == Some("response.completed"@)
            &&& events.last().get("response"@) == Some(state.full_response())
        }),
{
    broadcast use crate::json::lemma_entry_field;

    reveal_strlit("type");
    reveal_strlit("output_index");
    reveal_strlit("content_index");
    reveal_strlit("text");
    reveal_strlit("response");
    assert("type"@.len() == 4);
    assert("output_index"@.len() == 12);
    assert("content_index"@.len() == 13);
    assert("text"@.len() == 4);
    assert("response"@.len() == 8);
    assert("type"@[1] != "text"@[1]);
    let events = state.closing_events();
    let told = calls_events(state.named(), state.tools, state.named().len() as int);
    assert(events.subrange(3, 3int + told.len()) =~= told);
    assert(events[0].get("text"@) == Some(JsonView::Text(state.text)));
    assert(events[0].get("type"@) == Some(JsonView::Text("response.output_text.done"@)));
    assert(events.last().get("type"@) == Some(JsonView::Text("response.completed"@)));
    assert(events.last().get("response"@) == Some(state.full_response()));
}

} // verus!
