//! A watch on a stream of the Responses protocol that is passed on as it is.
//!
//! The stream is read along, to see whether it ends with an event that says so.
//! Where it does not, an event that tells of the failure is added.
use crate::chat_stream::{byte_lists, event_bytes};
use crate::failure::{
    compact_json_error, error_message, is_text, json_error_message, kept_message,
};
use crate::json::{
    at, either, get_at, lemma_entry_field, no_items, obj, object, parse_json, parsed_json, render_json, str_view, text,
    text_at, text_in, Json, JsonView,
};
use crate::preflight::{append_bytes, drain_front};
use crate::sse::{
    event_data, event_data_of, first_boundary, law_boundary_is_stable, law_data_of_events_is_read,
    lemma_boundary_bounds, lossy_text, next_sse_block_boundary, one_line, sse_frame_limit_reached,
    utf8_lossy, MAX_SSE_FRAME_BYTES,
};
use crate::text::{concat2, concat3, same, trim, trimmed, white_space};
use crate::tools::first_of;
use std::collections::VecDeque;
use vstd::prelude::*;
use vstd::string::*;
use vstd::utf8::*;

verus! {

/// Why a stream has failed.
#[derive(Debug)]
pub enum StreamFailure {
    /// The upstream server said so; this is its message.
    Reported(String),
    /// The stream broke off.
    Incomplete(String),
}

/// What a `StreamFailure` says.
#[verifier::ext_equal]
pub enum FailureView {
    Reported(Seq<char>),
    Incomplete(Seq<char>),
}

impl View for StreamFailure {
    type V = FailureView;

    open spec fn view(&self) -> FailureView {
        match *self {
            StreamFailure::Reported(message) => FailureView::Reported(message@),
            StreamFailure::Incomplete(detail) => FailureView::Incomplete(detail@),
        }
    }
}

impl FailureView {
    /// What is told of the failure, given what the server said without the secrets
    /// in it.
    pub open spec fn detail(self, redacted: Seq<char>) -> Seq<char> {
        match self {
            FailureView::Reported(_) => kept_message(redacted),
            FailureView::Incomplete(detail) => detail,
        }
    }
}

impl StreamFailure {
    /// What the server said, where it did.
    pub fn reported(&self) -> (message: Option<&str>)
        ensures
            str_view(message) == (match self@ {
                FailureView::Reported(message) => Some(message),
                FailureView::Incomplete(_) => None,
            }),
    {
        match self {
            StreamFailure::Reported(message) => Some(message.as_str()),
            StreamFailure::Incomplete(_) => None,
        }
    }

    /// What is told of the failure, given what the server said without the secrets
    /// in it.
    pub fn detail_as(&self, redacted: &str) -> (detail: String)
        ensures
            detail@ == self@.detail(redacted@),
    {
        match self {
            StreamFailure::Reported(_) => compact_json_error(redacted),
            StreamFailure::Incomplete(detail) => detail.clone(),
        }
    }
}

/// What a list of failures says.
pub open spec fn failure_views(failures: Seq<StreamFailure>) -> Seq<FailureView> {
    Seq::new(failures.len(), |i: int| failures[i]@)
}

/// The state of the watch.
#[verifier::ext_equal]
pub struct ObserverView {
    pub buffer: Seq<u8>,
    pub pending: Seq<Seq<u8>>,
    pub max_frame_bytes: nat,
    pub disabled: bool,
    pub terminal: bool,
    pub recorded: bool,
    pub response_id: Seq<char>,
    pub model: Seq<char>,
    pub failures: Seq<FailureView>,
}

/// The event that tells of a failure.
pub open spec fn failed_event(id: Seq<char>, model: Seq<char>, detail: Seq<char>) -> JsonView {
    obj().entry("type"@, JsonView::Text("response.failed"@)).entry(
        "response"@,
        obj().entry("id"@, JsonView::Text(id)).entry("object"@, JsonView::Text("response"@)).entry(
            "status"@,
            JsonView::Text("failed"@),
        ).entry("model"@, JsonView::Text(model)).entry("output"@, JsonView::Array(seq![])).entry(
            "error"@,
            obj().entry("code"@, JsonView::Text("upstream_stream_incomplete"@)).entry(
                "message"@,
                JsonView::Text(detail),
            ),
        ),
    )
}

impl ObserverView {
    /// A failure is recorded, once.
    pub open spec fn record(self, failure: FailureView) -> ObserverView {
        if self.recorded {
            self
        } else {
            ObserverView { recorded: true, failures: self.failures.push(failure), ..self }
        }
    }

    /// The stream is not read any further.
    pub open spec fn disable(self) -> ObserverView {
        ObserverView { buffer: seq![], disabled: true, ..self }
    }

    /// An event has passed.
    pub open spec fn with_event(self, value: JsonView) -> ObserverView {
        let id = text_in(either(at(value.get("response"@), "id"@), value.get("id"@)));
        let model = text_in(either(at(value.get("response"@), "model"@), value.get("model"@)));
        let kind = value.get_text("type"@);
        let head = ObserverView {
            response_id: match id {
                Some(id) => if id.len() > 0 {
                    id
                } else {
                    self.response_id
                },
                None => self.response_id,
            },
            model: match model {
                Some(model) => model,
                None => self.model,
            },
            ..self
        };
        if kind == Some("response.completed"@) || kind == Some("response.incomplete"@) {
            ObserverView { terminal: true, ..head }
        } else if kind == Some("response.failed"@) || kind == Some("error"@) {
            (ObserverView { terminal: true, ..head }).record(
                FailureView::Reported(error_message(value)),
            )
        } else {
            head
        }
    }

    /// An event block has passed.
    pub open spec fn with_block(self, block: Seq<char>) -> ObserverView {
        let data = event_data(block, true);
        if data.len() == 0 || data == "[DONE]"@ {
            self
        } else {
            match parsed_json(encode_utf8(data)) {
                Ok(value) => self.with_event(value),
                Err(_) => self,
            }
        }
    }

    /// The event blocks that are held back in full are taken out and followed.
    pub open spec fn drain(self, end_of_stream: bool) -> ObserverView
        decreases self.buffer.len(),
    {
        match first_boundary(self.buffer, end_of_stream) {
            Some((end, drained)) => if end >= self.max_frame_bytes {
                self.disable()
            } else {
                proof {
                    lemma_boundary_bounds(self.buffer, 0, end_of_stream);
                }
                (ObserverView { buffer: self.buffer.skip(drained), ..self }).with_block(
                    utf8_lossy(self.buffer.take(end)),
                ).drain(end_of_stream)
            },
            None => if self.buffer.len() >= self.max_frame_bytes {
                self.disable()
            } else {
                self
            },
        }
    }

    /// Bytes have passed. An event block that reaches the limit ends the watch.
    pub open spec fn push(self, chunk: Seq<u8>) -> ObserverView
        decreases chunk.len(),
    {
        let room = self.max_frame_bytes - self.buffer.len();
        if self.disabled || chunk.len() == 0 {
            self
        } else if room <= 0 {
            self.disable()
        } else {
            let taken = if room <= chunk.len() {
                room
            } else {
                chunk.len() as int
            };
            (ObserverView { buffer: self.buffer + chunk.take(taken), ..self }).drain(false).push(
                chunk.skip(taken),
            )
        }
    }

    /// The stream broke off: where no event has said that it ended, one is
    /// added that tells of the failure.
    pub open spec fn fail(self, detail: Seq<char>) -> ObserverView {
        if self.terminal {
            self
        } else {
            let recorded = (ObserverView { terminal: true, ..self }).record(
                FailureView::Incomplete(detail),
            );
            ObserverView {
                pending: recorded.pending.push(
                    event_bytes(failed_event(self.response_id, self.model, detail)),
                ),
                ..recorded
            }
        }
    }

    /// The stream has ended.
    pub open spec fn end(self) -> ObserverView {
        let drained = self.drain(true);
        let last = if drained.buffer.len() > 0 {
            (ObserverView { buffer: seq![], ..drained }).with_block(utf8_lossy(drained.buffer))
        } else {
            drained
        };
        if self.disabled {
            self
        } else if drained.disabled {
            drained
        } else {
            last.fail("上游流在完成事件前中断"@)
        }
    }
}

/// A watch on a stream that is passed on as it is.
#[derive(Debug)]
pub struct ResponsesSseObserverState {
    buffer: Vec<u8>,
    pending: VecDeque<Vec<u8>>,
    max_frame_bytes: usize,
    inspection_disabled: bool,
    terminal: bool,
    failure_recorded: bool,
    response_id: String,
    model: String,
    failures: Vec<StreamFailure>,
}

impl View for ResponsesSseObserverState {
    type V = ObserverView;

    closed spec fn view(&self) -> ObserverView {
        ObserverView {
            buffer: self.buffer@,
            pending: byte_lists(self.pending@),
            max_frame_bytes: self.max_frame_bytes as nat,
            disabled: self.inspection_disabled,
            terminal: self.terminal,
            recorded: self.failure_recorded,
            response_id: self.response_id@,
            model: self.model@,
            failures: failure_views(self.failures@),
        }
    }
}

/// The watch before anything has passed.
pub open spec fn initial_watch() -> ObserverView {
    ObserverView {
        buffer: seq![],
        pending: seq![],
        max_frame_bytes: MAX_SSE_FRAME_BYTES as nat,
        disabled: false,
        terminal: false,
        recorded: false,
        response_id: "resp_codex_companion"@,
        model: seq![],
        failures: seq![],
    }
}

impl ResponsesSseObserverState {
    /// The watch before anything has passed.
    pub fn new() -> (state: Self)
        ensures
            state@ == initial_watch(),
    {
        let state = ResponsesSseObserverState {
            buffer: Vec::new(),
            pending: VecDeque::new(),
            max_frame_bytes: MAX_SSE_FRAME_BYTES,
            inspection_disabled: false,
            terminal: false,
            failure_recorded: false,
            response_id: "resp_codex_companion".to_owned(),
            model: String::new(),
            failures: Vec::new(),
        };
        assert(state@.pending =~= seq![]);
        assert(state@.failures =~= seq![]);
        state
    }

    /// The watch with another limit for event blocks.
    pub fn with_frame_limit(self, max_frame_bytes: usize) -> (state: Self)
        ensures
            state@ == (ObserverView { max_frame_bytes: max_frame_bytes as nat, ..self@ }),
    {
        ResponsesSseObserverState { max_frame_bytes, ..self }
    }

    fn record_failure(&mut self, failure: StreamFailure)
        ensures
            final(self)@ == old(self)@.record(failure@),
    {
        if self.failure_recorded {
            return;
        }
        self.failure_recorded = true;
        let ghost added = failure@;
        self.failures.push(failure);
        assert(self@.failures =~= old(self)@.failures.push(added));
    }

    fn disable_inspection(&mut self)
        ensures
            final(self)@ == old(self)@.disable(),
    {
        self.buffer = Vec::new();
        self.inspection_disabled = true;
        assert(self@.buffer =~= seq![]);
    }

    /// Follows an event.
    pub fn process_event(&mut self, value: &Json)
        ensures
            final(self)@ == old(self)@.with_event(value@),
    {
        let response = value.get("response");
        if let Some(id) = text_at(first_of(get_at(response, "id"), value.get("id"))) {
            if !id.is_empty() {
                self.response_id = id.to_owned();
            }
        }
        if let Some(model) = text_at(first_of(get_at(response, "model"), value.get("model"))) {
            self.model = model.to_owned();
        }
        let kind = value.get_text("type");
        if is_text(kind, "response.completed") || is_text(kind, "response.incomplete") {
            self.terminal = true;
        } else if is_text(kind, "response.failed") || is_text(kind, "error") {
            self.terminal = true;
            self.record_failure(StreamFailure::Reported(json_error_message(value)));
        }
    }

    /// Follows an event block.
    pub fn process_block(&mut self, block: &str)
        ensures
            final(self)@ == old(self)@.with_block(block@),
    {
        let data = event_data_of(block, true);
        if data.as_str().is_empty() || same(&data, "[DONE]") {
            return;
        }
        match parse_json(data.as_str().as_bytes()) {
            Ok(value) => {
                self.process_event(&value);
            },
            Err(_) => {},
        }
    }

    fn process_buffered_blocks(&mut self, end_of_stream: bool)
        ensures
            final(self)@ == old(self)@.drain(end_of_stream),
    {
        loop
            invariant
                old(self)@.drain(end_of_stream) == self@.drain(end_of_stream),
            decreases self@.buffer.len(),
        {
            match next_sse_block_boundary(self.buffer.as_slice(), end_of_stream) {
                None => {
                    if sse_frame_limit_reached(self.buffer.len(), self.max_frame_bytes) {
                        self.disable_inspection();
                    }
                    return;
                },
                Some(boundary) => {
                    if sse_frame_limit_reached(boundary.block_end, self.max_frame_bytes) {
                        self.disable_inspection();
                        return;
                    }
                    let block = lossy_text(
                        vstd::slice::slice_subrange(self.buffer.as_slice(), 0, boundary.block_end),
                    );
                    assert(self.buffer@.subrange(0, boundary.block_end as int)
                        =~= self.buffer@.take(boundary.block_end as int));
                    let ghost before = self@;
                    drain_front(&mut self.buffer, boundary.drain_len);
                    assert(self@ == (ObserverView {
                        buffer: before.buffer.skip(boundary.drain_len as int),
                        ..before
                    }));
                    self.process_block(&block);
                },
            }
        }
    }

    /// Follows bytes that have passed.
    pub fn push_chunk(&mut self, chunk: &[u8])
        ensures
            final(self)@ == old(self)@.push(chunk@),
    {
        let mut position: usize = 0;
        assert(chunk@.skip(0) =~= chunk@);
        while position < chunk.len() && !self.inspection_disabled
            invariant
                position <= chunk@.len(),
                old(self)@.push(chunk@) == self@.push(chunk@.skip(position as int)),
            decreases chunk@.len() - position,
        {
            let ghost rest = chunk@.skip(position as int);
            let room: usize = self.max_frame_bytes.saturating_sub(self.buffer.len());
            if room == 0 {
                self.disable_inspection();
                return;
            }
            let take: usize = if room <= chunk.len() - position {
                room
            } else {
                chunk.len() - position
            };
            let part = vstd::slice::slice_subrange(chunk, position, position + take);
            assert(part@ =~= rest.take(take as int));
            assert(rest.skip(take as int) =~= chunk@.skip(position + take));
            let ghost before = self@;
            append_bytes(&mut self.buffer, part);
            assert(self@ == (ObserverView { buffer: before.buffer + part@, ..before }));
            self.process_buffered_blocks(false);
            position += take;
        }
    }

    /// Adds an event that tells of a failure, where no event has said that the
    /// stream ended.
    pub fn fail_incomplete(&mut self, detail: &str)
        ensures
            final(self)@ == old(self)@.fail(detail@),
    {
        if self.terminal {
            return;
        }
        self.terminal = true;
        self.record_failure(StreamFailure::Incomplete(detail.to_owned()));
        let error = object().entry("code", text("upstream_stream_incomplete")).entry(
            "message",
            text(detail),
        );
        let response = object().entry("id", text(&self.response_id)).entry(
            "object",
            text("response"),
        ).entry("status", text("failed")).entry("model", text(&self.model)).entry(
            "output",
            no_items(),
        ).entry("error", error);
        let event = object().entry("type", text("response.failed")).entry("response", response);
        let line = concat3("data: ", &render_json(&event), "\n\n");
        let bytes = vstd::slice::slice_to_vec(line.as_str().as_bytes());
        let ghost before = self@.pending;
        let ghost added = bytes@;
        self.pending.push_back(bytes);
        assert(self@.pending =~= before.push(added));
    }

    /// Follows the end of the stream.
    pub fn finish_stream(&mut self)
        ensures
            final(self)@ == old(self)@.end(),
    {
        if self.inspection_disabled {
            return;
        }
        self.process_buffered_blocks(true);
        if self.inspection_disabled {
            return;
        }
        if self.buffer.len() > 0 {
            let block = lossy_text(self.buffer.as_slice());
            let ghost before = self@;
            self.buffer = Vec::new();
            assert(self@ == (ObserverView { buffer: seq![], ..before }));
            self.process_block(&block);
        }
        self.fail_incomplete("上游流在完成事件前中断");
    }

    /// Takes the next event that is to be added to the stream.
    pub fn take_pending(&mut self) -> (bytes: Option<Vec<u8>>)
        ensures
            match bytes {
                Some(bytes) => old(self)@.pending.len() > 0 && bytes@ == old(self)@.pending[0]
                    && final(self)@ == (ObserverView {
                    pending: old(self)@.pending.drop_first(),
                    ..old(self)@
                }),
                None => old(self)@.pending.len() == 0 && final(self)@ == old(self)@,
            },
            bytes matches Some(first) ==> seq![first@] + final(self)@.pending
                == old(self)@.pending,
    {
        match self.pending.pop_front() {
            Some(bytes) => {
                assert(old(self)@.pending[0] == bytes@);
                assert(self@.pending =~= old(self)@.pending.drop_first());
                assert(seq![bytes@] + self@.pending =~= old(self)@.pending);
                Some(bytes)
            },
            None => None,
        }
    }

    /// Takes the failures that are to be recorded.
    pub fn take_failures(&mut self) -> (failures: Vec<StreamFailure>)
        ensures
            failure_views(failures@) == old(self)@.failures,
            final(self)@ == (ObserverView { failures: seq![], ..old(self)@ }),
    {
        let mut failures: Vec<StreamFailure> = Vec::new();
        core::mem::swap(&mut failures, &mut self.failures);
        assert(self@.failures =~= seq![]);
        failures
    }

    /// Whether an event has said that the stream ended, or one was added.
    pub fn is_terminal(&self) -> (terminal: bool)
        ensures
            terminal == self@.terminal,
    {
        self.terminal
    }

    /// Whether the stream is not read any further.
    pub fn is_disabled(&self) -> (disabled: bool)
        ensures
            disabled == self@.disabled,
    {
        self.inspection_disabled
    }

    /// How many bytes are held back.
    pub fn buffered_bytes(&self) -> (bytes: usize)
        ensures
            bytes == self@.buffer.len(),
    {
        self.buffer.len()
    }
}

/// The message about a stream that failed in a request.
pub open spec fn failure_note(request_id: Seq<char>, detail: Seq<char>) -> Seq<char> {
    "["@ + request_id + "] upstream_stream_incomplete: "@ + detail
}

/// The message about a stream that failed in a request.
pub fn stream_failure_note(request_id: &str, detail: &str) -> (note: String)
    ensures
        note@ == failure_note(request_id@, detail@),
{
    concat2(&concat3("[", request_id, "] upstream_stream_incomplete: "), detail)
}

/// The message about a watched stream that failed in a request: white space at
/// the ends of the detail is left out.
pub fn watched_failure_note(request_id: &str, detail: &str) -> (note: String)
    ensures
        note@ == failure_note(request_id@, trim(detail@)),
{
    let detail = trimmed(detail);
    stream_failure_note(request_id, detail.as_str())
}

/// What is recorded as the cause of a failure: the detail without white space
/// at its ends, or a general name where nothing is left of it.
pub open spec fn failure_cause(detail: Seq<char>) -> Seq<char> {
    if trim(detail).len() == 0 {
        "upstream_stream_failed"@
    } else {
        trim(detail)
    }
}

/// What is recorded as the cause of a failure.
pub fn stream_failure_cause(detail: &str) -> (cause: String)
    ensures
        cause@ == failure_cause(detail@),
{
    let detail = trimmed(detail);
    if detail.as_str().is_empty() {
        "upstream_stream_failed".to_owned()
    } else {
        detail
    }
}

/// Following an event block does not look at what is held back.
proof fn lemma_block_ignores_buffer(state: ObserverView, block: Seq<char>, buffer: Seq<u8>)
    ensures
        (ObserverView { buffer, ..state }).with_block(block) == (ObserverView {
            buffer,
            ..state.with_block(block)
        }),
        state.with_block(block).buffer == state.buffer,
        state.with_block(block).max_frame_bytes == state.max_frame_bytes,
        state.with_block(block).disabled == state.disabled,
{
}

/// What is held back after event blocks were taken out is below the limit, or
/// nothing is read any further.
proof fn lemma_drain_bound(state: ObserverView, end_of_stream: bool)
    ensures
        ({
            let after = state.drain(end_of_stream);
            &&& after.disabled || after.buffer.len() < after.max_frame_bytes
            &&& after.max_frame_bytes == state.max_frame_bytes
            &&& after.buffer.len() <= state.buffer.len()
            &&& state.disabled ==> after.disabled
        }),
    decreases state.buffer.len(),
{
    if first_boundary(state.buffer, end_of_stream) is Some {
        let (end, drained) = first_boundary(state.buffer, end_of_stream)->0;
        lemma_boundary_bounds(state.buffer, 0, end_of_stream);
        let rest = ObserverView { buffer: state.buffer.skip(drained), ..state };
        let block = utf8_lossy(state.buffer.take(end));
        lemma_block_ignores_buffer(state, block, state.buffer.skip(drained));
        if end < state.max_frame_bytes {
            lemma_drain_bound(rest.with_block(block), end_of_stream);
        }
    }
}

/// Taking event blocks out of what is held back, and then out of what is left
/// with more behind it, is taking them out of all of it.
proof fn lemma_drain_in_steps(state: ObserverView, more: Seq<u8>)
    requires
        more.len() > 0,
        state.buffer.len() + more.len() <= state.max_frame_bytes,
    ensures
        ({
            let first = state.drain(false);
            &&& first.disabled == state.disabled
            &&& (ObserverView { buffer: state.buffer + more, ..state }).drain(false) == (
            ObserverView { buffer: first.buffer + more, ..first }).drain(false)
        }),
    decreases state.buffer.len(),
{
    let all = ObserverView { buffer: state.buffer + more, ..state };
    if first_boundary(state.buffer, false) is Some {
        let (end, drained) = first_boundary(state.buffer, false)->0;
        lemma_boundary_bounds(state.buffer, 0, false);
        law_boundary_is_stable(state.buffer, more, 0);
        let rest = state.buffer.skip(drained);
        let block = utf8_lossy(state.buffer.take(end));
        assert(all.buffer.take(end) =~= state.buffer.take(end));
        assert(all.buffer.skip(drained) =~= rest + more);
        let next = (ObserverView { buffer: rest, ..state }).with_block(block);
        lemma_block_ignores_buffer(state, block, rest);
        lemma_block_ignores_buffer(state, block, rest + more);
        lemma_drain_in_steps(next, more);
    }
}

/// How a stream is cut into chunks has no influence on the watch.
pub proof fn law_watch_ignores_chunking(state: ObserverView, first: Seq<u8>, second: Seq<u8>)
    requires
        state.disabled || state.buffer.len() < state.max_frame_bytes,
    ensures
        state.push(first + second) == state.push(first).push(second),
    decreases first.len() + second.len(),
{
    if state.disabled {
    } else if first.len() == 0 {
        assert(first + second =~= second);
    } else if second.len() == 0 {
        assert(first + second =~= first);
    } else {
        let room = state.max_frame_bytes - state.buffer.len();
        let all = first + second;
        if room <= first.len() {
            assert(all.take(room) =~= first.take(room));
            assert(all.skip(room) =~= first.skip(room) + second);
            let filled = ObserverView { buffer: state.buffer + first.take(room), ..state };
            lemma_drain_bound(filled, false);
            law_watch_ignores_chunking(filled.drain(false), first.skip(room), second);
        } else {
            let taken = if room <= all.len() {
                room
            } else {
                all.len() as int
            };
            let count = taken - first.len();
            let part = second.take(count);
            let rest = second.skip(count);
            assert(first.take(first.len() as int) =~= first);
            assert(first.skip(first.len() as int) =~= seq![]);
            assert(all.take(taken) =~= first + part);
            assert(all.skip(taken) =~= rest);
            assert(part + rest =~= second);
            let filled = ObserverView { buffer: state.buffer + first, ..state };
            let after_first = filled.drain(false);
            assert(state.push(first) == after_first.push(seq![]));
            lemma_drain_bound(filled, false);
            assert(state.buffer + all.take(taken) =~= filled.buffer + part);
            lemma_drain_in_steps(filled, part);
            let after_part = (ObserverView {
                buffer: after_first.buffer + part,
                ..after_first
            }).drain(false);
            assert(state.push(all) == after_part.push(rest));
            assert(part.take(part.len() as int) =~= part);
            assert(part.skip(part.len() as int) =~= seq![]);
            assert(after_first.push(part) == after_part.push(seq![]));
            law_watch_ignores_chunking(after_first, part, rest);
        }
    }
}

/// After the end of a stream that was watched to its end, its client has been
/// told that it ended: by an event of the stream, or by one that was added. At
/// most one is added, and none where an event had said so before.
pub proof fn law_watched_streams_are_terminated(state: ObserverView)
    ensures
        !state.end().disabled ==> state.end().terminal,
        state.end().pending.len() <= state.pending.len() + 1,
        state.terminal ==> state.end().pending == state.pending,
{
    lemma_drain_terminal(state, true);
}

proof fn lemma_drain_terminal(state: ObserverView, end_of_stream: bool)
    ensures
        state.terminal ==> state.drain(end_of_stream).terminal,
        state.drain(end_of_stream).pending == state.pending,
    decreases state.buffer.len(),
{
    if first_boundary(state.buffer, end_of_stream) is Some {
        let (end, drained) = first_boundary(state.buffer, end_of_stream)->0;
        lemma_boundary_bounds(state.buffer, 0, end_of_stream);
        let rest = ObserverView { buffer: state.buffer.skip(drained), ..state };
        if end < state.max_frame_bytes {
            lemma_drain_terminal(
                rest.with_block(utf8_lossy(state.buffer.take(end))),
                end_of_stream,
            );
        }
    }
}

/// A failure that the server reports in a watched stream is recorded once, with
/// its message, and ends the response; the end of a response that did not fail
/// records nothing.
pub proof fn law_watched_events_are_recorded(
    state: ObserverView,
    value: JsonView,
    message: Seq<char>,
)
    requires
        value.get_text("message"@) == Some(message),
    ensures
        (value.get_text("type"@) == Some("response.failed"@) || value.get_text("type"@) == Some(
            "error"@,
        )) && !state.recorded ==> ({
            let after = state.with_event(value);
            &&& after.terminal && after.recorded
            &&& after.failures == state.failures.push(FailureView::Reported(message))
            &&& after.pending == state.pending
        }),
        state.recorded ==> state.with_event(value).failures == state.failures,
        value.get_text("type"@) == Some("response.completed"@) || value.get_text("type"@) == Some(
            "response.incomplete"@,
        ) ==> state.with_event(value).terminal && state.with_event(value).failures
            == state.failures && state.with_event(value).pending == state.pending,
        value.get("type"@) is None ==> state.with_event(value).terminal == state.terminal
            && state.with_event(value).failures == state.failures,
{
    reveal_strlit("response.completed");
    reveal_strlit("response.incomplete");
    reveal_strlit("response.failed");
    reveal_strlit("error");
    assert("response.completed"@.len() == 18);
    assert("response.incomplete"@.len() == 19);
    assert("response.failed"@.len() == 15);
    assert("error"@.len() == 5);
}

/// A watched stream that breaks off is ended for the client by an event that says
/// that the response has failed, and why, under the identifier and the model that
/// the stream had named.
pub proof fn law_broken_streams_are_ended(state: ObserverView, detail: Seq<char>)
    requires
        !state.terminal,
    ensures
        ({
            let after = state.fail(detail);
            let event = failed_event(state.response_id, state.model, detail);
            &&& after.terminal
            &&& after.pending == state.pending.push(event_bytes(event))
            &&& !state.recorded ==> after.failures == state.failures.push(
                FailureView::Incomplete(detail),
            )
            &&& event.get_text("type"@) == Some("response.failed"@)
            &&& event.get("response"@) matches Some(response) && response.get_text("id"@) == Some(
                state.response_id,
            ) && response.get_text("model"@) == Some(state.model) && response.get_text("status"@)
                == Some("failed"@) && (response.get("error"@) matches Some(error)
                && error.get_text("message"@) == Some(detail))
        }),
{
    broadcast use lemma_entry_field;

    reveal_strlit("type");
    reveal_strlit("response");
    reveal_strlit("id");
    reveal_strlit("object");
    reveal_strlit("status");
    reveal_strlit("model");
    reveal_strlit("output");
    reveal_strlit("error");
    reveal_strlit("code");
    reveal_strlit("message");
    assert("type"@.len() == 4);
    assert("response"@.len() == 8);
    assert("id"@.len() == 2);
    assert("object"@.len() == 6);
    assert("status"@.len() == 6);
    assert("model"@.len() == 5);
    assert("output"@.len() == 6);
    assert("error"@.len() == 5);
    assert("code"@.len() == 4);
    assert("message"@.len() == 7);
    assert("type"@[0] != "code"@[0]);
    assert("object"@[0] != "status"@[0]);
    assert("object"@[1] != "output"@[1]);
    assert("status"@[0] != "output"@[0]);
    assert("model"@[0] != "error"@[0]);
    let event = failed_event(state.response_id, state.model, detail);
    let error = obj().entry("code"@, JsonView::Text("upstream_stream_incomplete"@)).entry(
        "message"@,
        JsonView::Text(detail),
    );
    assert(error.get("message"@) == Some(JsonView::Text(detail)));
    let response = event.get("response"@)->0;
    assert(event.get("type"@) == Some(JsonView::Text("response.failed"@)));
    assert(event.get("response"@) is Some);
    assert(response.get("id"@) == Some(JsonView::Text(state.response_id)));
    assert(response.get("model"@) == Some(JsonView::Text(state.model)));
    assert(response.get("status"@) == Some(JsonView::Text("failed"@)));
    assert(response.get("error"@) == Some(error));
}

/// A block that arrives in full in a watched stream is followed at once, whatever
/// comes before the next.
pub proof fn law_watched_blocks_are_followed(
    state: ObserverView,
    chunk: Seq<u8>,
    end: int,
)
    requires
        state.buffer.len() == 0,
        !state.disabled,
        first_boundary(chunk, false) == Some((end, chunk.len() as int)),
        chunk.len() < state.max_frame_bytes,
    ensures
        state.push(chunk) == state.with_block(utf8_lossy(chunk.take(end))),
{
    lemma_boundary_bounds(chunk, 0, false);
    let block = utf8_lossy(chunk.take(end));
    assert(state.buffer + chunk.take(chunk.len() as int) =~= chunk);
    assert(chunk.skip(chunk.len() as int) =~= Seq::<u8>::empty());
    let filled = ObserverView { buffer: chunk, ..state };
    let empty = ObserverView { buffer: Seq::<u8>::empty(), ..state };
    assert(state.buffer =~= Seq::<u8>::empty());
    assert(empty == state);
    lemma_block_ignores_buffer(state, block, Seq::<u8>::empty());
    let after = state.with_block(block);
    assert(after.buffer =~= Seq::<u8>::empty());
    assert(first_boundary(after.buffer, false) is None);
    assert(after.max_frame_bytes == state.max_frame_bytes);
    assert(after.drain(false) == after);
    assert(filled.drain(false) == after);
    assert(after.push(Seq::<u8>::empty()) == after);
}

/// A block with one line of data is the event that the line reads as.
pub proof fn law_blocks_are_their_events(state: ObserverView, data: Seq<char>, value: JsonView)
    requires
        one_line(data),
        data.len() > 0,
        !white_space(data[0]),
        data != "[DONE]"@,
        parsed_json(encode_utf8(data)) matches Ok(read) && read == value,
    ensures
        state.with_block("data: "@ + data) == state.with_event(value),
{
    law_data_of_events_is_read(data, data, true);
}

} // verus!
