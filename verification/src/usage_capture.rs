//! Reads the token counts of a response while it is passed on.
use crate::headers::{get_header, header_text, header_views, HeaderField};
use crate::json::{parse_json, parsed_json, Json, JsonView};
use crate::preflight::{append_bytes, drain_front};
use crate::sse::{
    blank_prefix, event_data, event_data_of, first_boundary, lemma_boundary_bounds, lossy_text,
    next_sse_block_boundary, skip_blank, utf8_lossy,
};
use crate::text::{contains, holds, same};
use vstd::prelude::*;
use vstd::string::*;
use vstd::utf8::*;

verus! {

/// How much of a response is held to find its token counts.
pub const MAX_FRAME_BYTES: usize = 8_388_608;

/// How much of a response is looked at at a time.
pub const CAPTURE_STEP_BYTES: usize = 8_192;

/// What of a response was read so far.
#[derive(Debug)]
pub struct UsageCapture {
    sse: bool,
    buffer: Vec<u8>,
    done: bool,
    found: Option<Json>,
}

/// What a `UsageCapture` holds: whether the response is a stream of events, what
/// is held of it, whether the counts were found or given up, and the value that
/// holds them.
#[verifier::ext_equal]
pub ghost struct CaptureView {
    pub sse: bool,
    pub buffer: Seq<u8>,
    pub done: bool,
    pub found: Option<JsonView>,
}

/// Whether a value is a response, or holds one, that has come to its end.
pub open spec fn is_terminal(value: JsonView) -> bool {
    let response = match value.get("response"@) {
        Some(response) => response,
        None => value,
    };
    response.get_text("status"@) == Some("completed"@) || response.get_text("status"@) == Some(
        "incomplete"@,
    )
}

/// Whether a value is a response, or holds one, that has come to its end.
pub fn is_terminal_response(value: &Json) -> (terminal: bool)
    ensures
        terminal == is_terminal(value@),
{
    let response = match value.get("response") {
        Some(response) => response,
        None => value,
    };
    match response.get_text("status") {
        Some(status) => same(status, "completed") || same(status, "incomplete"),
        None => false,
    }
}

/// Whether bytes look like a stream of events.
pub open spec fn begins_like_sse(bytes: Seq<u8>) -> bool {
    skip_blank(bytes).len() > 0 && (skip_blank(bytes)[0] == 100 || skip_blank(bytes)[0] == 101
        || skip_blank(bytes)[0] == 58)
}

impl CaptureView {
    /// What is read once a value came: the first response that has come to its
    /// end is kept.
    pub open spec fn observed(self, value: JsonView) -> CaptureView {
        if self.done || !is_terminal(value) {
            self
        } else {
            CaptureView { done: true, found: Some(value), ..self }
        }
    }

    /// What is read once the data of an event came; data that is not JSON is
    /// passed over.
    pub open spec fn heard(self, data: Seq<char>) -> CaptureView {
        match parsed_json(encode_utf8(data)) {
            Ok(value) => self.observed(value),
            Err(_) => self,
        }
    }

    /// What is read once the events that are held were looked at.
    pub open spec fn drained(self) -> CaptureView
        decreases self.buffer.len(),
    {
        match first_boundary(self.buffer, false) {
            Some((end, length)) => if 0 < length <= self.buffer.len() {
                let next = (CaptureView { buffer: self.buffer.skip(length), ..self }).heard(
                    event_data(utf8_lossy(self.buffer.take(end)), true),
                );
                if next.done {
                    CaptureView { buffer: seq![], ..next }
                } else {
                    (CaptureView { buffer: self.buffer.skip(length), ..next }).drained()
                }
            } else {
                self
            },
            None => self,
        }
    }

    /// What is read once a few more bytes came.
    pub open spec fn stepped(self, chunk: Seq<u8>) -> CaptureView {
        if self.buffer.len() + chunk.len() > MAX_FRAME_BYTES {
            CaptureView { buffer: seq![], done: true, ..self }
        } else {
            let buffer = self.buffer + chunk;
            let held = CaptureView { buffer, sse: self.sse || begins_like_sse(buffer), ..self };
            if held.sse {
                held.drained()
            } else {
                match parsed_json(buffer) {
                    Ok(value) => CaptureView { buffer: seq![], ..held.observed(value) },
                    Err(_) => held,
                }
            }
        }
    }

    /// What is read once more bytes came, a step at a time.
    pub open spec fn pushed(self, bytes: Seq<u8>) -> CaptureView
        decreases bytes.len(),
    {
        if bytes.len() == 0 || self.done {
            self
        } else if bytes.len() <= CAPTURE_STEP_BYTES {
            self.stepped(bytes)
        } else {
            self.stepped(bytes.take(CAPTURE_STEP_BYTES as int)).pushed(
                bytes.skip(CAPTURE_STEP_BYTES as int),
            )
        }
    }

    /// What is read once the response ended: what is left of a stream counts as
    /// an event.
    pub open spec fn finished(self) -> CaptureView {
        if self.done || !self.sse {
            self
        } else {
            CaptureView {
                buffer: seq![],
                ..self.heard(event_data(utf8_lossy(self.buffer), true))
            }
        }
    }

    /// What is read once the response broke off.
    pub open spec fn given_up(self) -> CaptureView {
        CaptureView { buffer: seq![], done: true, ..self }
    }

    /// Whether counts are kept only once they were found, and no more is held
    /// than may be.
    pub open spec fn well_formed(self) -> bool {
        &&& self.found is Some ==> self.done
        &&& self.buffer.len() <= MAX_FRAME_BYTES
    }
}

impl UsageCapture {
    /// What was read.
    pub closed spec fn view(&self) -> CaptureView {
        CaptureView {
            sse: self.sse,
            buffer: self.buffer@,
            done: self.done,
            found: match self.found {
                Some(value) => Some(value@),
                None => None,
            },
        }
    }

    /// A response of which nothing was read.
    pub fn new(sse: bool) -> (capture: Self)
        ensures
            capture.view() == (CaptureView { sse, buffer: seq![], done: false, found: None }),
    {
        let capture = UsageCapture { sse, buffer: Vec::new(), done: false, found: None };
        assert(capture.view() =~= (CaptureView { sse, buffer: seq![], done: false, found: None }));
        capture
    }

    /// Whether the counts were found or given up.
    pub fn is_done(&self) -> (done: bool)
        ensures
            done == self.view().done,
    {
        self.done
    }

    /// The value that holds the counts, taken out.
    pub fn take_found(&mut self) -> (value: Option<Json>)
        ensures
            match value {
                Some(json) => old(self).view().found == Some(json@),
                None => old(self).view().found is None,
            },
            final(self).view() == (CaptureView { found: None, ..old(self).view() }),
    {
        let mut value: Option<Json> = None;
        core::mem::swap(&mut self.found, &mut value);
        value
    }

    /// Looks at a value.
    pub fn observe(&mut self, value: Json)
        ensures
            final(self).view() == old(self).view().observed(value@),
    {
        if self.done {
            return;
        }
        if !is_terminal_response(&value) {
            return;
        }
        self.done = true;
        self.found = Some(value);
    }

    fn hear(&mut self, data: &str)
        ensures
            final(self).view() == old(self).view().heard(data@),
    {
        if let Ok(value) = parse_json(data.as_bytes()) {
            self.observe(value);
        }
    }

    /// Looks at the events that are held.
    fn drain(&mut self)
        ensures
            final(self).view() == old(self).view().drained(),
    {
        let ghost goal = self.view().drained();
        loop
            invariant
                goal == self.view().drained(),
                goal == old(self).view().drained(),
            decreases self.view().buffer.len(),
        {
            let ghost before = self.view();
            match next_sse_block_boundary(self.buffer.as_slice(), false) {
                Some(boundary) => {
                    proof {
                        lemma_boundary_bounds(self.buffer@, 0, false);
                    }
                    let block = lossy_text(
                        vstd::slice::slice_subrange(
                            self.buffer.as_slice(),
                            0,
                            boundary.block_end,
                        ),
                    );
                    assert(self.buffer@.subrange(0, boundary.block_end as int)
                        =~= self.buffer@.take(boundary.block_end as int));
                    let data = event_data_of(block.as_str(), true);
                    drain_front(&mut self.buffer, boundary.drain_len);
                    assert(self.view() =~= (CaptureView {
                        buffer: before.buffer.skip(boundary.drain_len as int),
                        ..before
                    }));
                    self.hear(data.as_str());
                    if self.done {
                        let ghost next = self.view();
                        self.buffer = Vec::new();
                        assert(self.view() =~= (CaptureView { buffer: seq![], ..next }));
                        return;
                    }
                },
                None => {
                    return;
                },
            }
        }
    }

    fn step(&mut self, chunk: &[u8])
        requires
            old(self).view().well_formed(),
        ensures
            final(self).view() == old(self).view().stepped(chunk@),
    {
        let ghost before = self.view();
        if chunk.len() > MAX_FRAME_BYTES - self.buffer.len() {
            self.buffer = Vec::new();
            self.done = true;
            assert(self.view() =~= (CaptureView { buffer: seq![], done: true, ..before }));
            return;
        }
        append_bytes(&mut self.buffer, chunk);
        if !self.sse {
            let start: usize = blank_prefix(self.buffer.as_slice());
            if start < self.buffer.len() {
                assert(self.buffer@.skip(start as int)[0] == self.buffer@[start as int]);
                let first: u8 = self.buffer[start];
                if first == 100 || first == 101 || first == 58 {
                    self.sse = true;
                }
            }
        }
        assert(self.view() =~= (CaptureView {
            buffer: before.buffer + chunk@,
            sse: before.sse || begins_like_sse(before.buffer + chunk@),
            ..before
        }));
        if self.sse {
            self.drain();
        } else if let Ok(value) = parse_json(self.buffer.as_slice()) {
            self.observe(value);
            let ghost next = self.view();
            self.buffer = Vec::new();
            assert(self.view() =~= (CaptureView { buffer: seq![], ..next }));
        }
    }

    /// Reads more bytes of the response.
    pub fn push(&mut self, bytes: &[u8])
        requires
            old(self).view().well_formed(),
        ensures
            final(self).view() == old(self).view().pushed(bytes@),
            final(self).view().well_formed(),
    {
        let ghost goal = self.view().pushed(bytes@);
        proof {
            law_captures_stay_well_formed(self.view(), bytes@);
        }
        let mut from: usize = 0;
        assert(bytes@.skip(0) =~= bytes@);
        while from < bytes.len() && !self.done
            invariant
                from <= bytes@.len(),
                self.view().well_formed(),
                goal == self.view().pushed(bytes@.skip(from as int)),
            decreases bytes@.len() - from,
        {
            let ghost rest = bytes@.skip(from as int);
            let left: usize = bytes.len() - from;
            let size: usize = if left < CAPTURE_STEP_BYTES {
                left
            } else {
                CAPTURE_STEP_BYTES
            };
            let chunk = vstd::slice::slice_subrange(bytes, from, from + size);
            proof {
                assert(bytes@.subrange(from as int, from + size) =~= rest.take(size as int));
                assert(rest.skip(size as int) =~= bytes@.skip(from + size));
                if left <= CAPTURE_STEP_BYTES {
                    assert(rest.take(size as int) =~= rest);
                    assert(bytes@.skip(from + size).len() == 0);
                }
                lemma_step_is_well_formed(self.view(), rest.take(size as int));
            }
            self.step(chunk);
            from = from + size;
        }
        assert(from == bytes@.len() ==> bytes@.skip(from as int).len() == 0);
    }

    /// The response ended.
    pub fn finish(&mut self)
        ensures
            final(self).view() == old(self).view().finished(),
    {
        if self.done || !self.sse {
            return;
        }
        let block = lossy_text(self.buffer.as_slice());
        let data = event_data_of(block.as_str(), true);
        self.hear(data.as_str());
        let ghost next = self.view();
        self.buffer = Vec::new();
        assert(self.view() =~= (CaptureView { buffer: seq![], ..next }));
    }

    /// The response broke off.
    pub fn give_up(&mut self)
        ensures
            final(self).view() == old(self).view().given_up(),
    {
        let ghost before = self.view();
        self.done = true;
        self.buffer = Vec::new();
        assert(self.view() =~= before.given_up());
    }
}

proof fn lemma_drained(view: CaptureView)
    requires
        view.well_formed(),
    ensures
        view.drained().well_formed(),
        view.drained().buffer.len() <= view.buffer.len(),
    decreases view.buffer.len(),
{
    if let Some((end, length)) = first_boundary(view.buffer, false) {
        if 0 < length <= view.buffer.len() {
            let next = (CaptureView { buffer: view.buffer.skip(length), ..view }).heard(
                event_data(utf8_lossy(view.buffer.take(end)), true),
            );
            if !next.done {
                lemma_drained(CaptureView { buffer: view.buffer.skip(length), ..next });
            }
        }
    }
}

proof fn lemma_step_is_well_formed(view: CaptureView, chunk: Seq<u8>)
    requires
        view.well_formed(),
    ensures
        view.stepped(chunk).well_formed(),
{
    if view.buffer.len() + chunk.len() <= MAX_FRAME_BYTES {
        let buffer = view.buffer + chunk;
        lemma_drained(CaptureView { buffer, sse: view.sse || begins_like_sse(buffer), ..view });
    }
}

/// However a response comes, no more of it is held than may be, and counts are
/// kept only once.
pub proof fn law_captures_stay_well_formed(view: CaptureView, bytes: Seq<u8>)
    requires
        view.well_formed(),
    ensures
        view.pushed(bytes).well_formed(),
    decreases bytes.len(),
{
    if bytes.len() > 0 && !view.done {
        if bytes.len() <= CAPTURE_STEP_BYTES {
            lemma_step_is_well_formed(view, bytes);
        } else {
            lemma_step_is_well_formed(view, bytes.take(CAPTURE_STEP_BYTES as int));
            law_captures_stay_well_formed(
                view.stepped(bytes.take(CAPTURE_STEP_BYTES as int)),
                bytes.skip(CAPTURE_STEP_BYTES as int),
            );
        }
    }
}

/// Once counts were found, nothing that comes later replaces them.
pub proof fn law_first_counts_stand(view: CaptureView, bytes: Seq<u8>, value: JsonView)
    requires
        view.done,
    ensures
        view.pushed(bytes) == view,
        view.observed(value) == view,
        view.finished() == view,
{
}

/// Whether the counts of a response are read, and whether it says that it is a
/// stream of events: only in a session that is known, and where the bytes are
/// not compressed.
pub open spec fn capture_of(
    session_known: bool,
    headers: Seq<(Seq<char>, Option<Seq<char>>)>,
) -> Option<bool> {
    if !session_known || (crate::headers::has_header(headers, "content-encoding"@) && header_text(
        headers,
        "content-encoding"@,
    ) != Some("identity"@)) {
        None
    } else {
        Some(
            match header_text(headers, "content-type"@) {
                Some(kind) => holds(kind, "text/event-stream"@),
                None => false,
            },
        )
    }
}

/// Whether the counts of a response are read, and whether it says that it is a
/// stream of events.
pub fn capture_mode(session_known: bool, headers: &Vec<HeaderField>) -> (mode: Option<bool>)
    ensures
        mode == capture_of(session_known, header_views(headers@)),
{
    if !session_known {
        return None;
    }
    if crate::headers::contains_header(headers, "content-encoding") {
        let plain = match get_header(headers, "content-encoding") {
            Some(encoding) => same(encoding, "identity"),
            None => false,
        };
        if !plain {
            return None;
        }
    }
    match get_header(headers, "content-type") {
        Some(kind) => Some(contains(kind, "text/event-stream")),
        None => Some(false),
    }
}

/// The first response that has come to its end is kept, as it came; one that is
/// still under way, or has failed, is passed over.
pub proof fn law_ended_responses_are_found(view: CaptureView, value: JsonView, response: JsonView)
    requires
        !view.done,
        value.get("response"@) == Some(response),
    ensures
        response.get_text("status"@) == Some("completed"@) || response.get_text("status"@) == Some(
            "incomplete"@,
        ) ==> view.observed(value).found == Some(value) && view.observed(value).done,
        response.get_text("status"@) == Some("in_progress"@) || response.get_text("status"@)
            == Some("failed"@) || response.get("status"@) is None ==> view.observed(value) == view,
{
    reveal_strlit("completed");
    reveal_strlit("incomplete");
    reveal_strlit("in_progress");
    reveal_strlit("failed");
    assert("completed"@.len() == 9);
    assert("incomplete"@.len() == 10);
    assert("in_progress"@.len() == 11);
    assert("failed"@.len() == 6);
}

/// What an event says counts for what its data reads as.
pub proof fn law_events_are_heard(view: CaptureView, data: Seq<char>, value: JsonView)
    requires
        parsed_json(encode_utf8(data)) matches Ok(read) && read == value,
    ensures
        view.heard(data) == view.observed(value),
{
}

/// Nothing is read outside a session, or of bytes that are compressed.
pub proof fn law_compressed_responses_are_not_read(
    session_known: bool,
    headers: Seq<(Seq<char>, Option<Seq<char>>)>,
    rest: Seq<(Seq<char>, Option<Seq<char>>)>,
    encoding: Seq<char>,
)
    requires
        headers == seq![("content-encoding"@, Some(encoding))] + rest,
    ensures
        !session_known ==> capture_of(session_known, headers) is None,
        encoding != "identity"@ ==> capture_of(session_known, headers) is None,
        session_known && encoding == "identity"@ ==> capture_of(session_known, headers) is Some,
{
    assert(headers[0] == ("content-encoding"@, Some(encoding)));
}

/// The counts of a response that arrives at once as JSON are found.
pub proof fn law_responses_that_arrive_at_once_are_read(
    view: CaptureView,
    body: Seq<u8>,
    value: JsonView,
)
    requires
        !view.done,
        !view.sse,
        view.buffer.len() == 0,
        body.len() <= MAX_FRAME_BYTES,
        !begins_like_sse(body),
        parsed_json(body) matches Ok(read) && read == value,
        value.get_text("status"@) == Some("completed"@),
        value.get("response"@) is None,
    ensures
        view.stepped(body).found == Some(value),
        view.stepped(body).done,
{
    assert(view.buffer + body =~= body);
}

/// The counts of a response that a block of a stream names are found when it
/// arrives.
pub proof fn law_responses_in_streams_are_read(
    view: CaptureView,
    chunk: Seq<u8>,
    end: int,
    value: JsonView,
    response: JsonView,
)
    requires
        !view.done,
        view.sse,
        view.buffer.len() == 0,
        chunk.len() <= MAX_FRAME_BYTES,
        first_boundary(chunk, false) == Some((end, chunk.len() as int)),
        parsed_json(
            encode_utf8(event_data(utf8_lossy(chunk.take(end)), true)),
        ) matches Ok(read) && read == value,
        value.get("response"@) == Some(response),
        response.get_text("status"@) == Some("completed"@),
    ensures
        view.stepped(chunk).found == Some(value),
        view.stepped(chunk).done,
{
    lemma_boundary_bounds(chunk, 0, false);
    assert(view.buffer + chunk =~= chunk);
}

} // verus!
